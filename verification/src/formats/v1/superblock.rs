use vstd::prelude::*;
use vstd::bytes::*;
use crate::fs_utils::{BLOCK_SIZE, overwrite, copy_into, read_u32, read_u64};
use super::inode::{INode, u32s_bytes, u32_at, lemma_u32s_bytes_push};

verus! {

/// Bytes taken on the device by the serialized superblock.
pub const SUPERBLOCK_BYTES: usize = 60;

pub struct Superblock {
    pub magic: u64,
    pub version: u32,
    pub block_size: u32,
    pub total_blocks: u32,
    pub inode_bitmap_start: u32,
    pub inode_bitmap_blocks: u32,
    pub block_bitmap_start: u32,
    pub block_bitmap_blocks: u32,
    pub inode_table_start: u32,
    pub inode_table_blocks: u32,
    pub data_start: u32,
    pub root_inode: u32,
    pub free_inodes: u32,
    pub free_data: u32,
}

/// The `u32` fields of a superblock, in their on-device order.
pub open spec fn superblock_u32s(s: Superblock) -> Seq<u32> {
    seq![s.version, s.block_size, s.total_blocks, s.inode_bitmap_start, s.inode_bitmap_blocks,
        s.block_bitmap_start, s.block_bitmap_blocks, s.inode_table_start, s.inode_table_blocks,
        s.data_start, s.root_inode, s.free_inodes, s.free_data]
}

/// The on-device encoding of a superblock (`SUPERBLOCK_BYTES` bytes).
pub open spec fn superblock_bytes(s: Superblock) -> Seq<u8> {
    spec_u64_to_le_bytes(s.magic) + u32s_bytes(superblock_u32s(s))
}

/// The superblock that the bytes `b` (at least `SUPERBLOCK_BYTES` of them) encode.
pub open spec fn superblock_from_bytes(b: Seq<u8>) -> Superblock {
    Superblock {
        magic: spec_u64_from_le_bytes(b.subrange(0, 8)),
        version: u32_at(b, 8),
        block_size: u32_at(b, 12),
        total_blocks: u32_at(b, 16),
        inode_bitmap_start: u32_at(b, 20),
        inode_bitmap_blocks: u32_at(b, 24),
        block_bitmap_start: u32_at(b, 28),
        block_bitmap_blocks: u32_at(b, 32),
        inode_table_start: u32_at(b, 36),
        inode_table_blocks: u32_at(b, 40),
        data_start: u32_at(b, 44),
        root_inode: u32_at(b, 48),
        free_inodes: u32_at(b, 52),
        free_data: u32_at(b, 56),
    }
}

impl Superblock {
    /// A superblock whose regions follow each other: superblock (block 0),
    /// inode bitmap, block bitmap, inode table, data. All inodes and data
    /// blocks are free.
    pub fn new(
        magic: u64,
        version: u32,
        block_size: u32,
        total_blocks: u32,
        inode_bitmap_blocks: u32,
        block_bitmap_blocks: u32,
        inode_table_blocks: u32,
        root_inode: u32,
    ) -> (r: Self)
        requires
            1 + inode_bitmap_blocks + block_bitmap_blocks + inode_table_blocks <= total_blocks,
            inode_table_blocks * 2 <= u32::MAX,
        ensures
            r.magic == magic,
            r.version == version,
            r.block_size == block_size,
            r.total_blocks == total_blocks,
            r.inode_bitmap_start == 1,
            r.inode_bitmap_blocks == inode_bitmap_blocks,
            r.block_bitmap_start == 1 + inode_bitmap_blocks,
            r.block_bitmap_blocks == block_bitmap_blocks,
            r.inode_table_start == 1 + inode_bitmap_blocks + block_bitmap_blocks,
            r.inode_table_blocks == inode_table_blocks,
            r.data_start == 1 + inode_bitmap_blocks + block_bitmap_blocks + inode_table_blocks,
            r.root_inode == root_inode,
            r.free_inodes == inode_table_blocks * 2,
            r.free_data == total_blocks - r.data_start,
    {
        let inode_bitmap_start: u32 = 1;
        let block_bitmap_start = inode_bitmap_start + inode_bitmap_blocks;
        let inode_table_start = block_bitmap_start + block_bitmap_blocks;
        let data_start = inode_table_start + inode_table_blocks;
        Superblock {
            magic,
            version,
            block_size,
            total_blocks,
            inode_bitmap_start,
            inode_bitmap_blocks,
            block_bitmap_start,
            block_bitmap_blocks,
            inode_table_start,
            inode_table_blocks,
            data_start,
            root_inode,
            free_inodes: inode_table_blocks * INode::inodes_per_block(),
            free_data: total_blocks - data_start,
        }
    }

    /// Writes the superblock at the start of `buf`; the rest of `buf` is left as it was.
    pub fn serialize(&self, buf: &mut [u8; BLOCK_SIZE])
        ensures
            final(buf)@ == overwrite(old(buf)@, 0, superblock_bytes(*self)),
    {
        let fields: [u32; 13] = [self.version, self.block_size, self.total_blocks,
            self.inode_bitmap_start, self.inode_bitmap_blocks, self.block_bitmap_start,
            self.block_bitmap_blocks, self.inode_table_start, self.inode_table_blocks,
            self.data_start, self.root_inode, self.free_inodes, self.free_data];
        assert(fields@ =~= superblock_u32s(*self));
        let mut v = u64_to_le_bytes(self.magic);
        let ghost prefix = v@;
        let mut i: usize = 0;
        while i < 13
            invariant
                0 <= i <= 13,
                fields@ == superblock_u32s(*self),
                v@ == prefix + u32s_bytes(fields@.take(i as int)),
            decreases 13 - i,
        {
            let mut d = u32_to_le_bytes(fields[i]);
            proof {
                lemma_u32s_bytes_push(fields@.take(i as int), fields@[i as int]);
                assert(fields@.take(i as int).push(fields@[i as int]) =~= fields@.take(i + 1));
            }
            v.append(&mut d);
            i = i + 1;
        }
        assert(fields@.take(13) =~= fields@);
        proof { lemma_superblock_bytes_len(*self); }
        copy_into(buf, 0, v.as_slice());
    }

    /// Reads the superblock stored at the start of `buf`.
    pub fn deserialize(buf: &[u8]) -> (r: Self)
        requires
            buf@.len() >= SUPERBLOCK_BYTES,
        ensures
            r == superblock_from_bytes(buf@),
    {
        Superblock {
            magic: read_u64(buf, 0),
            version: read_u32(buf, 8),
            block_size: read_u32(buf, 12),
            total_blocks: read_u32(buf, 16),
            inode_bitmap_start: read_u32(buf, 20),
            inode_bitmap_blocks: read_u32(buf, 24),
            block_bitmap_start: read_u32(buf, 28),
            block_bitmap_blocks: read_u32(buf, 32),
            inode_table_start: read_u32(buf, 36),
            inode_table_blocks: read_u32(buf, 40),
            data_start: read_u32(buf, 44),
            root_inode: read_u32(buf, 48),
            free_inodes: read_u32(buf, 52),
            free_data: read_u32(buf, 56),
        }
    }
}

pub proof fn lemma_superblock_bytes_len(s: Superblock)
    ensures
        superblock_bytes(s).len() == SUPERBLOCK_BYTES,
{
    lemma_auto_spec_u64_to_from_le_bytes();
}

/// Reading back a serialized superblock gives the same superblock.
pub proof fn lemma_superblock_roundtrip(s: Superblock, b: Seq<u8>)
    requires
        b.len() >= SUPERBLOCK_BYTES,
    ensures
        superblock_from_bytes(overwrite(b, 0, superblock_bytes(s))) == s,
{
    lemma_auto_spec_u32_to_from_le_bytes();
    lemma_auto_spec_u64_to_from_le_bytes();
    lemma_superblock_bytes_len(s);
    let e = superblock_bytes(s);
    let w = overwrite(b, 0, e);
    let f = superblock_u32s(s);
    let ub = u32s_bytes(f);
    assert forall|lo: int, hi: int| 0 <= lo <= hi <= 60 implies #[trigger] w.subrange(lo, hi) == e.subrange(lo, hi) by {
        assert(w.subrange(lo, hi) =~= e.subrange(lo, hi));
    }
    assert(e.subrange(0, 8) =~= spec_u64_to_le_bytes(s.magic));
    assert forall|k: int| 0 <= k < 13 implies #[trigger] u32_at(w, 8 + 4 * k) == f[k] by {
        assert forall|j: int| 0 <= j < 4 implies #[trigger] e.subrange(8 + 4 * k, 12 + 4 * k)[j] == spec_u32_to_le_bytes(f[k])[j] by {
            assert(e[8 + 4 * k + j] == ub[4 * k + j]);
            assert((4 * k + j) / 4 == k && (4 * k + j) % 4 == j);
        }
        assert(e.subrange(8 + 4 * k, 12 + 4 * k) =~= spec_u32_to_le_bytes(f[k]));
        assert(w.subrange(8 + 4 * k, 12 + 4 * k) == e.subrange(8 + 4 * k, 12 + 4 * k));
    }
    assert(u32_at(w, 8 + 4 * 0int) == f[0]);
    assert(u32_at(w, 8 + 4 * 1int) == f[1]);
    assert(u32_at(w, 8 + 4 * 2int) == f[2]);
    assert(u32_at(w, 8 + 4 * 3int) == f[3]);
    assert(u32_at(w, 8 + 4 * 4int) == f[4]);
    assert(u32_at(w, 8 + 4 * 5int) == f[5]);
    assert(u32_at(w, 8 + 4 * 6int) == f[6]);
    assert(u32_at(w, 8 + 4 * 7int) == f[7]);
    assert(u32_at(w, 8 + 4 * 8int) == f[8]);
    assert(u32_at(w, 8 + 4 * 9int) == f[9]);
    assert(u32_at(w, 8 + 4 * 10int) == f[10]);
    assert(u32_at(w, 8 + 4 * 11int) == f[11]);
    assert(u32_at(w, 8 + 4 * 12int) == f[12]);
}

} // verus!
