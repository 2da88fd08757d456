use vstd::prelude::*;
use vstd::bytes::*;
use crate::fs_utils::{BLOCK_SIZE, INVALID_ADDRESS, FileType, file_type_code, file_type_of_code,
    overwrite, copy_into, read_u16, read_u32, read_u64};

verus! {

/// Number of data blocks addressed directly by an inode.
pub const DIRECT_COUNT: usize = 12;
/// Number of block addresses held by an indirect block.
pub const INDIRECT_COUNT: usize = 64;
/// Number of data blocks reachable through the double indirect block.
pub const DOUBLE_COUNT: usize = 4096;
/// Maximum number of data blocks of an inode.
pub const MAX_BLOCKS: usize = 4172;
/// Bytes taken on the device by the serialized fields of an inode: the
/// 88 bytes of size, type, permissions, links, block count, direct and
/// indirect addresses and the two timestamps, then at bytes 88..92 the
/// address of the double indirect block.
pub const INODE_BYTES: usize = 92;

pub struct INode {
    pub size: u64,
    pub file_type: FileType,
    pub permissions: u16,
    pub direct: [u32; 12],
    pub indirect: u32,
    pub double: u32,
    pub created: u64,
    pub modified: u64,
    pub links: u16,
    pub blocks: u32,
}

/// The little-endian encoding of a sequence of `u32`, one after the other.
pub open spec fn u32s_bytes(d: Seq<u32>) -> Seq<u8> {
    Seq::new(4 * d.len(), |i: int| spec_u32_to_le_bytes(d[i / 4])[i % 4])
}

/// The on-device encoding of an inode (`INODE_BYTES` bytes).
pub open spec fn inode_bytes(n: INode) -> Seq<u8> {
    spec_u64_to_le_bytes(n.size)
        + seq![file_type_code(n.file_type), 0u8]
        + spec_u16_to_le_bytes(n.permissions)
        + spec_u16_to_le_bytes(n.links)
        + spec_u16_to_le_bytes(0)
        + spec_u32_to_le_bytes(n.blocks)
        + u32s_bytes(n.direct@)
        + spec_u32_to_le_bytes(n.indirect)
        + spec_u64_to_le_bytes(n.created)
        + spec_u64_to_le_bytes(n.modified)
        + spec_u32_to_le_bytes(n.double)
}

/// The `u32` stored at position `off` of `b`.
pub open spec fn u32_at(b: Seq<u8>, off: int) -> u32 {
    spec_u32_from_le_bytes(b.subrange(off, off + 4))
}

/// The inode that the bytes `b` (at least `INODE_BYTES` of them) encode.
pub open spec fn inode_from_bytes(b: Seq<u8>) -> INode {
    INode {
        size: spec_u64_from_le_bytes(b.subrange(0, 8)),
        file_type: file_type_of_code(b[8]),
        permissions: spec_u16_from_le_bytes(b.subrange(10, 12)),
        links: spec_u16_from_le_bytes(b.subrange(12, 14)),
        blocks: u32_at(b, 16),
        direct: [u32_at(b, 20), u32_at(b, 24), u32_at(b, 28), u32_at(b, 32),
                 u32_at(b, 36), u32_at(b, 40), u32_at(b, 44), u32_at(b, 48),
                 u32_at(b, 52), u32_at(b, 56), u32_at(b, 60), u32_at(b, 64)],
        indirect: u32_at(b, 68),
        created: spec_u64_from_le_bytes(b.subrange(72, 80)),
        modified: spec_u64_from_le_bytes(b.subrange(80, 88)),
        double: u32_at(b, 88),
    }
}

impl INode {
    /// The room an inode takes in the inode table: 96 bytes, the
    /// `INODE_BYTES` of its fields rounded up to a multiple of eight. The
    /// double indirect address makes the fields longer than 88 bytes; a
    /// block still holds two inodes.
    pub fn on_disk_size() -> (r: usize)
        ensures
            r == 96,
    {
        96
    }

    pub fn inodes_per_block() -> (r: u32)
        ensures
            r == 2,
    {
        (BLOCK_SIZE / Self::on_disk_size()) as u32
    }

    /// A new inode with no data blocks, one link and size zero.
    pub fn empty(file_type: FileType, permissions: u16, created: u64) -> (r: Self)
        ensures
            r.size == 0,
            r.file_type == file_type,
            r.permissions == permissions,
            r.direct@ == Seq::new(12, |i: int| INVALID_ADDRESS),
            r.indirect == INVALID_ADDRESS,
            r.double == INVALID_ADDRESS,
            r.created == created,
            r.modified == created,
            r.links == 1,
            r.blocks == 0,
    {
        let r = INode {
            size: 0,
            file_type,
            permissions,
            direct: [INVALID_ADDRESS; 12],
            indirect: INVALID_ADDRESS,
            double: INVALID_ADDRESS,
            created,
            modified: created,
            links: 1,
            blocks: 0,
        };
        assert(r.direct@ =~= Seq::new(12, |i: int| INVALID_ADDRESS));
        r
    }

    /// Appends a directly addressed data block.
    pub fn add_block(&mut self, block: u32)
        requires
            old(self).blocks < DIRECT_COUNT,
        ensures
            final(self).direct@ == old(self).direct@.update(old(self).blocks as int, block),
            final(self).blocks == old(self).blocks + 1,
            final(self).size == old(self).size,
            final(self).file_type == old(self).file_type,
            final(self).permissions == old(self).permissions,
            final(self).indirect == old(self).indirect,
            final(self).double == old(self).double,
            final(self).created == old(self).created,
            final(self).modified == old(self).modified,
            final(self).links == old(self).links,
    {
        self.direct[self.blocks as usize] = block;
        self.blocks = self.blocks + 1;
    }

    /// Writes the inode at the start of `buf` (`INODE_BYTES` bytes); the rest
    /// of `buf` is left as it was.
    pub fn serialize(&self, buf: &mut [u8; BLOCK_SIZE])
        ensures
            final(buf)@ == overwrite(old(buf)@, 0, inode_bytes(*self)),
    {
        let mut v = u64_to_le_bytes(self.size);
        let t = self.file_type.to_le_bytes();
        v.push(t[0]);
        v.push(0u8);
        let mut p = u16_to_le_bytes(self.permissions);
        v.append(&mut p);
        let mut l = u16_to_le_bytes(self.links);
        v.append(&mut l);
        let mut pad = u16_to_le_bytes(0u16);
        v.append(&mut pad);
        let mut b = u32_to_le_bytes(self.blocks);
        v.append(&mut b);
        let ghost prefix = v@;
        let mut i: usize = 0;
        while i < 12
            invariant
                0 <= i <= 12,
                v@ == prefix + u32s_bytes(self.direct@.take(i as int)),
            decreases 12 - i,
        {
            let mut d = u32_to_le_bytes(self.direct[i]);
            proof {
                lemma_u32s_bytes_push(self.direct@.take(i as int), self.direct@[i as int]);
                assert(self.direct@.take(i as int).push(self.direct@[i as int]) =~= self.direct@.take(i + 1));
            }
            v.append(&mut d);
            i = i + 1;
        }
        assert(self.direct@.take(12) =~= self.direct@);
        let mut ind = u32_to_le_bytes(self.indirect);
        v.append(&mut ind);
        let mut c = u64_to_le_bytes(self.created);
        v.append(&mut c);
        let mut m = u64_to_le_bytes(self.modified);
        v.append(&mut m);
        let mut dbl = u32_to_le_bytes(self.double);
        v.append(&mut dbl);
        assert(v@ =~= inode_bytes(*self));
        proof { lemma_inode_bytes_len(*self); }
        copy_into(buf, 0, v.as_slice());
    }

    /// Reads the inode stored at the start of `buf`.
    pub fn deserialize(buf: &[u8]) -> (r: Self)
        requires
            buf@.len() >= INODE_BYTES,
        ensures
            r == inode_from_bytes(buf@),
    {
        let size = read_u64(buf, 0);
        let t: [u8; 1] = [buf[8]];
        let file_type = FileType::from_le_bytes(&t);
        let permissions = read_u16(buf, 10);
        let links = read_u16(buf, 12);
        let blocks = read_u32(buf, 16);
        let mut direct = [0u32; 12];
        let mut i: usize = 0;
        while i < 12
            invariant
                0 <= i <= 12,
                buf@.len() >= INODE_BYTES,
                forall|k: int| 0 <= k < i ==> direct@[k] == u32_at(buf@, 20 + 4 * k),
            decreases 12 - i,
        {
            direct[i] = read_u32(buf, 20 + 4 * i);
            i = i + 1;
        }
        let indirect = read_u32(buf, 68);
        let created = read_u64(buf, 72);
        let modified = read_u64(buf, 80);
        let double = read_u32(buf, 88);
        let r = INode { size, file_type, permissions, direct, indirect, double, created, modified, links, blocks };
        assert(r.direct =~= inode_from_bytes(buf@).direct);
        r
    }
}

pub proof fn lemma_u32s_bytes_push(d: Seq<u32>, x: u32)
    ensures
        u32s_bytes(d.push(x)) == u32s_bytes(d) + spec_u32_to_le_bytes(x),
{
    lemma_auto_spec_u32_to_from_le_bytes();
    let a = u32s_bytes(d.push(x));
    let b = u32s_bytes(d) + spec_u32_to_le_bytes(x);
    assert forall|i: int| 0 <= i < a.len() implies a[i] == b[i] by {
        if i < 4 * d.len() {
            assert(i / 4 < d.len());
        } else {
            assert(i / 4 == d.len());
        }
    }
    assert(a =~= b);
}

pub proof fn lemma_inode_bytes_len(n: INode)
    ensures
        inode_bytes(n).len() == INODE_BYTES,
{
    lemma_auto_spec_u32_to_from_le_bytes();
    lemma_auto_spec_u16_to_from_le_bytes();
    lemma_auto_spec_u64_to_from_le_bytes();
}

/// Reading back a serialized inode gives the same inode.
pub proof fn lemma_inode_roundtrip(n: INode, b: Seq<u8>)
    requires
        b.len() >= INODE_BYTES,
    ensures
        inode_from_bytes(overwrite(b, 0, inode_bytes(n))) == n,
{
    lemma_auto_spec_u32_to_from_le_bytes();
    lemma_auto_spec_u16_to_from_le_bytes();
    lemma_auto_spec_u64_to_from_le_bytes();
    lemma_inode_bytes_len(n);
    let e = inode_bytes(n);
    let w = overwrite(b, 0, e);
    assert(w.subrange(0, 92) =~= e);
    assert forall|lo: int, hi: int| 0 <= lo <= hi <= 92 implies #[trigger] w.subrange(lo, hi) == e.subrange(lo, hi) by {
        assert(w.subrange(lo, hi) =~= e.subrange(lo, hi));
    }
    assert(e.subrange(0, 8) =~= spec_u64_to_le_bytes(n.size));
    assert(e[8] == file_type_code(n.file_type));
    assert(w[8] == e[8]);
    assert(e.subrange(10, 12) =~= spec_u16_to_le_bytes(n.permissions));
    assert(e.subrange(12, 14) =~= spec_u16_to_le_bytes(n.links));
    assert(e.subrange(16, 20) =~= spec_u32_to_le_bytes(n.blocks));
    assert forall|k: int| 0 <= k < 12 implies #[trigger] e.subrange(20 + 4 * k, 24 + 4 * k) =~= spec_u32_to_le_bytes(n.direct@[k]) by {
        let ub = u32s_bytes(n.direct@);
        assert forall|j: int| 0 <= j < 4 implies #[trigger] e.subrange(20 + 4 * k, 24 + 4 * k)[j] == spec_u32_to_le_bytes(n.direct@[k])[j] by {
            assert(e[20 + 4 * k + j] == ub[4 * k + j]);
            assert((4 * k + j) / 4 == k && (4 * k + j) % 4 == j);
        }
    }
    assert(e.subrange(68, 72) =~= spec_u32_to_le_bytes(n.indirect));
    assert(e.subrange(72, 80) =~= spec_u64_to_le_bytes(n.created));
    assert(e.subrange(80, 88) =~= spec_u64_to_le_bytes(n.modified));
    assert(e.subrange(88, 92) =~= spec_u32_to_le_bytes(n.double));
    let r = inode_from_bytes(w);
    assert forall|k: int| 0 <= k < 12 implies r.direct@[k] == n.direct@[k] by {
        assert(w.subrange(20 + 4 * k, 24 + 4 * k) == e.subrange(20 + 4 * k, 24 + 4 * k));
    }
    assert(r.direct =~= n.direct);
}

} // verus!
