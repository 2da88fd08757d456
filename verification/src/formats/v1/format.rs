use vstd::prelude::*;
use vstd::string::StringSliceAdditionalSpecFns;
use std::collections::HashMap;
use crate::fs_utils::{BLOCK_SIZE, MAGIC, INVALID_ADDRESS, FileType, overwrite, now_secs, string_from_utf8};
use crate::fs_error::{FSError, FSErrorCode, FSResult, StorageFullKind, InvalidInputKind, InvalidDirEntryKind, InvalidINodeKind,
    outcome_agrees};
use crate::device::block_device::{BlockDevice, well_sized};
use vstd::utf8::{decode_utf8, valid_utf8};
use super::inode::INode;
use super::superblock::{Superblock, superblock_bytes, superblock_from_bytes, lemma_superblock_roundtrip,
    lemma_superblock_bytes_len};
use super::bitmap_allocator::{BitmapAllocator, first_n, with_bits, lemma_free_scan_bounds, bit_set, lemma_with_bits,
    lemma_with_bits_frame, lemma_with_bits_len, only_first_set, lemma_only_first_set};
use super::inode_handler::INodeTableHandler;
use super::directory_handler::{DirectoryHandler, entry_freed, freed_region, layout, LayoutError, search_dir, dir_on_device, walk_error,
    dir_items, dir_clean, lemma_dir_items_parsable, lemma_write_dir_blocks_frame, write_dir_blocks, lemma_search_dir_block,
    grown_block, search_block, entry_added, region_fits, lemma_write_dir_blocks_other, WalkEnd, lemma_search_dir_hit,
    fresh_dir_block, lemma_fresh_dir_block};
use crate::laws::{law_added_entry_readable, law_grown_entry_readable};
use super::directory::{Directory, DirEntry, parsed_entry, e_name, e_type, e_parsable, e_inode, min_rec, e_rec, e_free};
use super::resolver::{ResolutionResult, resolve_spec, resolve_path_spec, entry_at, walk_code, lemma_entry_at, lemma_walk_code, path_text};
use super::path::{path_components, path_is_absolute, names_entry, components, SEPARATOR};
use super::inode_handler::{inode_at, with_inode, lemma_read_after_write_inode, inode_slot};
use super::file::{File, FileMetadata, SeekFrom};
use crate::formats::format::{DirectoryContentEntry, DirectoryContentResult};

verus! {

broadcast use vstd::std_specs::hash::group_hash_axioms;

/// What is kept about a file just opened or created: its inode, offset zero.
pub open spec fn fresh_handle(inode: u32) -> FileMetadata {
    FileMetadata { inode, offset: 0 }
}

/// The id given to the file opened after the one with id `id`.
pub open spec fn next_id(id: u32) -> u32 {
    if id == u32::MAX { 0 } else { (id + 1) as u32 }
}

/// The offset that a seek to `pos` gives, for a file of `size` bytes whose
/// offset is `cur`: never below zero.
pub open spec fn seek_target(pos: SeekFrom, size: u64, cur: u64) -> int {
    let t = match pos {
        SeekFrom::Start(o) => o as int,
        SeekFrom::End(o) => size + o,
        SeekFrom::Current(o) => cur + o,
    };
    if t < 0 { 0 } else { t }
}

/// Where `seek` moves the offset: to `o` from the start, to `d` bytes from
/// the current offset `cur`, or to `d` bytes from the end of a file of
/// `size` bytes, and never before the start of the file.
pub proof fn law_seek_target(pos: SeekFrom, size: u64, cur: u64)
    ensures
        pos matches SeekFrom::Start(o) ==> seek_target(pos, size, cur) == o,
        pos matches SeekFrom::Current(d) ==> seek_target(pos, size, cur) == (if cur + d < 0 { 0 } else { cur + d }),
        pos matches SeekFrom::End(d) ==> seek_target(pos, size, cur) == (if size + d < 0 { 0 } else { size + d }),
        seek_target(pos, size, cur) >= 0,
{
}

/// Bytes of device per inode when formatting.
pub const INODE_DENSITY: u32 = 1024;

/// `a / b` rounded up.
pub open spec fn div_ceil(a: int, b: int) -> int {
    a / b + if a % b == 0 { 0int } else { 1int }
}

/// The layout `format` gives a device of `blocks` blocks: the blocks of the
/// inode bitmap, of the block bitmap and of the inode table.
pub open spec fn format_layout(blocks: int) -> (int, int, int) {
    let inode_count = div_ceil(256 * blocks, 1024);
    let table = div_ceil(inode_count, 2);
    (div_ceil(table, 2048), div_ceil(blocks, 2048), table)
}

/// A device of `blocks` blocks can be formatted: its size in bytes fits in a
/// `u32` and, besides the superblock, the bitmaps and the inode table, it
/// has room for the first data block.
pub open spec fn can_format(blocks: int) -> bool {
    let (ib, bb, t) = format_layout(blocks);
    &&& 256 * blocks <= u32::MAX
    &&& 1 + ib + bb + t < blocks
}

/// The superblock that `format` writes on a device of `blocks` blocks: the
/// root directory takes inode 0 and data block 0.
pub open spec fn format_superblock(blocks: int) -> Superblock {
    let (ib, bb, t) = format_layout(blocks);
    Superblock {
        magic: MAGIC,
        version: 1,
        block_size: 256,
        total_blocks: blocks as u32,
        inode_bitmap_start: 1,
        inode_bitmap_blocks: ib as u32,
        block_bitmap_start: (1 + ib) as u32,
        block_bitmap_blocks: bb as u32,
        inode_table_start: (1 + ib + bb) as u32,
        inode_table_blocks: t as u32,
        data_start: (1 + ib + bb + t) as u32,
        root_inode: 0,
        free_inodes: (t * 2 - 1) as u32,
        free_data: (blocks - (1 + ib + bb + t) - 1) as u32,
    }
}

/// The regions of a superblock follow each other (superblock, inode bitmap,
/// block bitmap, inode table, data) and every index and address they hold
/// fits in a `u32`.
pub open spec fn geometry(sb: Superblock) -> bool {
    &&& sb.inode_bitmap_start == 1
    &&& sb.block_bitmap_start == sb.inode_bitmap_start + sb.inode_bitmap_blocks
    &&& sb.inode_table_start == sb.block_bitmap_start + sb.block_bitmap_blocks
    &&& sb.data_start == sb.inode_table_start + sb.inode_table_blocks
    &&& sb.data_start < sb.total_blocks
    &&& sb.inode_table_blocks * 2 <= u32::MAX
    &&& sb.inode_bitmap_blocks * 2048 <= u32::MAX + 1
    &&& sb.block_bitmap_blocks * 2048 <= u32::MAX + 1
    &&& sb.root_inode < sb.inode_table_blocks * 2
}

/// Blocks read by a bitmap of `blocks` blocks that maps `max` indices.
pub open spec fn bitmap_span(blocks: int, max: int) -> int {
    if blocks >= max / 2048 + 1 { blocks } else { max / 2048 + 1 }
}

/// The regions of `sb` lie on a device of `n` blocks.
pub open spec fn fits_device(sb: Superblock, n: int) -> bool {
    &&& sb.total_blocks <= n
    &&& sb.inode_bitmap_start + bitmap_span(sb.inode_bitmap_blocks as int, sb.inode_table_blocks * 2) <= n
    &&& sb.block_bitmap_start + bitmap_span(sb.block_bitmap_blocks as int, sb.total_blocks - sb.data_start) <= n
}

/// The device holds a filesystem that `mount` accepts.
pub open spec fn mountable(dev: Seq<Seq<u8>>) -> bool {
    let sb = superblock_from_bytes(dev[0]);
    &&& dev.len() >= 1
    &&& sb.magic == MAGIC
    &&& geometry(sb)
    &&& fits_device(sb, dev.len() as int)
}

/// A mounted filesystem of format version 1.
pub struct FormatV1 {
    pub superblock: Superblock,
    pub inode_allocator: BitmapAllocator,
    pub block_allocator: BitmapAllocator,
    pub inode_handler: INodeTableHandler,
    pub directory_handler: DirectoryHandler,
    pub next_file_id: u32,
    pub open_files: HashMap<u32, FileMetadata>,
}

impl FormatV1 {
    /// The allocators and handlers follow the regions of the superblock.
    pub open spec fn wf(&self) -> bool {
        let sb = self.superblock;
        &&& geometry(sb)
        &&& self.inode_allocator.wf()
        &&& self.inode_allocator.start_block() == sb.inode_bitmap_start
        &&& self.inode_allocator.bitmap_blocks() == sb.inode_bitmap_blocks
        &&& self.inode_allocator.spec_max_index() == sb.inode_table_blocks * 2
        &&& self.block_allocator.wf()
        &&& self.block_allocator.start_block() == sb.block_bitmap_start
        &&& self.block_allocator.bitmap_blocks() == sb.block_bitmap_blocks
        &&& self.block_allocator.spec_max_index() == sb.total_blocks - sb.data_start
        &&& self.inode_handler.inode_table_start == sb.inode_table_start
        &&& self.inode_handler.inode_table_blocks == sb.inode_table_blocks
        &&& self.inode_handler.data_start == sb.data_start
        &&& self.directory_handler.data_start == sb.data_start
        &&& self.directory_handler.root_inode_ind == sb.root_inode
    }

    /// The filesystem lies on a device of `n` blocks.
    pub open spec fn fits(&self, n: int) -> bool {
        fits_device(self.superblock, n)
    }

    /// `other` has the layout of `self` (the free counters and the open files
    /// may differ).
    pub open spec fn same_layout(&self, other: &FormatV1) -> bool {
        let a = self.superblock;
        let b = other.superblock;
        &&& a.magic == b.magic && a.version == b.version && a.block_size == b.block_size
        &&& a.total_blocks == b.total_blocks
        &&& a.inode_bitmap_start == b.inode_bitmap_start && a.inode_bitmap_blocks == b.inode_bitmap_blocks
        &&& a.block_bitmap_start == b.block_bitmap_start && a.block_bitmap_blocks == b.block_bitmap_blocks
        &&& a.inode_table_start == b.inode_table_start && a.inode_table_blocks == b.inode_table_blocks
        &&& a.data_start == b.data_start && a.root_inode == b.root_inode
        &&& self.inode_handler == other.inode_handler
        &&& self.directory_handler == other.directory_handler
    }

    /// Block 0 of `dev` holds the superblock.
    pub open spec fn synced(&self, dev: Seq<Seq<u8>>) -> bool {
        dev.len() >= 1 && superblock_from_bytes(dev[0]) == self.superblock
    }

    pub(crate) proof fn lemma_on_device(&self, dev: Seq<Seq<u8>>)
        requires
            self.wf(),
            self.fits(dev.len() as int),
            well_sized(dev),
        ensures
            self.inode_allocator.on_device(dev),
            self.block_allocator.on_device(dev),
            self.inode_handler.wf(),
            self.inode_handler.inode_table_start + self.inode_handler.inode_table_blocks <= dev.len(),
    {
    }

    pub fn free_inodes_count(&self) -> (r: u32)
        ensures
            r == self.superblock.free_inodes,
    {
        self.superblock.free_inodes
    }

    pub fn free_data_blocks_count(&self) -> (r: u32)
        ensures
            r == self.superblock.free_data,
    {
        self.superblock.free_data
    }

    /// Inodes in use: those of the table minus the free ones (zero when the
    /// counter of free inodes is larger than the table).
    pub fn used_inodes_count(&self) -> (r: u32)
        requires
            self.wf(),
        ensures
            r == (if self.superblock.free_inodes <= self.superblock.inode_table_blocks * 2 {
                self.superblock.inode_table_blocks * 2 - self.superblock.free_inodes
            } else {
                0
            }),
    {
        let total = self.superblock.inode_table_blocks * INode::inodes_per_block();
        if self.superblock.free_inodes <= total { total - self.superblock.free_inodes } else { 0 }
    }

    /// Data blocks in use: those of the data region minus the free ones (zero
    /// when the counter of free blocks is larger than the region).
    pub fn used_data_blocks_count(&self) -> (r: u32)
        requires
            self.wf(),
        ensures
            r == (if self.superblock.free_data <= self.superblock.total_blocks - self.superblock.data_start {
                self.superblock.total_blocks - self.superblock.data_start - self.superblock.free_data
            } else {
                0
            }),
    {
        let total = self.superblock.total_blocks - self.superblock.data_start;
        if self.superblock.free_data <= total { total - self.superblock.free_data } else { 0 }
    }

    /// Reads the superblock of the device and sets up the filesystem it
    /// describes. Fails with `InvalidMagic` when the device holds no valid
    /// filesystem of this format.
    pub fn mount<D: BlockDevice>(device: &mut D) -> (r: FSResult<Self>)
        requires
            old(device).inv(),
        ensures
            final(device).inv(),
            final(device).blocks() == old(device).blocks(),
            match r {
                Ok(f) => {
                    &&& mountable(old(device).blocks())
                    &&& f.wf()
                    &&& f.fits(old(device).blocks().len() as int)
                    &&& f.superblock == superblock_from_bytes(old(device).blocks()[0])
                    &&& f.synced(old(device).blocks())
                    &&& f.next_file_id == 0
                    &&& f.open_files@ == Map::<u32, FileMetadata>::empty()
                },
                Err(FSError::InvalidMagic) => old(device).blocks().len() >= 1 && !mountable(old(device).blocks()),
                Err(e) => e.is_device_error(),
            },
            old(device).reliable() && mountable(old(device).blocks()) ==> r is Ok && final(device).reliable(),
    {
        let mut buf = [0u8; BLOCK_SIZE];
        match device.read_block(0, &mut buf) {
            Err(e) => { return Err(e); },
            Ok(_) => {},
        }
        let n = device.block_count();
        if n == 0 {
            return Err(FSError::InvalidInput(InvalidInputKind::BlockIndexOOB));
        }
        let sb = Superblock::deserialize(&buf);
        if sb.magic != MAGIC {
            return Err(FSError::InvalidMagic);
        }
        if !Self::check_geometry(&sb, n) {
            return Err(FSError::InvalidMagic);
        }
        let data_blocks = sb.total_blocks - sb.data_start;
        let inode_allocator = BitmapAllocator::new(sb.inode_bitmap_start, sb.inode_bitmap_blocks,
            sb.inode_table_blocks * INode::inodes_per_block());
        let block_allocator = BitmapAllocator::new(sb.block_bitmap_start, sb.block_bitmap_blocks, data_blocks);
        let inode_handler = INodeTableHandler::new(sb.inode_table_start, sb.inode_table_blocks, sb.data_start);
        let directory_handler = DirectoryHandler::new(sb.data_start, sb.root_inode);
        Ok(FormatV1 {
            superblock: sb,
            inode_allocator,
            block_allocator,
            inode_handler,
            directory_handler,
            next_file_id: 0,
            open_files: HashMap::new(),
        })
    }

    /// `a / b` rounded up.
    fn div_ceil(a: u32, b: u32) -> (r: u32)
        requires
            b > 0,
        ensures
            r == div_ceil(a as int, b as int),
    {
        proof {
            if b >= 2 {
                assert(a / b <= a / 2) by (nonlinear_arith)
                    requires
                        b >= 2;
            }
        }
        a / b + if a % b == 0 { 0 } else { 1 }
    }

    /// Formats the device: superblock, empty bitmaps and inode table, and a
    /// root directory holding only `.` and `..`. A device too small for the
    /// layout and a first data block is refused, and left as it is.
    pub fn format<D: BlockDevice>(device: &mut D) -> (r: FSResult<()>)
        requires
            old(device).inv(),
            256 * old(device).blocks().len() <= u32::MAX,
        ensures
            final(device).inv(),
            final(device).blocks().len() == old(device).blocks().len(),
            !can_format(old(device).blocks().len() as int) ==> {
                &&& r == Err::<(), FSError>(FSError::InvalidInput(InvalidInputKind::BlockIndexOOB))
                &&& final(device).blocks() == old(device).blocks()
            },
            match r {
                Ok(_) => {
                    let sb = format_superblock(old(device).blocks().len() as int);
                    &&& mountable(final(device).blocks())
                    &&& superblock_from_bytes(final(device).blocks()[0]) == sb
                    &&& only_first_set(final(device).blocks(), sb.inode_bitmap_start as int, sb.inode_bitmap_blocks as int)
                    &&& only_first_set(final(device).blocks(), sb.block_bitmap_start as int, sb.block_bitmap_blocks as int)
                    &&& ({
                        let root = inode_at(final(device).blocks(), sb.inode_table_start as int, 0);
                        &&& root.file_type == FileType::Directory && root.links == 1
                        &&& root.size == 256 && root.blocks == 1 && root.direct@[0] == 0
                    })
                    &&& fresh_dir_block(final(device).blocks()[sb.data_start as int], 0, 0)
                },
                Err(e) => e.is_device_error(),
            },
            old(device).reliable() && can_format(old(device).blocks().len() as int) ==> r is Ok && final(device).reliable(),
    {
        let ghost n0 = device.blocks().len();
        proof {
            device.lemma_inv_well_sized();
        }
        let blocks = device.block_count();
        let bits_per_block = 8 * BLOCK_SIZE as u32;
        let inode_count = Self::div_ceil(BLOCK_SIZE as u32 * blocks, INODE_DENSITY);
        let inode_table_blocks = Self::div_ceil(inode_count, INode::inodes_per_block());
        let inode_bitmap_blocks = Self::div_ceil(inode_table_blocks, bits_per_block);
        let block_bitmap_blocks = Self::div_ceil(blocks, bits_per_block);
        if 1 + inode_bitmap_blocks as u64 + block_bitmap_blocks as u64 + inode_table_blocks as u64 >= blocks as u64 {
            // no room for the root directory's data block
            return Err(FSError::InvalidInput(InvalidInputKind::BlockIndexOOB));
        }
        assert(format_layout(n0 as int) == (inode_bitmap_blocks as int, block_bitmap_blocks as int, inode_table_blocks as int));
        assert(can_format(n0 as int));
        let mut sb = Superblock::new(MAGIC, 1, BLOCK_SIZE as u32, blocks, inode_bitmap_blocks, block_bitmap_blocks,
            inode_table_blocks, 0);

        // the root directory
        let inode_handler = INodeTableHandler::new(sb.inode_table_start, inode_table_blocks, sb.data_start);
        let now = now_secs();
        let mut root_inode = INode::empty(FileType::Directory, u16::MAX, now);
        let root_dir = Directory::new(0, 0);
        root_inode.add_block(0);
        let root_blocks = root_inode.blocks as u64;
        let block_size = BLOCK_SIZE as u64;
        assert(block_size * root_blocks == 256) by (nonlinear_arith)
            requires
                block_size == 256,
                root_blocks == 1;
        root_inode.size = block_size * root_blocks;
        let directory_handler = DirectoryHandler::new(sb.data_start, 0);

        let mut buf = [0u8; BLOCK_SIZE];
        let ghost zeros = Seq::new(256, |i: int| 0u8);
        assert(buf@ =~= zeros);
        // zero the inode bitmap
        let start = sb.inode_bitmap_start + 1;
        let end = sb.inode_bitmap_start + sb.inode_bitmap_blocks;
        let mut i = start;
        while i < end
            invariant
                device.inv(),
                device.blocks().len() == n0,
                n0 == old(device).blocks().len(),
                can_format(n0 as int),
                buf@ == zeros,
                start <= i,
                end < n0,
                forall|j: int| start <= j < i ==> #[trigger] device.blocks()[j] == zeros,
                old(device).reliable() ==> device.reliable(),
            decreases end - i,
        {
            match device.write_block(i, &buf) {
                Err(e) => { return Err(e); },
                Ok(_) => {},
            }
            i = i + 1;
        }
        let ghost ib = sb.inode_bitmap_start as int;
        let ghost ibn = sb.inode_bitmap_blocks as int;
        // zero the block bitmap
        let start = sb.block_bitmap_start + 1;
        let end = sb.block_bitmap_start + sb.block_bitmap_blocks;
        let mut i = start;
        while i < end
            invariant
                device.inv(),
                device.blocks().len() == n0,
                n0 == old(device).blocks().len(),
                can_format(n0 as int),
                buf@ == zeros,
                start <= i,
                end < n0,
                start == ib + ibn + 1,
                ib >= 0,
                forall|j: int| ib + 1 <= j < ib + ibn ==> #[trigger] device.blocks()[j] == zeros,
                forall|j: int| start <= j < i ==> #[trigger] device.blocks()[j] == zeros,
                old(device).reliable() ==> device.reliable(),
            decreases end - i,
        {
            let ghost pre = device.blocks();
            match device.write_block(i, &buf) {
                Err(e) => { return Err(e); },
                Ok(_) => {},
            }
            assert forall|j: int| ib + 1 <= j < ib + ibn implies #[trigger] device.blocks()[j] == zeros by {
                assert(pre[j] == zeros);
            }
            i = i + 1;
        }

        let ghost bb = sb.block_bitmap_start as int;
        let ghost bbn = sb.block_bitmap_blocks as int;
        // mark inode 0 and data block 0 as used
        buf[0] = 1;
        let ghost first = buf@;
        assert(first =~= zeros.update(0, 1u8));
        match device.write_block(sb.inode_bitmap_start, &buf) {
            Err(e) => { return Err(e); },
            Ok(_) => {},
        }
        match device.write_block(sb.block_bitmap_start, &buf) {
            Err(e) => { return Err(e); },
            Ok(_) => {},
        }
        sb.free_data = sb.free_data - 1;
        sb.free_inodes = sb.free_inodes - 1;
        let ghost bits = device.blocks();
        proof {
            device.lemma_inv_well_sized();
        }

        match inode_handler.write_inode(device, 0, &root_inode) {
            Err(e) => { return Err(e); },
            Ok(_) => {},
        }
        let ghost dev_root = device.blocks();
        assert(layout(root_dir.entries@, 0, 0) == Ok::<int, LayoutError>(1)) by {
            reveal_with_fuel(layout, 4);
        }
        match directory_handler.write_directory_with_inode(device, &root_dir, &root_inode) {
            Err(e) => { return Err(e); },
            Ok(_) => {},
        }
        let ghost dev_dir = device.blocks();
        proof {
            lemma_fresh_dir_block(root_dir.entries@, 0, 0);
            reveal_with_fuel(write_dir_blocks, 2);
            assert(dev_dir[sb.data_start as int] == super::directory_handler::entries_bytes(root_dir.entries@).subrange(0, 256));
        }

        // the superblock
        let ghost before = buf@;
        sb.serialize(&mut buf);
        match device.write_block(0, &buf) {
            Err(e) => { return Err(e); },
            Ok(_) => {},
        }
        proof {
            lemma_superblock_roundtrip(sb, before);
            assert(superblock_from_bytes(device.blocks()[0]) == sb);
            assert(sb == format_superblock(n0 as int));
            let fin = device.blocks();
            assert forall|j: int| 1 <= j < sb.inode_table_start implies #[trigger] fin[j] == bits[j] by {
                assert(fin[j] == dev_dir[j]);
                lemma_write_dir_blocks_frame(dev_root, sb.data_start as int, root_inode.direct@,
                    super::directory_handler::entries_bytes(root_dir.entries@), 1, j);
            }
            assert forall|j: int| 1 <= j < ibn implies #[trigger] fin[ib + j] == zeros by {
                assert(fin[ib + j] == bits[ib + j]);
            }
            assert forall|j: int| 1 <= j < bbn implies #[trigger] fin[bb + j] == zeros by {
                assert(fin[bb + j] == bits[bb + j]);
            }
            assert(fin[ib] == bits[ib]);
            assert(fin[bb] == bits[bb]);
            lemma_only_first_set(fin, ib, ibn);
            lemma_only_first_set(fin, bb, bbn);
            let ts = sb.inode_table_start as int;
            lemma_read_after_write_inode(bits, ts, 0, root_inode, 0);
            lemma_write_dir_blocks_frame(dev_root, sb.data_start as int, root_inode.direct@,
                super::directory_handler::entries_bytes(root_dir.entries@), 1, ts);
            assert(fin[ts] == dev_root[ts]);
            assert(inode_slot(fin, ts, 0) == inode_slot(dev_root, ts, 0));
        }
        Ok(())
    }

    /// Whether `sb` has the geometry of a filesystem of this format and lies
    /// on a device of `n` blocks.
    fn check_geometry(sb: &Superblock, n: u32) -> (r: bool)
        ensures
            r == (geometry(*sb) && fits_device(*sb, n as int)),
    {
        let ib_start = sb.inode_bitmap_start as u64;
        let ib = sb.inode_bitmap_blocks as u64;
        let bb = sb.block_bitmap_blocks as u64;
        let t = sb.inode_table_blocks as u64;
        if ib_start != 1 || sb.block_bitmap_start as u64 != ib_start + ib
            || sb.inode_table_start as u64 != sb.block_bitmap_start as u64 + bb
            || sb.data_start as u64 != sb.inode_table_start as u64 + t {
            return false;
        }
        if sb.data_start >= sb.total_blocks || t * 2 > u32::MAX as u64 || ib * 2048 > u32::MAX as u64 + 1
            || bb * 2048 > u32::MAX as u64 + 1 || sb.root_inode as u64 >= t * 2 {
            return false;
        }
        let data_blocks = (sb.total_blocks - sb.data_start) as u64;
        let ispan = if ib >= t * 2 / 2048 + 1 { ib } else { t * 2 / 2048 + 1 };
        let bspan = if bb >= data_blocks / 2048 + 1 { bb } else { data_blocks / 2048 + 1 };
        sb.total_blocks <= n && ib_start + ispan <= n as u64 && sb.block_bitmap_start as u64 + bspan <= n as u64
    }
}

impl FormatV1 {
    /// The directory that holds the entry named by `path`: the resolution of
    /// all its components but the last, from the root.
    pub open spec fn parent_spec(&self, dev: Seq<Seq<u8>>, path: Seq<u8>) -> Option<Result<ResolutionResult, FSErrorCode>> {
        match resolve_spec(dev, self.directory_handler, self.inode_handler, path_components(path).drop_last(),
            path_is_absolute(path), self.superblock.root_inode, true, 0) {
            Some(Ok(p)) => if p.target_inode.file_type != FileType::Directory {
                Some(Err(FSErrorCode::NotADirectory))
            } else {
                Some(Ok(p))
            },
            other => other,
        }
    }

    /// The entry named by `path`: its parent directory, with the block and
    /// offset of the entry when the parent has one of that name.
    pub open spec fn entry_spec(&self, dev: Seq<Seq<u8>>, path: Seq<u8>)
        -> Option<Result<(ResolutionResult, Option<(u32, int)>), FSErrorCode>> {
        let ds = self.superblock.data_start as int;
        match self.parent_spec(dev, path) {
            None => None,
            Some(Err(c)) => Some(Err(c)),
            Some(Ok(p)) => if !dir_on_device(dev, ds, p.target_inode) {
                None
            } else {
                match search_dir(dev, ds, p.target_inode, true, path_components(path).last(), 0, 0) {
                    None => Some(Ok((p, None))),
                    Some(Ok((blk, off))) => Some(Ok((p, Some((blk, off))))),
                    Some(Err(end)) => Some(Err(walk_code(end))),
                }
            },
        }
    }

    /// What `file_exists` answers for `path`.
    pub open spec fn exists_spec(&self, dev: Seq<Seq<u8>>, path: Seq<u8>) -> Option<Result<(bool, Option<FileType>), FSErrorCode>> {
        let ds = self.superblock.data_start as int;
        match self.entry_spec(dev, path) {
            None => None,
            Some(Err(c)) => Some(Err(c)),
            Some(Ok((_, None))) => Some(Ok((false, None))),
            Some(Ok((_, Some((blk, off))))) => {
                let e = entry_at(dev[ds + blk], off);
                if e.record_len == 0 {
                    Some(Err(FSErrorCode::ZeroLengthDirEntry))
                } else if e.inode == INVALID_ADDRESS {
                    Some(Err(FSErrorCode::DirEntryIsFree))
                } else if e.inode >= self.inode_allocator.spec_max_index() {
                    Some(Err(FSErrorCode::DirEntryINodeOOB))
                } else {
                    Some(Ok((true, Some(e.file_type))))
                }
            },
        }
    }

    /// Finds the entry named by `path`: the resolution of its parent
    /// directory, and the entry with its block and offset when there is one.
    fn find_in_parent<D: BlockDevice>(&self, device: &mut D, path: &str)
        -> (r: FSResult<(ResolutionResult, Option<(DirEntry, u32, usize)>)>)
        requires
            self.wf(),
            self.fits(old(device).blocks().len() as int),
            old(device).inv(),
            names_entry(path.spec_bytes()),
        ensures
            final(device).inv(),
            final(device).blocks() == old(device).blocks(),
            ({
                let dev = old(device).blocks();
                let ds = self.superblock.data_start as int;
                match (self.entry_spec(dev, path.spec_bytes()), r) {
                    (None, _) => true,
                    (Some(Err(c)), r) => r matches Err(e) && (e.is_device_error() || e.spec_code() == c),
                    (Some(Ok((p, loc))), Ok((q, found))) => p == q && match (loc, found) {
                        (None, None) => true,
                        (Some((blk, off)), Some((e, b2, o2))) =>
                            blk == b2 && off == o2 && e == entry_at(dev[ds + blk], off) && o2 < BLOCK_SIZE,
                        _ => false,
                    },
                    (Some(Ok(_)), Err(e)) => e.is_device_error(),
                }
            }),
    {
        let ghost dev = device.blocks();
        proof {
            device.lemma_inv_well_sized();
            self.lemma_on_device(dev);
        }
        let bytes = path.as_bytes();
        let comps = components(bytes);
        let n = comps.len();
        let absolute = bytes.len() > 0 && bytes[0] == SEPARATOR;
        assert(comps.deep_view().take(n - 1) =~= path_components(path.spec_bytes()).drop_last());
        let parent = match self.directory_handler.resolve_from(device, &comps, n - 1, absolute,
            self.superblock.root_inode, &self.inode_handler, true, 0) {
            Ok(p) => p,
            Err(e) => { return Err(e); },
        };
        if parent.target_inode.file_type != FileType::Directory {
            return Err(FSError::NotADirectory { path: path_text(&comps[0].clone()) });
        }
        let name = comps[n - 1].as_slice();
        assert(name@ =~= path_components(path.spec_bytes()).last());
        let found = match self.directory_handler.find_entry(device, &parent.target_inode, name) {
            Ok(f) => f,
            Err(e) => {
                proof {
                    let s = search_dir(dev, self.superblock.data_start as int, parent.target_inode, true, name@, 0, 0);
                    if let Some(Err(end)) = s {
                        if walk_error(end, e) {
                            lemma_walk_code(end, e);
                        }
                    }
                }
                return Err(e);
            },
        };
        proof {
            if found is Some && dir_on_device(dev, self.superblock.data_start as int, parent.target_inode) {
                let t = found->Some_0;
                lemma_entry_at(dev[self.superblock.data_start + t.1], t.2 as int, t.0);
            }
        }
        Ok((parent, found))
    }

    /// Whether `path` names an entry, and then its file type.
    pub fn file_exists<D: BlockDevice>(&mut self, device: &mut D, path: &str) -> (r: FSResult<(bool, Option<FileType>)>)
        requires
            old(self).wf(),
            old(self).fits(old(device).blocks().len() as int),
            old(device).inv(),
            names_entry(path.spec_bytes()),
        ensures
            *final(self) == *old(self),
            final(device).inv(),
            final(device).blocks() == old(device).blocks(),
            outcome_agrees(old(self).exists_spec(old(device).blocks(), path.spec_bytes()), r),
    {
        let ghost dev = device.blocks();
        let (_parent, found) = match self.find_in_parent(device, path) {
            Ok(x) => x,
            Err(e) => { return Err(e); },
        };
        match found {
            None => Ok((false, None)),
            Some((entry, _blk, _off)) => {
                if entry.record_len == 0 {
                    return Err(FSError::InvalidDirEntry(InvalidDirEntryKind::ZeroLength));
                }
                if entry.is_free() {
                    return Err(FSError::InvalidDirEntry(InvalidDirEntryKind::IsFree));
                }
                if entry.inode >= self.inode_allocator.max_index() {
                    return Err(FSError::InvalidDirEntry(InvalidDirEntryKind::INodeOOB));
                }
                Ok((true, Some(entry.file_type)))
            },
        }
    }
}

impl FormatV1 {
    /// The inode that `open_file` opens for `path`.
    pub open spec fn open_spec(&self, dev: Seq<Seq<u8>>, path: Seq<u8>) -> Option<Result<u32, FSErrorCode>> {
        let ds = self.superblock.data_start as int;
        match self.entry_spec(dev, path) {
            None => None,
            Some(Err(c)) => Some(Err(c)),
            Some(Ok((_, None))) => Some(Err(FSErrorCode::FileDoesNotExist)),
            Some(Ok((_, Some((blk, off))))) => {
                let e = entry_at(dev[ds + blk], off);
                if e.record_len == 0 {
                    Some(Err(FSErrorCode::ZeroLengthDirEntry))
                } else if e.inode == INVALID_ADDRESS {
                    Some(Err(FSErrorCode::DirEntryIsFree))
                } else if e.file_type != FileType::File {
                    Some(Err(FSErrorCode::IsADirectory))
                } else {
                    Some(Ok(e.inode))
                }
            },
        }
    }

    /// The next file id, after `id` was given out.
    fn next_file_id_after(id: u32) -> (r: u32)
        ensures
            r == next_id(id),
    {
        if id == u32::MAX { 0 } else { id + 1 }
    }

    /// Opens the regular file named by `path`: a new handle, whose offset
    /// is at the start of the file.
    pub fn open_file<D: BlockDevice>(&mut self, device: &mut D, path: &str) -> (r: FSResult<File>)
        requires
            old(self).wf(),
            old(self).fits(old(device).blocks().len() as int),
            old(device).inv(),
            names_entry(path.spec_bytes()),
        ensures
            final(device).inv(),
            final(device).blocks() == old(device).blocks(),
            final(self).superblock == old(self).superblock,
            final(self).same_layout(&*old(self)),
            final(self).inode_allocator == old(self).inode_allocator,
            final(self).block_allocator == old(self).block_allocator,
            r matches Ok(f) ==> f.id == old(self).next_file_id && final(self).next_file_id == next_id(old(self).next_file_id),
            r matches Ok(f) ==> exists|k: u32| {
                &&& final(self).open_files@ == old(self).open_files@.insert(f.id, #[trigger] fresh_handle(k))
                &&& old(self).open_spec(old(device).blocks(), path.spec_bytes()) is Some
                    ==> old(self).open_spec(old(device).blocks(), path.spec_bytes()) == Some(Ok::<u32, FSErrorCode>(k))
            },
            r is Err ==> *final(self) == *old(self),
            r matches Err(e) ==> ({
                let s = old(self).open_spec(old(device).blocks(), path.spec_bytes());
                e.is_device_error() || s is None || (s matches Some(Err(c)) && e.spec_code() == c)
            }),
    {
        let (_parent, found) = match self.find_in_parent(device, path) {
            Ok(x) => x,
            Err(e) => { return Err(e); },
        };
        let entry = match found {
            None => { return Err(FSError::FileDoesNotExist { path: path.to_string() }); },
            Some((entry, _blk, _off)) => entry,
        };
        if entry.record_len == 0 {
            return Err(FSError::InvalidDirEntry(InvalidDirEntryKind::ZeroLength));
        }
        if entry.is_free() {
            return Err(FSError::InvalidDirEntry(InvalidDirEntryKind::IsFree));
        }
        if entry.file_type != FileType::File {
            return Err(FSError::IsADirectory { path: path.to_string() });
        }
        let id = self.next_file_id;
        self.next_file_id = Self::next_file_id_after(id);
        let metadata = FileMetadata::new(entry.inode);
        self.open_files.insert(id, metadata);
        assert(self.open_files@ == old(self).open_files@.insert(id, fresh_handle(entry.inode)));
        Ok(File { id })
    }

    /// Closes a handle (nothing happens for a handle that is not open).
    pub fn close_file(&mut self, file: &File) -> (r: FSResult<()>)
        ensures
            r is Ok,
            final(self).open_files@ == old(self).open_files@.remove(file.id),
            final(self).superblock == old(self).superblock,
            final(self).inode_allocator == old(self).inode_allocator,
            final(self).block_allocator == old(self).block_allocator,
            final(self).inode_handler == old(self).inode_handler,
            final(self).directory_handler == old(self).directory_handler,
            final(self).next_file_id == old(self).next_file_id,
    {
        self.open_files.remove(&file.id);
        Ok(())
    }

    /// Moves the offset of an open file; returns the new offset. The offset
    /// may go past the end of the file (a write there grows the file).
    pub fn seek<D: BlockDevice>(&mut self, device: &mut D, file: &File, pos: SeekFrom) -> (r: FSResult<u64>)
        requires
            old(self).wf(),
            old(self).fits(old(device).blocks().len() as int),
            old(device).inv(),
        ensures
            final(device).inv(),
            final(device).blocks() == old(device).blocks(),
            !(pos is End) ==> *final(device) == *old(device),
            final(self).superblock == old(self).superblock,
            final(self).inode_allocator == old(self).inode_allocator,
            final(self).block_allocator == old(self).block_allocator,
            final(self).inode_handler == old(self).inode_handler,
            final(self).directory_handler == old(self).directory_handler,
            final(self).next_file_id == old(self).next_file_id,
            !old(self).open_files@.contains_key(file.id) ==> r == Err::<u64, FSError>(FSError::FileNotOpen { file_id: file.id }),
            old(self).open_files@.contains_key(file.id) ==> ({
                let m = old(self).open_files@[file.id];
                let c = m.offset as int;
                let size = inode_at(old(device).blocks(), old(self).superblock.inode_table_start as int, m.inode as int).size as int;
                &&& pos matches SeekFrom::Start(o) ==> r == Ok::<u64, FSError>(o)
                &&& pos matches SeekFrom::Current(d) ==> r == (if c + d < 0 {
                        Ok::<u64, FSError>(0)
                    } else if c + d <= u64::MAX {
                        Ok::<u64, FSError>((c + d) as u64)
                    } else {
                        Err::<u64, FSError>(FSError::InvalidInput(InvalidInputKind::IndexOOB))
                    })
                &&& pos matches SeekFrom::End(d) ==> (r matches Ok(p) ==> p == (if size + d < 0 { 0 } else { size + d }))
                &&& pos matches SeekFrom::End(d) ==> (old(device).reliable() && m.inode < 2 * old(self).superblock.inode_table_blocks ==> r == (if size + d < 0 {
                        Ok::<u64, FSError>(0)
                    } else if size + d <= u64::MAX {
                        Ok::<u64, FSError>((size + d) as u64)
                    } else {
                        Err::<u64, FSError>(FSError::InvalidInput(InvalidInputKind::IndexOOB))
                    }))
                &&& r matches Ok(p) ==> final(self).open_files@.contains_key(file.id) && final(self).open_files@[file.id].offset == p
                    && final(self).open_files@[file.id].inode == m.inode
            }),
            ({
                let m = old(self).open_files@[file.id];
                let t = seek_target(pos, 0, m.offset);
                old(self).open_files@.contains_key(file.id) && !(pos is End) ==> r == (if t <= u64::MAX {
                    Ok::<u64, FSError>(t as u64)
                } else {
                    Err::<u64, FSError>(FSError::InvalidInput(InvalidInputKind::IndexOOB))
                })
            }),
            ({
                let m = old(self).open_files@[file.id];
                let size = inode_at(old(device).blocks(), old(self).superblock.inode_table_start as int, m.inode as int).size;
                let t = seek_target(pos, size, m.offset);
                old(self).open_files@.contains_key(file.id) && pos is End && old(device).reliable()
                    && m.inode < 2 * old(self).superblock.inode_table_blocks ==> r == (if t <= u64::MAX {
                    Ok::<u64, FSError>(t as u64)
                } else {
                    Err::<u64, FSError>(FSError::InvalidInput(InvalidInputKind::IndexOOB))
                }) && final(device).reliable()
            }),
            match r {
                Ok(p) => {
                    let m = old(self).open_files@[file.id];
                    let size = inode_at(old(device).blocks(), old(self).superblock.inode_table_start as int, m.inode as int).size;
                    &&& old(self).open_files@.contains_key(file.id)
                    &&& p == seek_target(pos, size, m.offset)
                    &&& final(self).open_files@ == old(self).open_files@.insert(file.id, FileMetadata { inode: m.inode, offset: p })
                },
                Err(e) => {
                    let m = old(self).open_files@[file.id];
                    let size = inode_at(old(device).blocks(), old(self).superblock.inode_table_start as int, m.inode as int).size;
                    &&& final(self).open_files@ == old(self).open_files@
                    &&& (!old(self).open_files@.contains_key(file.id) || e.is_device_error()
                        || e matches FSError::InvalidInput(InvalidInputKind::INodeIndexOOB { .. })
                        || (e == FSError::InvalidInput(InvalidInputKind::IndexOOB) && seek_target(pos, size, m.offset) > u64::MAX))
                },
            },
    {
        let metadata = match self.open_files.get(&file.id) {
            Some(m) => *m,
            None => { return Err(FSError::FileNotOpen { file_id: file.id }); },
        };
        let target: i128 = match pos {
            SeekFrom::Start(o) => o as i128,
            SeekFrom::End(o) => {
                proof {
                    device.lemma_inv_well_sized();
                    self.lemma_on_device(device.blocks());
                }
                let inode = match self.inode_handler.read_inode(device, metadata.inode) {
                    Ok(n) => n,
                    Err(e) => { return Err(e); },
                };
                inode.size as i128 + o as i128
            },
            SeekFrom::Current(o) => metadata.offset as i128 + o as i128,
        };
        let target = if target < 0 { 0 } else { target };
        if target > u64::MAX as i128 {
            return Err(FSError::InvalidInput(InvalidInputKind::IndexOOB));
        }
        let offset = target as u64;
        self.open_files.insert(file.id, FileMetadata { inode: metadata.inode, offset });
        Ok(offset)
    }

    /// The data bytes that the filesystem can still give to files.
    pub fn free_space(&self) -> (r: FSResult<usize>)
        ensures
            match r {
                Ok(n) => n == self.superblock.free_data * 256,
                Err(e) => e == FSError::InvalidInput(InvalidInputKind::IndexOOB) && self.superblock.free_data * 256 > usize::MAX,
            },
    {
        let n = self.free_data_blocks_count() as u64 * BLOCK_SIZE as u64;
        if n > usize::MAX as u64 {
            return Err(FSError::InvalidInput(InvalidInputKind::IndexOOB));
        }
        Ok(n as usize)
    }
}

impl FormatV1 {
    /// The directory that `path` leads to, from the root.
    pub open spec fn dir_spec(&self, dev: Seq<Seq<u8>>, path: Seq<u8>) -> Option<Result<ResolutionResult, FSErrorCode>> {
        match resolve_path_spec(dev, self.directory_handler, self.inode_handler, path, self.superblock.root_inode, true) {
            Some(Ok(p)) => if p.target_inode.file_type != FileType::Directory {
                Some(Err(FSErrorCode::NotADirectory))
            } else {
                Some(Ok(p))
            },
            other => other,
        }
    }

    /// Reads the directory that `path` leads to: its inode index and its
    /// entries (the free regions too when `include_free` is set), in order.
    pub fn get_directory<D: BlockDevice>(&self, device: &mut D, path: &str, include_free: bool) -> (r: FSResult<Directory>)
        requires
            self.wf(),
            self.fits(old(device).blocks().len() as int),
            old(device).inv(),
        ensures
            final(device).inv(),
            final(device).blocks() == old(device).blocks(),
            ({
                let dev = old(device).blocks();
                let ds = self.superblock.data_start as int;
                let s = self.dir_spec(dev, path.spec_bytes());
                &&& s matches Some(Err(c)) ==> r matches Err(e) && (e.is_device_error() || e.spec_code() == c)
                &&& r matches Ok(d) ==> (s is None || (s matches Some(Ok(p)) && d.inode == p.target_inode_index
                    && (dir_on_device(dev, ds, p.target_inode) ==> {
                        let items = dir_items(dev, ds, p.target_inode, include_free, 0);
                        &&& d.entries@.len() == items.len()
                        &&& forall|i: int| 0 <= i < items.len() ==> parsed_entry(#[trigger] items[i].0, items[i].1, d.entries@[i])
                    })))
                &&& r matches Err(e) ==> (e.is_device_error() || s is None || (s matches Some(Err(c)) && e.spec_code() == c)
                    || (s matches Some(Ok(p)) && (!dir_on_device(dev, ds, p.target_inode)
                        || (search_dir(dev, ds, p.target_inode, false, Seq::empty(), 65536, 0) matches Some(Err(end))
                        && walk_error(end, e)))))
            }),
    {
        let ghost dev = device.blocks();
        proof {
            device.lemma_inv_well_sized();
            self.lemma_on_device(dev);
        }
        let res = match self.directory_handler.resolve(device, path.as_bytes(), self.superblock.root_inode,
            &self.inode_handler, true) {
            Ok(x) => x,
            Err(e) => { return Err(e); },
        };
        if res.target_inode.file_type != FileType::Directory {
            return Err(FSError::NotADirectory { path: path.to_string() });
        }
        let entries = match self.directory_handler.get_entries(device, &res.target_inode, include_free) {
            Ok(v) => v,
            Err(e) => { return Err(e); },
        };
        Ok(Directory { inode: res.target_inode_index, entries, initialized: false })
    }

    /// The listing of the directory that `path` leads to: the name and type of
    /// each used entry, in order. A name that is not valid UTF-8 is reported
    /// as a corrupted entry.
    pub fn get_directory_content<D: BlockDevice>(&self, device: &mut D, path: &str) -> (r: FSResult<DirectoryContentResult>)
        requires
            self.wf(),
            self.fits(old(device).blocks().len() as int),
            old(device).inv(),
        ensures
            final(device).inv(),
            final(device).blocks() == old(device).blocks(),
            ({
                let dev = old(device).blocks();
                let ds = self.superblock.data_start as int;
                let s = self.dir_spec(dev, path.spec_bytes());
                &&& s matches Some(Err(c)) ==> r matches Err(e) && (e.is_device_error() || e.spec_code() == c)
                &&& r matches Ok(c) ==> (s is None || (s matches Some(Ok(p))
                    && (dir_on_device(dev, ds, p.target_inode) ==> {
                        let items = dir_items(dev, ds, p.target_inode, false, 0);
                        &&& c.entries@.len() == items.len()
                        &&& forall|i: int| 0 <= i < items.len() ==>
                            (#[trigger] c.entries@[i]).filename@ == decode_utf8(e_name(items[i].0, items[i].1))
                            && c.entries@[i].file_type == e_type(items[i].0, items[i].1)
                    })))
                &&& r matches Err(e) ==> (e.is_device_error() || s is None || (s matches Some(Err(c)) && e.spec_code() == c)
                    || (s matches Some(Ok(p)) && (!dir_on_device(dev, ds, p.target_inode)
                        || (search_dir(dev, ds, p.target_inode, false, Seq::empty(), 65536, 0) matches Some(Err(end))
                            && walk_error(end, e))
                        || (e == FSError::InvalidDirEntry(InvalidDirEntryKind::Unspecified) && exists|i: int|
                            0 <= i < dir_items(dev, ds, p.target_inode, false, 0).len()
                            && !valid_utf8(e_name(#[trigger] dir_items(dev, ds, p.target_inode, false, 0)[i].0,
                                dir_items(dev, ds, p.target_inode, false, 0)[i].1))))))
            }),
    {
        let ghost dev = device.blocks();
        let ghost sp = self.dir_spec(dev, path.spec_bytes());
        let ghost ds = self.superblock.data_start as int;
        let dir = match self.get_directory(device, path, false) {
            Ok(d) => d,
            Err(e) => { return Err(e); },
        };
        assert(sp is None || sp->Some_0 is Ok);
        let mut entries: Vec<DirectoryContentEntry> = Vec::new();
        let mut i: usize = 0;
        while i < dir.entries.len()
            invariant
                device.inv(),
                device.blocks() == dev,
                dev == old(device).blocks(),
                sp == self.dir_spec(dev, path.spec_bytes()),
                sp is None || sp->Some_0 is Ok,
                ds == self.superblock.data_start,
                sp matches Some(Ok(p)) ==> (dir_on_device(dev, ds, p.target_inode) ==> ({
                    let items = dir_items(dev, ds, p.target_inode, false, 0);
                    &&& dir.entries@.len() == items.len()
                    &&& forall|j: int| 0 <= j < items.len() ==> parsed_entry(#[trigger] items[j].0, items[j].1, dir.entries@[j])
                })),
                0 <= i <= dir.entries@.len(),
                entries@.len() == i,
                forall|k: int| 0 <= k < i ==>
                    (#[trigger] entries@[k]).filename@ == decode_utf8(dir.entries@[k].name@.take(
                        if dir.entries@[k].name_len <= 64 { dir.entries@[k].name_len as int } else { 64 }))
                    && entries@[k].file_type == dir.entries@[k].file_type,
            decreases dir.entries@.len() - i,
        {
            let e = &dir.entries[i];
            let mut name: Vec<u8> = Vec::new();
            let mut k: usize = 0;
            while k < e.name_len as usize && k < 64
                invariant
                    0 <= k <= 64,
                    k <= e.name_len,
                    name@ == e.name@.take(k as int),
                decreases 64 - k,
            {
                name.push(e.name[k]);
                k = k + 1;
                assert(name@ =~= e.name@.take(k as int));
            }
            let ghost nv = name@;
            let filename = match string_from_utf8(name) {
                Some(f) => f,
                None => {
                    proof {
                        if let Some(Ok(p)) = sp {
                            if dir_on_device(dev, ds, p.target_inode) {
                                let items = dir_items(dev, ds, p.target_inode, false, 0);
                                lemma_dir_items_parsable(dev, ds, p.target_inode, false, 0);
                                assert(parsed_entry(items[i as int].0, items[i as int].1, dir.entries@[i as int]));
                                assert(nv =~= e_name(items[i as int].0, items[i as int].1));
                            }
                        }
                    }
                    return Err(FSError::InvalidDirEntry(InvalidDirEntryKind::Unspecified));
                },
            };
            entries.push(DirectoryContentEntry { filename, file_type: e.file_type });
            i = i + 1;
        }
        proof {
            let ds = self.superblock.data_start as int;
            let s = self.dir_spec(dev, path.spec_bytes());
            if s is Some && s->Some_0 is Ok {
                let p = s->Some_0->Ok_0;
                if dir_on_device(dev, ds, p.target_inode) {
                    let items = dir_items(dev, ds, p.target_inode, false, 0);
                    lemma_dir_items_parsable(dev, ds, p.target_inode, false, 0);
                    assert forall|i: int| 0 <= i < items.len() implies
                        (#[trigger] entries@[i]).filename@ == decode_utf8(e_name(items[i].0, items[i].1))
                        && entries@[i].file_type == e_type(items[i].0, items[i].1) by {
                        assert(parsed_entry(items[i].0, items[i].1, dir.entries@[i]));
                        assert(e_parsable(items[i].0, items[i].1));
                        let x = e_name(items[i].0, items[i].1);
                        assert(dir.entries@[i].name@.take(dir.entries@[i].name_len as int) =~= x);
                    }
                }
            }
        }
        Ok(DirectoryContentResult { entries })
    }
}

impl FormatV1 {
    /// Writes the superblock to block 0.
    fn write_superblock<D: BlockDevice>(&self, device: &mut D) -> (r: FSResult<()>)
        requires
            old(device).inv(),
            old(device).blocks().len() >= 1,
        ensures
            final(device).inv(),
            final(device).blocks().len() == old(device).blocks().len(),
            match r {
                Ok(_) => {
                    &&& self.synced(final(device).blocks())
                    &&& forall|k: int| 1 <= k < old(device).blocks().len() ==> #[trigger] final(device).blocks()[k] == old(device).blocks()[k]
                },
                Err(e) => e.is_device_error() && final(device).blocks() == old(device).blocks(),
            },
            old(device).reliable() ==> r is Ok && final(device).reliable(),
    {
        let mut buf = [0u8; BLOCK_SIZE];
        let ghost before = buf@;
        self.superblock.serialize(&mut buf);
        proof {
            lemma_superblock_roundtrip(self.superblock, before);
        }
        device.write_block(0, &buf)
    }

    /// Allocates `inodes` inodes and `data` data blocks: the indices that
    /// `find_free` gives, marked in the bitmaps, taken off the free counters of
    /// the superblock, which is written back. Succeeds only if every
    /// allocation does.
    fn allocate<D: BlockDevice>(&mut self, device: &mut D, inodes: u32, data: u32) -> (r: FSResult<(Vec<u32>, Vec<u32>)>)
        requires
            old(self).wf(),
            old(self).fits(old(device).blocks().len() as int),
            old(device).inv(),
        ensures
            final(device).inv(),
            final(device).blocks().len() == old(device).blocks().len(),
            final(self).wf(),
            final(self).same_layout(&*old(self)),
            final(self).next_file_id == old(self).next_file_id,
            final(self).open_files@ == old(self).open_files@,
            ({
                let dev = old(device).blocks();
                let iscan = old(self).inode_allocator.free_scan(dev);
                let dscan = old(self).block_allocator.free_scan(dev);
                &&& old(self).superblock.free_inodes < inodes ==>
                    r == Err::<(Vec<u32>, Vec<u32>), FSError>(FSError::StorageFull(StorageFullKind::INodeTableFull))
                &&& (old(self).superblock.free_inodes >= inodes && old(self).superblock.free_data < data) ==>
                    r == Err::<(Vec<u32>, Vec<u32>), FSError>(FSError::StorageFull(StorageFullKind::DataRegionFull))
                &&& match r {
                    Ok((i, d)) => {
                        &&& i@ == iscan.take(inodes as int) && d@ == dscan.take(data as int)
                        &&& iscan.len() >= inodes && dscan.len() >= data
                        &&& final(self).superblock.free_inodes == old(self).superblock.free_inodes - inodes
                        &&& final(self).superblock.free_data == old(self).superblock.free_data - data
                        &&& final(self).synced(final(device).blocks())
                        &&& forall|k: int| 1 <= k < dev.len() ==> #[trigger] final(device).blocks()[k]
                            == with_bits(with_bits(dev, old(self).superblock.inode_bitmap_start as int, i@, true),
                                old(self).superblock.block_bitmap_start as int, d@, true)[k]
                    },
                    Err(FSError::StorageFull(StorageFullKind::INodeTableFull)) => {
                        &&& old(self).superblock.free_inodes < inodes || iscan.len() < inodes
                        &&& *final(self) == *old(self) && final(device).blocks() == dev
                    },
                    Err(FSError::StorageFull(StorageFullKind::DataRegionFull)) => {
                        &&& old(self).superblock.free_data < data || dscan.len() < data
                        &&& *final(self) == *old(self) && final(device).blocks() == dev
                    },
                    Err(e) => e.is_device_error(),
                }
            }),
    {
        let ghost dev = device.blocks();
        proof {
            device.lemma_inv_well_sized();
            self.lemma_on_device(dev);
            lemma_free_scan_bounds(self.inode_allocator, dev);
            lemma_free_scan_bounds(self.block_allocator, dev);
        }
        if self.superblock.free_inodes < inodes {
            return Err(FSError::StorageFull(StorageFullKind::INodeTableFull));
        }
        if self.superblock.free_data < data {
            return Err(FSError::StorageFull(StorageFullKind::DataRegionFull));
        }
        let inode_inds = match self.inode_allocator.find_free(device, inodes) {
            Ok(v) => v,
            Err(e) => { return Err(e); },
        };
        let data_inds = match self.block_allocator.find_free(device, data) {
            Ok(v) => v,
            Err(e) => { return Err(e); },
        };
        if inode_inds.len() < inodes as usize {
            return Err(FSError::StorageFull(StorageFullKind::INodeTableFull));
        }
        if data_inds.len() < data as usize {
            return Err(FSError::StorageFull(StorageFullKind::DataRegionFull));
        }
        let ghost iscan = self.inode_allocator.free_scan(dev);
        let ghost dscan = self.block_allocator.free_scan(dev);
        assert(inode_inds@ =~= iscan.take(inodes as int));
        assert(data_inds@ =~= dscan.take(data as int));
        assert forall|m: int| 0 <= m < inode_inds@.len() implies #[trigger] inode_inds@[m] < self.inode_allocator.spec_max_index() by {
            assert(inode_inds@[m] == iscan[m]);
        }
        match self.inode_allocator.allocate(device, &inode_inds) {
            Err(e) => { return Err(e); },
            Ok(_) => {},
        }
        let ghost dev1 = device.blocks();
        proof {
            device.lemma_inv_well_sized();
            self.lemma_on_device(dev1);
        }
        assert forall|m: int| 0 <= m < data_inds@.len() implies #[trigger] data_inds@[m] < self.block_allocator.spec_max_index() by {
            assert(data_inds@[m] == dscan[m]);
        }
        match self.block_allocator.allocate(device, &data_inds) {
            Err(e) => { return Err(e); },
            Ok(_) => {},
        }
        self.superblock.free_data = self.superblock.free_data - data;
        self.superblock.free_inodes = self.superblock.free_inodes - inodes;
        match self.write_superblock(device) {
            Err(e) => { return Err(e); },
            Ok(_) => {},
        }
        Ok((inode_inds, data_inds))
    }
}

impl FormatV1 {
    /// Creates a file of type `file_type` (a regular file or a directory,
    /// which gets `.` and `..`) at `path`, and opens it. The parent directory
    /// gets an entry for it, in one of its blocks, under the last component
    /// of `path` (cut to `MAX_NAME` bytes).
    #[verifier::spinoff_prover]
    #[verifier::rlimit(100)]
    pub fn create_file<D: BlockDevice>(&mut self, device: &mut D, path: &str, file_type: FileType) -> (r: FSResult<File>)
        requires
            old(self).wf(),
            old(self).fits(old(device).blocks().len() as int),
            old(device).inv(),
            names_entry(path.spec_bytes()),
            file_type != FileType::Symlink,
        ensures
            final(device).inv(),
            final(device).blocks().len() == old(device).blocks().len(),
            final(self).wf(),
            final(self).same_layout(&*old(self)),
            file_type == FileType::Unknown ==> {
                &&& r == Err::<File, FSError>(FSError::InvalidInput(InvalidInputKind::UnknownFileType))
                &&& *final(self) == *old(self)
                &&& final(device).blocks() == old(device).blocks()
            },
            file_type != FileType::Unknown ==> (old(self).parent_spec(old(device).blocks(), path.spec_bytes()) matches Some(Err(c))
                ==> r matches Err(e) && (e.is_device_error() || e.spec_code() == c)),
            file_type != FileType::Unknown && old(self).superblock.free_inodes < 1 ==> ({
                let dev = old(device).blocks();
                let ds = old(self).superblock.data_start as int;
                let name = path_components(path.spec_bytes()).last();
                let need = min_rec(if name.len() <= 64 { name.len() as int } else { 64 }) + 12;
                old(self).parent_spec(dev, path.spec_bytes()) matches Some(Ok(p)) ==> (dir_on_device(dev, ds, p.target_inode) ==> ({
                    let s = search_dir(dev, ds, p.target_inode, false, Seq::empty(), need, 0);
                    !(s matches Some(Err(_))) && !(s is None && p.target_inode.blocks >= 12) ==>
                        (r == Err::<File, FSError>(FSError::StorageFull(StorageFullKind::INodeTableFull))
                            || (r matches Err(e) && e.is_device_error()))
                }))
            }),
            file_type != FileType::Unknown && old(self).superblock.free_inodes >= 1 ==> ({
                let dev = old(device).blocks();
                let ds = old(self).superblock.data_start as int;
                let name = path_components(path.spec_bytes()).last();
                let need = min_rec(if name.len() <= 64 { name.len() as int } else { 64 }) + 12;
                let used = if file_type == FileType::Directory { 1int } else { 0int };
                old(self).parent_spec(dev, path.spec_bytes()) matches Some(Ok(p)) ==> (dir_on_device(dev, ds, p.target_inode) ==> ({
                    let s = search_dir(dev, ds, p.target_inode, false, Seq::empty(), need, 0);
                    let needed = used + if s is None { 1int } else { 0int };
                    !(s matches Some(Err(_))) && !(s is None && p.target_inode.blocks >= 12) && old(self).superblock.free_data < needed ==>
                        (r == Err::<File, FSError>(FSError::StorageFull(StorageFullKind::DataRegionFull))
                            || (r matches Err(e) && e.is_device_error()))
                }))
            }),
            match r {
                Ok(f) => {
                    let k = old(self).inode_allocator.free_scan(old(device).blocks())[0];
                    let used = if file_type == FileType::Directory { 1int } else { 0int };
                    &&& f.id == old(self).next_file_id
                    &&& final(self).next_file_id == next_id(old(self).next_file_id)
                    &&& final(self).open_files@ == old(self).open_files@.insert(f.id, fresh_handle(k))
                    &&& final(self).superblock.free_inodes == old(self).superblock.free_inodes - 1
                    &&& !bit_set(old(device).blocks(), old(self).superblock.inode_bitmap_start as int, k as int)
                    &&& bitmaps_covered(old(self).superblock) ==> bits_changed(old(device).blocks(), final(device).blocks(),
                        old(self).superblock, seq![k], old(self).block_allocator.free_scan(old(device).blocks())
                        .take(old(self).superblock.free_data - final(self).superblock.free_data), true)
                    &&& (old(self).superblock.free_data - final(self).superblock.free_data == used
                        || old(self).superblock.free_data - final(self).superblock.free_data == used + 1)
                    &&& final(self).synced(final(device).blocks())
                    &&& old(self).parent_spec(old(device).blocks(), path.spec_bytes()) matches Some(Ok(p)) ==> {
                        let fin = final(device).blocks();
                        let ts = old(self).superblock.inode_table_start as int;
                        let ds = old(self).superblock.data_start as int;
                        let n = inode_at(fin, ts, k as int);
                        &&& dir_on_device(old(device).blocks(), ds, p.target_inode) ==> dir_has_entry(fin, ts, ds,
                            p.target_inode_index, k, file_type, stored_name(path_components(path.spec_bytes()).last()))
                        &&& dir_on_device(old(device).blocks(), ds, p.target_inode) ==> created(old(device).blocks(), fin,
                            old(self).superblock, p.target_inode_index, p.target_inode, k, file_type,
                            path_components(path.spec_bytes()).last())
                        &&& dir_on_device(old(device).blocks(), ds, p.target_inode) ==> ({
                            let name = path_components(path.spec_bytes()).last();
                            let need = min_rec(if name.len() <= 64 { name.len() as int } else { 64 }) + 12;
                            let grew = search_dir(old(device).blocks(), ds, p.target_inode, false, Seq::empty(), need, 0) is None;
                            old(self).superblock.free_data - final(self).superblock.free_data == used + if grew { 1int } else { 0int }
                        })
                        &&& p.target_inode_index != k ==> {
                            &&& n.file_type == file_type
                            &&& n.size == 256 * used && n.blocks == used
                            &&& n.links == 1
                        }
                        &&& (file_type == FileType::Directory && p.target_inode_index != k
                            && dir_on_device(old(device).blocks(), ds, p.target_inode)
                            && !holds_block(p.target_inode, n.direct@[0]))
                            ==> fresh_dir_block(fin[ds + n.direct@[0]], k, p.target_inode_index)
                    }
                },
                Err(_) => final(self).next_file_id == old(self).next_file_id && final(self).open_files@ == old(self).open_files@,
            },
            file_type != FileType::Unknown && create_owed(*old(self), old(device).blocks(), path.spec_bytes(), file_type)
                ==> (r is Ok || (r matches Err(e) && e.is_device_error())),
    {
        let ghost dev0 = device.blocks();
        let ghost ts = self.superblock.inode_table_start as int;
        let ghost ds = self.superblock.data_start as int;
        if file_type == FileType::Unknown {
            return Err(FSError::InvalidInput(InvalidInputKind::UnknownFileType));
        }
        // the parent directory and the new entry
        let (parent, found) = match self.parent_and_name(device, path) {
            Ok(x) => x,
            Err(e) => { return Err(e); },
        };
        let parent_inode_ind = parent.target_inode_index;
        let mut parent_inode = parent.target_inode;
        let mut entry = DirEntry::from_name_bytes(INVALID_ADDRESS, file_type, found.as_slice(), 0);
        proof {
            device.lemma_inv_well_sized();
            self.lemma_on_device(dev0);
        }
        let fit = match self.directory_handler.can_fit(device, &parent_inode, &entry) {
            Ok(f) => f,
            Err(e) => { return Err(e); },
        };
        let ghost pin = parent_inode;
        proof {
            lemma_search_dir_block(dev0, ds, pin, false, Seq::empty(), entry.record_len + 12, 0);
        }
        let grow = fit.is_none();
        if grow && parent_inode.blocks >= 12 {
            return Err(FSError::MaxINodeSize);
        }
        let ghost ok = create_owed(*old(self), dev0, path.spec_bytes(), file_type);

        // allocate the inode and the data blocks
        let file_blocks: u32 = if file_type == FileType::Directory { 1 } else { 0 };
        let data_to_alloc = file_blocks + if grow { 1 } else { 0 };
        let (allocated_inodes, allocated_data) = match self.allocate(device, 1, data_to_alloc) {
            Ok(x) => x,
            Err(e) => { return Err(e); },
        };
        let ghost dev1 = device.blocks();
        let inode_index = allocated_inodes[0];

        // the inode of the new file
        let now = now_secs();
        let mut inode = INode::empty(file_type, u16::MAX, now);
        if file_type == FileType::Directory {
            inode.add_block(allocated_data[0]);
            inode.size = BLOCK_SIZE as u64;
        }
        proof {
            device.lemma_inv_well_sized();
            self.lemma_on_device(dev1);
        }
        assert(inode_index < self.inode_handler.max_inodes()) by {
            lemma_free_scan_bounds(old(self).inode_allocator, dev0);
            assert(allocated_inodes@[0] == old(self).inode_allocator.free_scan(dev0)[0]);
        }
        match self.inode_handler.write_inode(device, inode_index, &inode) {
            Err(e) => { return Err(e); },
            Ok(_) => {},
        }
        let ghost dev2 = device.blocks();
        let ghost mut bytes: Seq<u8> = Seq::empty();
        proof {
            device.lemma_inv_well_sized();
        }
        if file_type == FileType::Directory {
            let new_dir = Directory::new(inode_index, parent_inode_ind);
            proof {
                bytes = super::directory_handler::entries_bytes(new_dir.entries@);
                lemma_fresh_dir_block(new_dir.entries@, inode_index, parent_inode_ind);
            }
            assert(layout(new_dir.entries@, 0, 0) == Ok::<int, LayoutError>(1)) by {
                reveal_with_fuel(layout, 4);
            }
            match self.directory_handler.write_directory_with_inode(device, &new_dir, &inode) {
                Err(e) => { return Err(e); },
                Ok(_) => {},
            }
            proof {
                assert forall|k: int| 0 <= k < self.superblock.data_start implies #[trigger] device.blocks()[k] == dev2[k] by {
                    lemma_write_dir_blocks_frame(dev2, self.superblock.data_start as int, inode.direct@,
                        super::directory_handler::entries_bytes(new_dir.entries@), 1, k);
                }
            }
        }
        let ghost dev3 = device.blocks();
        proof {
            device.lemma_inv_well_sized();
        }

        // the entry in the parent directory
        entry.inode = inode_index;
        let ghost e0 = entry;
        let ghost mut eblk: u32 = 0;
        let ghost mut eoff: int = 0;
        let ghost mut ei: int = 0;
        let ghost mut placed = false;
        let ghost mut wblk: u32 = 0;
        match fit {
            None => {
                let entry_block = allocated_data[file_blocks as usize];
                parent_inode.size = if parent_inode.size <= u64::MAX - BLOCK_SIZE as u64 {
                    parent_inode.size + BLOCK_SIZE as u64
                } else {
                    u64::MAX
                };
                parent_inode.add_block(entry_block);
                match self.directory_handler.add_entry_grow(device, &parent_inode, &entry, entry_block) {
                    Err(e) => { return Err(e); },
                    Ok(_) => {},
                }
                proof {
                    wblk = entry_block;
                    lemma_free_scan_bounds(old(self).block_allocator, dev0);
                    assert(allocated_data@[file_blocks as int] == old(self).block_allocator.free_scan(dev0)[file_blocks as int]);
                    assert(ds + entry_block < dev3.len());
                    law_grown_entry_readable(e0);
                    eblk = entry_block;
                    eoff = 0;
                    ei = pin.blocks as int;
                    assert(device.blocks()[ds + eblk] == grown_block(e0));
                    placed = true;
                    assert(entry_placed(device.blocks(), ds, eblk, eoff, e0));
                    assert(parent_inode.direct@[ei] == eblk && ei < parent_inode.blocks && ei < 12);
                }
            },
            Some((blk, off)) => {
                proof {
                    device.lemma_inv_well_sized();
                }
                assert(ok ==> dev3[ds + blk] == dev0[ds + blk]) by {
                    if ok {
                        lemma_free_scan_bounds(old(self).block_allocator, dev0);
                        assert(allocated_inodes@ =~= seq![inode_index]);
                        if file_type == FileType::Directory {
                            assert(allocated_data@[0] == old(self).block_allocator.free_scan(dev0)[0]);
                            assert(inode.direct@[0] != blk);
                        }
                        lemma_alloc_keeps_data(dev0, dev1, dev2, dev3, old(self).superblock, allocated_data@, inode_index,
                            inode, bytes, file_type, ds + blk);
                    }
                }
                match self.directory_handler.add_entry_here(device, &parent_inode, &mut entry, blk, off) {
                    Err(e) => { return Err(e); },
                    Ok(_) => {},
                }
                proof {
                    wblk = blk;
                    if dir_on_device(dev0, ds, pin) {
                        let i0 = choose|i: int| 0 <= i < pin.blocks && i < 12 && #[trigger] pin.direct@[i] == blk;
                        assert(ds + pin.direct@[i0] < dev0.len());
                        assert(dev3[ds + blk].len() == 256);
                        law_added_entry_readable(dev3[ds + blk], off as int, e0);
                        eblk = blk;
                        eoff = off as int;
                        ei = i0;
                        placed = true;
                        assert(entry_placed(device.blocks(), ds, eblk, eoff, e0));
                        assert(parent_inode.direct@[ei] == eblk && ei < parent_inode.blocks && ei < 12);
                    }
                }
            },
        }
        let ghost dev4 = device.blocks();

        // the parent inode
        parent_inode.modified = now;
        proof {
            device.lemma_inv_well_sized();
            self.lemma_on_device(dev4);
        }
        match self.inode_handler.write_inode(device, parent_inode_ind, &parent_inode) {
            Err(e) => { return Err(e); },
            Ok(_) => {},
        }
        proof {
            lemma_free_scan_bounds(old(self).inode_allocator, dev0);
            lemma_read_after_write_inode(dev1, ts, inode_index as int, inode, inode_index as int);
            assert(dev4[ts + inode_index / 2] == dev2[ts + inode_index / 2]);
            lemma_created(dev4, device.blocks(), ts, ds, parent_inode_ind, parent_inode, inode_index, inode,
                eblk, eoff, ei, e0, placed);
            let fin = device.blocks();
            let sb0 = old(self).superblock;
            assert(bitmaps_covered(sb0) ==> bits_changed(dev0, fin, sb0, seq![inode_index], allocated_data@, true)) by {
                lemma_free_scan_bounds(old(self).block_allocator, dev0);
                assert(allocated_inodes@ =~= seq![inode_index]);
                assert forall|x: int| 0 <= x < dev3.len() && x != ds + wblk implies #[trigger] dev4[x] == dev3[x] by {
                    if grow {
                        assert(dev4 == dev3.update(ds + wblk, grown_block(e0)) || dev4 == dev3);
                    }
                }
                lemma_create_bits(dev0, dev1, dev2, dev3, dev4, fin, sb0, inode_index, allocated_data@, inode, bytes,
                    file_type, wblk, parent_inode_ind, parent_inode);
            }
            let name = path_components(path.spec_bytes()).last();
            assert(placed ==> created(dev0, fin, old(self).superblock, parent_inode_ind, pin, inode_index, file_type, name)
                && (file_type == FileType::Directory && parent_inode_ind != inode_index && !holds_block(pin, inode.direct@[0])
                    ==> fresh_dir_block(fin[ds + inode.direct@[0]], inode_index, parent_inode_ind))) by {
                if placed {
                    lemma_free_scan_bounds(old(self).block_allocator, dev0);
                    assert(allocated_inodes@ =~= seq![inode_index]);
                    if file_type == FileType::Directory && grow {
                        let dscan = old(self).block_allocator.free_scan(dev0);
                        assert(allocated_data@[0] == dscan[0] && allocated_data@[1] == dscan[1]);
                    }
                    lemma_created_placed(dev0, dev1, dev2, dev3, dev4, fin, old(self).superblock, parent_inode_ind,
                        pin, parent_inode, inode_index, inode, file_type, name, allocated_data@, bytes, grow, e0, eblk, eoff, ei);
                }
            }
        }

        // the handle
        let id = self.next_file_id;
        self.next_file_id = Self::next_file_id_after(id);
        let metadata = FileMetadata::new(inode_index);
        self.open_files.insert(id, metadata);
        assert(self.open_files@ == old(self).open_files@.insert(id, fresh_handle(inode_index)));
        Ok(File { id })
    }

    /// The directory that holds the entry named by `path`, and the name of
    /// the entry.
    fn parent_and_name<D: BlockDevice>(&self, device: &mut D, path: &str) -> (r: FSResult<(ResolutionResult, Vec<u8>)>)
        requires
            self.wf(),
            self.fits(old(device).blocks().len() as int),
            old(device).inv(),
            names_entry(path.spec_bytes()),
        ensures
            final(device).inv(),
            final(device).blocks() == old(device).blocks(),
            match (self.parent_spec(old(device).blocks(), path.spec_bytes()), r) {
                (None, _) => true,
                (Some(Err(c)), r) => r matches Err(e) && (e.is_device_error() || e.spec_code() == c),
                (Some(Ok(p)), Ok((q, name))) => p == q && name@ == path_components(path.spec_bytes()).last(),
                (Some(Ok(_)), Err(e)) => e.is_device_error(),
            },
            r matches Ok((p, name)) ==> p.target_inode.file_type == FileType::Directory
                && name@ == path_components(path.spec_bytes()).last(),
    {
        let ghost dev = device.blocks();
        proof {
            device.lemma_inv_well_sized();
            self.lemma_on_device(dev);
        }
        let bytes = path.as_bytes();
        let comps = components(bytes);
        let n = comps.len();
        let absolute = bytes.len() > 0 && bytes[0] == SEPARATOR;
        assert(comps.deep_view().take(n - 1) =~= path_components(path.spec_bytes()).drop_last());
        let parent = match self.directory_handler.resolve_from(device, &comps, n - 1, absolute,
            self.superblock.root_inode, &self.inode_handler, true, 0) {
            Ok(p) => p,
            Err(e) => { return Err(e); },
        };
        if parent.target_inode.file_type != FileType::Directory {
            return Err(FSError::NotADirectory { path: path_text(&comps[0].clone()) });
        }
        let name = comps[n - 1].clone();
        assert(name@ =~= path_components(path.spec_bytes()).last());
        Ok((parent, name))
    }
}

/// What `create_file` needs to succeed: the parent directory resolves, lies
/// in the inode table and on the device, and either has a free region that
/// takes the entry (in a block that the bitmap marks used) or fewer than 12
/// blocks; the free counters and the free bits suffice for the new inode and
/// its blocks; and the bitmaps cover the indices they map.
pub open spec fn create_owed(f: FormatV1, dev: Seq<Seq<u8>>, path: Seq<u8>, ft: FileType) -> bool {
    let ds = f.superblock.data_start as int;
    let name = path_components(path).last();
    let need = min_rec(if name.len() <= 64 { name.len() as int } else { 64 }) + 12;
    let used = if ft == FileType::Directory { 1int } else { 0int };
    f.parent_spec(dev, path) matches Some(Ok(p)) && {
        let s = search_dir(dev, ds, p.target_inode, false, Seq::empty(), need, 0);
        let needed = used + if s is None { 1int } else { 0int };
        &&& p.target_inode_index < 2 * f.superblock.inode_table_blocks
        &&& dir_on_device(dev, ds, p.target_inode)
        &&& match s {
            None => p.target_inode.blocks < 12,
            Some(Ok((blk, off))) => {
                let b = dev[ds + blk];
                &&& e_parsable(b, off) && e_free(b, off) && e_rec(b, off) >= need
                &&& region_fits(b, off, need - 12)
                &&& bit_set(dev, f.superblock.block_bitmap_start as int, blk as int)
            },
            Some(Err(_)) => false,
        }
        &&& f.superblock.free_inodes >= 1 && f.inode_allocator.free_scan(dev).len() >= 1
        &&& f.superblock.free_data >= needed && f.block_allocator.free_scan(dev).len() >= needed
        &&& bitmaps_covered(f.superblock)
    }
}

/// Setting bits in bitmaps that cover their indices, writing the new inode
/// and, for a directory, its first block, leaves every other block of the
/// data region as it was.
proof fn lemma_alloc_keeps_data(dev0: Seq<Seq<u8>>, dev1: Seq<Seq<u8>>, dev2: Seq<Seq<u8>>, dev3: Seq<Seq<u8>>,
    sb: Superblock, data: Seq<u32>, k: u32, inode: INode, bytes: Seq<u8>, t: FileType, x: int)
    requires
        geometry(sb),
        bitmaps_covered(sb),
        sb.total_blocks <= dev0.len(),
        dev1.len() == dev0.len(),
        sb.data_start <= x < dev0.len(),
        k < 2 * sb.inode_table_blocks,
        forall|m: int| 0 <= m < data.len() ==> #[trigger] data[m] < sb.total_blocks - sb.data_start,
        forall|j: int| 1 <= j < dev0.len() ==> #[trigger] dev1[j] == with_bits(with_bits(dev0,
            sb.inode_bitmap_start as int, seq![k], true), sb.block_bitmap_start as int, data, true)[j],
        dev2 == with_inode(dev1, sb.inode_table_start as int, k as int, inode),
        t == FileType::Directory ==> dev3 == write_dir_blocks(dev2, sb.data_start as int, inode.direct@, bytes, 1)
            && x != sb.data_start + inode.direct@[0],
        t != FileType::Directory ==> dev3 == dev2,
    ensures
        dev3[x] == dev0[x],
{
    let bb = sb.block_bitmap_start as int;
    let ib = sb.inode_bitmap_start as int;
    assert(k / 2048 < sb.inode_bitmap_blocks) by (nonlinear_arith)
        requires k < 2 * sb.inode_table_blocks, sb.inode_bitmap_blocks * 2048 >= 2 * sb.inode_table_blocks;
    assert forall|m: int| 0 <= m < seq![k].len() implies ib + #[trigger] seq![k][m] / 2048 != x && ib + seq![k][m] / 2048 < dev0.len() by {
        assert(seq![k][m] == k);
    }
    lemma_with_bits_frame(dev0, ib, seq![k], true, x);
    let mid = with_bits(dev0, ib, seq![k], true);
    assert forall|m: int| 0 <= m < data.len() implies bb + #[trigger] data[m] / 2048 != x && bb + data[m] / 2048 < mid.len() by {
        let d = data[m] as int;
        assert(d / 2048 < sb.block_bitmap_blocks) by (nonlinear_arith)
            requires d < sb.total_blocks - sb.data_start, sb.block_bitmap_blocks * 2048 >= sb.total_blocks - sb.data_start, d >= 0;
    }
    lemma_with_bits_frame(mid, bb, data, true, x);
    assert(dev1[x] == dev0[x]);
    assert(sb.inode_table_start + k / 2 < sb.data_start);
    assert(dev2[x] == dev1[x]);
    if t == FileType::Directory {
        lemma_write_dir_blocks_other(dev2, sb.data_start as int, inode.direct@, bytes, 1, x);
    }
}

/// Data block `b` is one of the direct blocks that inode `n` uses.
#[verifier::opaque]
pub open spec fn holds_block(n: INode, b: u32) -> bool {
    exists|j: int| 0 <= j < n.blocks && j < 12 && #[trigger] n.direct@[j] == b
}

/// The name a directory entry keeps of `name`: its first `MAX_NAME` bytes.
pub open spec fn stored_name(name: Seq<u8>) -> Seq<u8> {
    if name.len() <= 64 { name } else { name.take(64) }
}

/// The entry at offset `off` of data block `blk` names inode `k`, of type
/// `t`, by `name`.
pub open spec fn entry_names(dev: Seq<Seq<u8>>, data_start: int, blk: u32, off: int, k: u32, t: FileType, name: Seq<u8>) -> bool {
    &&& data_start + blk < dev.len()
    &&& e_parsable(dev[data_start + blk], off)
    &&& e_inode(dev[data_start + blk], off) == k
    &&& e_type(dev[data_start + blk], off) == t
    &&& e_name(dev[data_start + blk], off) == name
}

/// The directory in slot `dir` of the inode table has, in one of its blocks,
/// an entry that names inode `k`, of type `t`, by `name`.
pub open spec fn dir_has_entry(dev: Seq<Seq<u8>>, table_start: int, data_start: int, dir: u32, k: u32, t: FileType,
    name: Seq<u8>) -> bool {
    let d = inode_at(dev, table_start, dir as int);
    exists|i: int, off: int| 0 <= i < d.blocks && i < 12 && #[trigger] entry_names(dev, data_start, d.direct@[i], off, k, t, name)
}

/// Both bitmaps of the layout map all their indices inside their own blocks.
pub open spec fn bitmaps_covered(sb: Superblock) -> bool {
    &&& sb.block_bitmap_blocks * 2048 >= sb.total_blocks - sb.data_start
    &&& sb.inode_bitmap_blocks * 2048 >= 2 * sb.inode_table_blocks
}

/// The new entry `e` lies at offset `off` of the `i`-th block of the
/// directory `d` (as written, `pin` before), on the device `fin` that the
/// creation left of `dev`: in a free region of a block the directory had, or
/// at the start of its new block. When the bitmaps cover their indices,
/// every data block that was in use, but that one, is unchanged.
pub open spec fn placed_at(dev: Seq<Seq<u8>>, fin: Seq<Seq<u8>>, sb: Superblock, d: INode, pin: INode, i: int, off: int,
    e: DirEntry) -> bool {
    let ds = sb.data_start as int;
    let bb = sb.block_bitmap_start as int;
    let a = ds + d.direct@[i];
    &&& 0 <= i < d.blocks && i < 12
    &&& bitmaps_covered(sb) ==> forall|x: int| ds <= x < dev.len() && x != a && bit_set(dev, bb, x - ds)
        ==> #[trigger] fin[x] == dev[x]
    &&& i < pin.blocks ==> (bitmaps_covered(sb) && bit_set(dev, bb, d.direct@[i] as int) && a < dev.len() ==> {
        &&& fin[a] == entry_added(dev[a], off, e)
        &&& search_block(dev[a], false, Seq::empty(), e.record_len + 12) == Some(Ok::<int, WalkEnd>(off))
        &&& e_parsable(dev[a], off)
        &&& e_rec(dev[a], off) >= e.record_len + 12
        &&& region_fits(dev[a], off, e.record_len as int)
    })
    &&& i >= pin.blocks ==> off == 0 && e.record_len <= 247 && a < dev.len() && fin[a] == grown_block(e)
}

/// What creating the entry named `name`, for the new inode `k` of type `t`,
/// in the directory `pin` held in slot `pi` leaves on the device: the
/// directory keeps its type and its blocks and gains at most one, which was
/// free, the new entry lies in one of its blocks (see `placed_at`) and, when
/// the bitmaps cover their indices, no other inode slot changes.
pub open spec fn created(dev: Seq<Seq<u8>>, fin: Seq<Seq<u8>>, sb: Superblock, pi: u32, pin: INode, k: u32, t: FileType,
    name: Seq<u8>) -> bool {
    let ts = sb.inode_table_start as int;
    let ds = sb.data_start as int;
    let d = inode_at(fin, ts, pi as int);
    &&& k < 2 * sb.inode_table_blocks
    &&& d.file_type == pin.file_type
    &&& d.blocks == pin.blocks || (d.blocks == pin.blocks + 1 && pin.blocks < 12
        && d.direct@[pin.blocks as int] < sb.total_blocks - sb.data_start
        && !bit_set(dev, sb.block_bitmap_start as int, d.direct@[pin.blocks as int] as int))
    &&& forall|j: int| 0 <= j < pin.blocks && j < 12 ==> #[trigger] d.direct@[j] == pin.direct@[j]
    &&& bitmaps_covered(sb) ==> forall|x: int| 0 <= x < 2 * sb.inode_table_blocks && x != k && x != pi
        ==> #[trigger] inode_at(fin, ts, x) == inode_at(dev, ts, x)
    &&& exists|i: int, off: int, e: DirEntry| {
        &&& e.inode == k && e.file_type == t && e.name_view() == stored_name(name) && e.well_formed()
        &&& #[trigger] placed_at(dev, fin, sb, d, pin, i, off, e)
    }
}

/// The bitmaps of `fin` are those of `dev` with the inodes `inodes` and the
/// data blocks `data` set to `value`, and no other bit changed.
pub open spec fn bits_changed(dev: Seq<Seq<u8>>, fin: Seq<Seq<u8>>, sb: Superblock, inodes: Seq<u32>, data: Seq<u32>,
    value: bool) -> bool {
    let ib = sb.inode_bitmap_start as int;
    let bb = sb.block_bitmap_start as int;
    &&& forall|i: int| 0 <= i < 2 * sb.inode_table_blocks ==> #[trigger] bit_set(fin, ib, i)
        == (if inodes.contains(i as u32) { value } else { bit_set(dev, ib, i) })
    &&& forall|i: int| 0 <= i < sb.total_blocks - sb.data_start ==> #[trigger] bit_set(fin, bb, i)
        == (if data.contains(i as u32) { value } else { bit_set(dev, bb, i) })
}

/// Setting or clearing bits in both bitmaps, when they cover their indices,
/// changes those bits and no other, on any device that keeps the bitmap
/// blocks as written.
proof fn lemma_bits_changed(dev: Seq<Seq<u8>>, fin: Seq<Seq<u8>>, sb: Superblock, inodes: Seq<u32>, data: Seq<u32>,
    value: bool, first_data: bool)
    requires
        geometry(sb),
        bitmaps_covered(sb),
        well_sized(dev),
        sb.total_blocks <= dev.len(),
        fin.len() == dev.len(),
        forall|m: int| 0 <= m < inodes.len() ==> #[trigger] inodes[m] < 2 * sb.inode_table_blocks,
        forall|m: int| 0 <= m < data.len() ==> #[trigger] data[m] < sb.total_blocks - sb.data_start,
        forall|x: int| 1 <= x < sb.inode_table_start ==> #[trigger] fin[x] == (if first_data {
            with_bits(with_bits(dev, sb.block_bitmap_start as int, data, value), sb.inode_bitmap_start as int, inodes, value)
        } else {
            with_bits(with_bits(dev, sb.inode_bitmap_start as int, inodes, value), sb.block_bitmap_start as int, data, value)
        })[x],
    ensures
        bits_changed(dev, fin, sb, inodes, data, value),
{
    let ib = sb.inode_bitmap_start as int;
    let bb = sb.block_bitmap_start as int;
    let ts = sb.inode_table_start as int;
    let len = dev.len();
    assert forall|m: int| 0 <= m < inodes.len() implies ib + #[trigger] inodes[m] / 2048 < bb by {
        assert(inodes[m] / 2048 < sb.inode_bitmap_blocks) by (nonlinear_arith)
            requires
                inodes[m] < 2 * sb.inode_table_blocks,
                sb.inode_bitmap_blocks * 2048 >= 2 * sb.inode_table_blocks;
    }
    assert forall|m: int| 0 <= m < data.len() implies bb + #[trigger] data[m] / 2048 < ts by {
        assert(data[m] / 2048 < sb.block_bitmap_blocks) by (nonlinear_arith)
            requires
                data[m] < sb.total_blocks - sb.data_start,
                sb.block_bitmap_blocks * 2048 >= sb.total_blocks - sb.data_start;
    }
    let wi = with_bits(dev, ib, inodes, value);
    let wb = with_bits(dev, bb, data, value);
    lemma_with_bits_len(dev, ib, inodes, value);
    lemma_with_bits_len(dev, bb, data, value);
    let w = if first_data { with_bits(wb, ib, inodes, value) } else { with_bits(wi, bb, data, value) };
    lemma_with_bits_len(wi, bb, data, value);
    lemma_with_bits_len(wb, ib, inodes, value);
    assert forall|i: int| 0 <= i < 2 * sb.inode_table_blocks implies #[trigger] bit_set(fin, ib, i)
        == (if inodes.contains(i as u32) { value } else { bit_set(dev, ib, i) }) by {
        assert(i / 2048 < sb.inode_bitmap_blocks) by (nonlinear_arith)
            requires
                i < 2 * sb.inode_table_blocks,
                sb.inode_bitmap_blocks * 2048 >= 2 * sb.inode_table_blocks;
        let x = ib + i / 2048;
        assert(fin[x] == w[x]);
        if first_data {
            lemma_with_bits_frame(dev, bb, data, value, x);
            assert forall|j: int| 0 <= j < wb.len() implies #[trigger] wb[j].len() == 256 by {}
            lemma_with_bits(wb, ib, inodes, value, i);
            assert(wb[x] == dev[x]);
        } else {
            lemma_with_bits(dev, ib, inodes, value, i);
            lemma_with_bits_frame(wi, bb, data, value, x);
        }
    }
    assert forall|i: int| 0 <= i < sb.total_blocks - sb.data_start implies #[trigger] bit_set(fin, bb, i)
        == (if data.contains(i as u32) { value } else { bit_set(dev, bb, i) }) by {
        assert(i / 2048 < sb.block_bitmap_blocks) by (nonlinear_arith)
            requires
                i < sb.total_blocks - sb.data_start,
                sb.block_bitmap_blocks * 2048 >= sb.total_blocks - sb.data_start;
        let x = bb + i / 2048;
        assert(fin[x] == w[x]);
        if first_data {
            lemma_with_bits(dev, bb, data, value, i);
            lemma_with_bits_frame(wb, ib, inodes, value, x);
        } else {
            lemma_with_bits_frame(dev, ib, inodes, value, x);
            assert forall|j: int| 0 <= j < wi.len() implies #[trigger] wi[j].len() == 256 by {}
            lemma_with_bits(wi, bb, data, value, i);
            assert(wi[x] == dev[x]);
        }
    }
}

/// Entry `e` can be read at offset `off` of data block `blk`.
pub open spec fn entry_placed(dev: Seq<Seq<u8>>, data_start: int, blk: u32, off: int, e: DirEntry) -> bool {
    &&& data_start + blk < dev.len()
    &&& e_parsable(dev[data_start + blk], off)
    &&& parsed_entry(dev[data_start + blk], off, e)
}

/// The steps of `create_file` leave the device as `created` says.
proof fn lemma_created_placed(dev0: Seq<Seq<u8>>, dev1: Seq<Seq<u8>>, dev2: Seq<Seq<u8>>, dev3: Seq<Seq<u8>>,
    dev4: Seq<Seq<u8>>, fin: Seq<Seq<u8>>, sb: Superblock, pi: u32, pin: INode, pnew: INode, k: u32, inode: INode,
    t: FileType, name: Seq<u8>, data: Seq<u32>, bytes: Seq<u8>, grow: bool, e0: DirEntry, eblk: u32, eoff: int, ei: int)
    requires
        geometry(sb),
        well_sized(dev0),
        well_sized(dev1),
        well_sized(dev2),
        well_sized(dev3),
        well_sized(dev4),
        dev1.len() == dev0.len(),
        dev2.len() == dev0.len(),
        dev3.len() == dev0.len(),
        dev4.len() == dev0.len(),
        sb.total_blocks <= dev0.len(),
        pi < 2 * sb.inode_table_blocks,
        k < 2 * sb.inode_table_blocks,
        forall|x: int| 1 <= x < dev0.len() ==> #[trigger] dev1[x] == with_bits(with_bits(dev0,
            sb.inode_bitmap_start as int, seq![k], true), sb.block_bitmap_start as int, data, true)[x],
        forall|m: int| 0 <= m < data.len() ==> #[trigger] data[m] < sb.total_blocks - sb.data_start
            && !bit_set(dev0, sb.block_bitmap_start as int, data[m] as int),
        data.len() == (if t == FileType::Directory { 1int } else { 0int }) + (if grow { 1int } else { 0int }),
        dev2 == with_inode(dev1, sb.inode_table_start as int, k as int, inode),
        t == FileType::Directory ==> inode.direct@[0] == data[0]
            && dev3 == write_dir_blocks(dev2, sb.data_start as int, inode.direct@, bytes, 1),
        t != FileType::Directory ==> dev3 == dev2,
        e0.inode == k,
        e0.file_type == t,
        e0.name_view() == stored_name(name),
        e0.well_formed(),
        grow ==> {
            &&& eblk == data[data.len() - 1] && eoff == 0 && ei == pin.blocks && pin.blocks < 12
            &&& e0.record_len <= 247
            &&& dev4 == dev3.update(sb.data_start + eblk, grown_block(e0))
            &&& pnew.blocks == pin.blocks + 1 && pnew.direct@[pin.blocks as int] == eblk
        },
        !grow ==> {
            &&& pnew.blocks == pin.blocks && 0 <= ei < pin.blocks && ei < 12 && pin.direct@[ei] == eblk
            &&& search_dir(dev0, sb.data_start as int, pin, false, Seq::empty(), e0.record_len + 12, 0)
                == Some(Ok::<(u32, int), WalkEnd>((eblk, eoff)))
            &&& forall|x: int| 0 <= x < dev3.len() && x != sb.data_start + eblk ==> #[trigger] dev4[x] == dev3[x]
            &&& sb.data_start + eblk < dev3.len() ==> {
                let b = dev3[sb.data_start + eblk];
                &&& e_parsable(b, eoff)
                &&& e_rec(b, eoff) >= e0.record_len + 12
                &&& region_fits(b, eoff, e0.record_len as int)
                &&& dev4 == dev3.update(sb.data_start + eblk, entry_added(b, eoff, e0))
            }
        },
        pnew.file_type == pin.file_type,
        forall|j: int| 0 <= j < pin.blocks && j < 12 ==> #[trigger] pnew.direct@[j] == pin.direct@[j],
        fin == with_inode(dev4, sb.inode_table_start as int, pi as int, pnew),
        t == FileType::Directory && grow ==> data[0] != data[1],
        t == FileType::Directory ==> fresh_dir_block(bytes.subrange(0, 256), k, pi),
    ensures
        created(dev0, fin, sb, pi, pin, k, t, name),
        t == FileType::Directory && pi != k && !holds_block(pin, inode.direct@[0])
            ==> fresh_dir_block(fin[sb.data_start + inode.direct@[0]], k, pi),
{
    if t == FileType::Directory && pi != k && !holds_block(pin, inode.direct@[0]) {
        let d0 = inode.direct@[0];
        let ds = sb.data_start as int;
        assert(sb.inode_table_start + pi / 2 < ds);
        assert(ds + d0 < dev3.len());
        assert(dev3[ds + d0] == bytes.subrange(0, 256)) by {
            reveal_with_fuel(write_dir_blocks, 2);
        }
        if grow {
            assert(eblk != d0);
        } else {
            assert(eblk != d0) by {
                reveal(holds_block);
            }
        }
        assert(dev4[ds + d0] == dev3[ds + d0]);
        assert(fin[ds + d0] == dev4[ds + d0]);
    }
    lemma_created_placed_body(dev0, dev1, dev2, dev3, dev4, fin, sb, pi, pin, pnew, k, inode, t, name, data, bytes,
        grow, e0, eblk, eoff, ei);
}

proof fn lemma_created_placed_body(dev0: Seq<Seq<u8>>, dev1: Seq<Seq<u8>>, dev2: Seq<Seq<u8>>, dev3: Seq<Seq<u8>>,
    dev4: Seq<Seq<u8>>, fin: Seq<Seq<u8>>, sb: Superblock, pi: u32, pin: INode, pnew: INode, k: u32, inode: INode,
    t: FileType, name: Seq<u8>, data: Seq<u32>, bytes: Seq<u8>, grow: bool, e0: DirEntry, eblk: u32, eoff: int, ei: int)
    requires
        geometry(sb),
        well_sized(dev0),
        well_sized(dev1),
        well_sized(dev2),
        well_sized(dev3),
        well_sized(dev4),
        dev1.len() == dev0.len(),
        dev2.len() == dev0.len(),
        dev3.len() == dev0.len(),
        dev4.len() == dev0.len(),
        sb.total_blocks <= dev0.len(),
        pi < 2 * sb.inode_table_blocks,
        k < 2 * sb.inode_table_blocks,
        forall|x: int| 1 <= x < dev0.len() ==> #[trigger] dev1[x] == with_bits(with_bits(dev0,
            sb.inode_bitmap_start as int, seq![k], true), sb.block_bitmap_start as int, data, true)[x],
        forall|m: int| 0 <= m < data.len() ==> #[trigger] data[m] < sb.total_blocks - sb.data_start
            && !bit_set(dev0, sb.block_bitmap_start as int, data[m] as int),
        data.len() == (if t == FileType::Directory { 1int } else { 0int }) + (if grow { 1int } else { 0int }),
        dev2 == with_inode(dev1, sb.inode_table_start as int, k as int, inode),
        t == FileType::Directory ==> inode.direct@[0] == data[0]
            && dev3 == write_dir_blocks(dev2, sb.data_start as int, inode.direct@, bytes, 1),
        t != FileType::Directory ==> dev3 == dev2,
        e0.inode == k,
        e0.file_type == t,
        e0.name_view() == stored_name(name),
        e0.well_formed(),
        grow ==> {
            &&& eblk == data[data.len() - 1] && eoff == 0 && ei == pin.blocks && pin.blocks < 12
            &&& e0.record_len <= 247
            &&& dev4 == dev3.update(sb.data_start + eblk, grown_block(e0))
            &&& pnew.blocks == pin.blocks + 1 && pnew.direct@[pin.blocks as int] == eblk
        },
        !grow ==> {
            &&& pnew.blocks == pin.blocks && 0 <= ei < pin.blocks && ei < 12 && pin.direct@[ei] == eblk
            &&& search_dir(dev0, sb.data_start as int, pin, false, Seq::empty(), e0.record_len + 12, 0)
                == Some(Ok::<(u32, int), WalkEnd>((eblk, eoff)))
            &&& forall|x: int| 0 <= x < dev3.len() && x != sb.data_start + eblk ==> #[trigger] dev4[x] == dev3[x]
            &&& sb.data_start + eblk < dev3.len() ==> {
                let b = dev3[sb.data_start + eblk];
                &&& e_parsable(b, eoff)
                &&& e_rec(b, eoff) >= e0.record_len + 12
                &&& region_fits(b, eoff, e0.record_len as int)
                &&& dev4 == dev3.update(sb.data_start + eblk, entry_added(b, eoff, e0))
            }
        },
        pnew.file_type == pin.file_type,
        forall|j: int| 0 <= j < pin.blocks && j < 12 ==> #[trigger] pnew.direct@[j] == pin.direct@[j],
        fin == with_inode(dev4, sb.inode_table_start as int, pi as int, pnew),
    ensures
        created(dev0, fin, sb, pi, pin, k, t, name),
{
    let ts = sb.inode_table_start as int;
    let ds = sb.data_start as int;
    let ib = sb.inode_bitmap_start as int;
    let bb = sb.block_bitmap_start as int;
    let len = dev0.len();
    let a = ds + eblk;
    let d = inode_at(fin, ts, pi as int);
    assert(ts + pi / 2 < ds);
    assert(ts + k / 2 < ds);
    lemma_read_after_write_inode(dev4, ts, pi as int, pnew, pi as int);
    assert(d == pnew);
    if grow {
        assert(data[data.len() - 1] < sb.total_blocks - sb.data_start);
    }
    // the data blocks in use stay, but for the entry's block
    assert forall|x: int| ds <= x < len && bitmaps_covered(sb) && bit_set(dev0, bb, x - ds) implies #[trigger] dev3[x] == dev0[x] by {
        let mid = with_bits(dev0, ib, seq![k], true);
        assert(k / 2048 < sb.inode_bitmap_blocks) by (nonlinear_arith)
            requires
                k < 2 * sb.inode_table_blocks,
                sb.inode_bitmap_blocks * 2048 >= 2 * sb.inode_table_blocks;
        assert forall|m: int| 0 <= m < 1 implies ib + #[trigger] seq![k][m] / 2048 != x && ib + seq![k][m] / 2048 < len by {
            assert(seq![k][m] == k);
        }
        lemma_with_bits_frame(dev0, ib, seq![k], true, x);
        assert forall|m: int| 0 <= m < data.len() implies bb + #[trigger] data[m] / 2048 != x && bb + data[m] / 2048 < mid.len() by {
            assert(data[m] / 2048 < sb.block_bitmap_blocks) by (nonlinear_arith)
                requires
                    data[m] < sb.total_blocks - sb.data_start,
                    sb.block_bitmap_blocks * 2048 >= sb.total_blocks - sb.data_start;
        }
        lemma_with_bits_frame(mid, bb, data, true, x);
        assert(dev1[x] == dev0[x]);
        assert(dev2[x] == dev1[x]);
        if t == FileType::Directory {
            assert(inode.direct@[0] != x - ds);
            lemma_write_dir_blocks_other(dev2, ds, inode.direct@, bytes, 1, x);
        }
    }
    if bitmaps_covered(sb) {
        assert forall|x: int| ds <= x < len && x != a && bit_set(dev0, bb, x - ds) implies #[trigger] fin[x] == dev0[x] by {
            assert(dev3[x] == dev0[x]);
            assert(fin[x] == dev4[x]);
        }
    }
    if !grow {
        lemma_search_dir_hit(dev0, ds, pin, false, Seq::empty(), e0.record_len + 12, 0);
        if bitmaps_covered(sb) && bit_set(dev0, bb, d.direct@[ei] as int) && a < len {
            assert(dev3[a] == dev0[a]);
            assert(fin[a] == dev4[a]);
        }
    } else {
        assert(fin[a] == dev4[a]);
    }
    if bitmaps_covered(sb) {
        assert forall|x: int| 0 <= x < 2 * sb.inode_table_blocks && x != k && x != pi
            implies #[trigger] inode_at(fin, ts, x) == inode_at(dev0, ts, x) by {
            let bx = ts + x / 2;
            assert(bx < ds);
            lemma_read_after_write_inode(dev4, ts, pi as int, pnew, x);
            lemma_read_after_write_inode(dev1, ts, k as int, inode, x);
            if t == FileType::Directory {
                lemma_write_dir_blocks_frame(dev2, ds, inode.direct@, bytes, 1, bx);
            }
            assert(dev4[bx] == dev2[bx]);
            assert(inode_slot(dev4, ts, x) == inode_slot(dev2, ts, x));
            // the bitmaps lie before the inode table
            let mid = with_bits(dev0, ib, seq![k], true);
            assert(k / 2048 < sb.inode_bitmap_blocks) by (nonlinear_arith)
                requires
                    k < 2 * sb.inode_table_blocks,
                    sb.inode_bitmap_blocks * 2048 >= 2 * sb.inode_table_blocks;
            assert forall|m: int| 0 <= m < 1 implies ib + #[trigger] seq![k][m] / 2048 != bx && ib + seq![k][m] / 2048 < len by {
                assert(seq![k][m] == k);
            }
            lemma_with_bits_frame(dev0, ib, seq![k], true, bx);
            assert forall|m: int| 0 <= m < data.len() implies bb + #[trigger] data[m] / 2048 != bx && bb + data[m] / 2048 < mid.len() by {
                assert(data[m] / 2048 < sb.block_bitmap_blocks) by (nonlinear_arith)
                    requires
                        data[m] < sb.total_blocks - sb.data_start,
                        sb.block_bitmap_blocks * 2048 >= sb.total_blocks - sb.data_start;
            }
            lemma_with_bits_frame(mid, bb, data, true, bx);
            assert(dev1[bx] == dev0[bx]);
            assert(inode_slot(dev1, ts, x) == inode_slot(dev0, ts, x));
        }
    }
    assert(placed_at(dev0, fin, sb, d, pin, ei, eoff, e0));
}

/// Writing the parent directory's inode after placing its new entry, and
/// after writing the new inode in another slot, leaves both readable.
proof fn lemma_created(dev: Seq<Seq<u8>>, fin: Seq<Seq<u8>>, ts: int, ds: int, parent_ind: u32, parent: INode,
    k: u32, n: INode, blk: u32, off: int, i: int, e: DirEntry, placed: bool)
    requires
        0 <= ts,
        ts + parent_ind / 2 < ds,
        ts + k / 2 < ds,
        well_sized(dev),
        ds < dev.len(),
        fin == with_inode(dev, ts, parent_ind as int, parent),
        inode_at(dev, ts, k as int) == n,
        placed ==> entry_placed(dev, ds, blk, off, e) && 0 <= i < parent.blocks && i < 12 && parent.direct@[i] == blk,
    ensures
        placed ==> dir_has_entry(fin, ts, ds, parent_ind, e.inode, e.file_type, e.name_view()),
        parent_ind != k ==> inode_at(fin, ts, k as int) == n,
{
    lemma_read_after_write_inode(dev, ts, parent_ind as int, parent, k as int);
    if placed {
        let b = fin[ds + blk];
        assert(b == dev[ds + blk]);
        assert(e.name_view() =~= e_name(b, off));
        assert(entry_names(fin, ds, blk, off, e.inode, e.file_type, e.name_view()));
        assert(inode_at(fin, ts, parent_ind as int) == parent);
        assert(inode_at(fin, ts, parent_ind as int).direct@[i] == blk);
    }
}

/// The steps of `create_file` change the bitmaps as `bits_changed` says,
/// when they cover their indices.
proof fn lemma_create_bits(dev0: Seq<Seq<u8>>, dev1: Seq<Seq<u8>>, dev2: Seq<Seq<u8>>, dev3: Seq<Seq<u8>>,
    dev4: Seq<Seq<u8>>, fin: Seq<Seq<u8>>, sb: Superblock, k: u32, data: Seq<u32>, inode: INode, bytes: Seq<u8>,
    t: FileType, wblk: u32, pi: u32, pnew: INode)
    requires
        geometry(sb),
        well_sized(dev0),
        sb.total_blocks <= dev0.len(),
        dev1.len() == dev0.len(),
        dev3.len() == dev0.len(),
        dev4.len() == dev0.len(),
        k < 2 * sb.inode_table_blocks,
        pi < 2 * sb.inode_table_blocks,
        forall|m: int| 0 <= m < data.len() ==> #[trigger] data[m] < sb.total_blocks - sb.data_start,
        forall|x: int| 1 <= x < dev0.len() ==> #[trigger] dev1[x] == with_bits(with_bits(dev0,
            sb.inode_bitmap_start as int, seq![k], true), sb.block_bitmap_start as int, data, true)[x],
        dev2 == with_inode(dev1, sb.inode_table_start as int, k as int, inode),
        t == FileType::Directory ==> dev3 == write_dir_blocks(dev2, sb.data_start as int, inode.direct@, bytes, 1),
        t != FileType::Directory ==> dev3 == dev2,
        forall|x: int| 0 <= x < dev3.len() && x != sb.data_start + wblk ==> #[trigger] dev4[x] == dev3[x],
        fin == with_inode(dev4, sb.inode_table_start as int, pi as int, pnew),
    ensures
        bitmaps_covered(sb) ==> bits_changed(dev0, fin, sb, seq![k], data, true),
{
    if bitmaps_covered(sb) {
        let ts = sb.inode_table_start as int;
        let ds = sb.data_start as int;
        assert(ts + pi / 2 < ds);
        assert(ts + k / 2 < ds);
        assert forall|x: int| 1 <= x < ts implies #[trigger] fin[x] == with_bits(with_bits(dev0,
            sb.inode_bitmap_start as int, seq![k], true), sb.block_bitmap_start as int, data, true)[x] by {
            assert(fin[x] == dev4[x]);
            assert(dev4[x] == dev3[x]);
            if t == FileType::Directory {
                lemma_write_dir_blocks_frame(dev2, ds, inode.direct@, bytes, 1, x);
            }
            assert(dev3[x] == dev2[x]);
            assert(dev2[x] == dev1[x]);
        }
        lemma_bits_changed(dev0, fin, sb, seq![k], data, true, false);
    }
}

/// `a + b`, or `u32::MAX` when that does not fit.
pub open spec fn sat_add(a: u32, b: u32) -> u32 {
    if a + b <= u32::MAX { (a + b) as u32 } else { u32::MAX }
}

/// Directory `n` has a used entry that is neither `.` nor `..`.
pub open spec fn dir_not_empty(dev: Seq<Seq<u8>>, data_start: int, n: INode) -> bool {
    let items = dir_items(dev, data_start, n, false, 0);
    exists|i: int| 0 <= i < items.len() && !is_dot_name(e_name(#[trigger] items[i].0, items[i].1))
}

/// A directory is not empty exactly when one of the used entries in its
/// blocks has a name other than `.` and `..`, whatever its type.
pub proof fn law_dir_not_empty(dev: Seq<Seq<u8>>, data_start: int, n: INode)
    ensures
        dir_not_empty(dev, data_start, n) <==> exists|i: int| 0 <= i < dir_items(dev, data_start, n, false, 0).len()
            && e_name(#[trigger] dir_items(dev, data_start, n, false, 0)[i].0, dir_items(dev, data_start, n, false, 0)[i].1) != seq![46u8]
            && e_name(dir_items(dev, data_start, n, false, 0)[i].0, dir_items(dev, data_start, n, false, 0)[i].1) != seq![46u8, 46u8],
{
}

/// The name of a directory entry is `.` or `..`.
pub open spec fn is_dot_name(name: Seq<u8>) -> bool {
    name == seq![46u8] || name == seq![46u8, 46u8]
}

impl FormatV1 {
    /// The entry that `delete_file` removes for `path` and type `ft`, with its
    /// block and offset.
    pub open spec fn delete_spec(&self, dev: Seq<Seq<u8>>, path: Seq<u8>, ft: FileType)
        -> Option<Result<(DirEntry, u32, int), FSErrorCode>> {
        let ds = self.superblock.data_start as int;
        match self.entry_spec(dev, path) {
            None => None,
            Some(Err(c)) => Some(Err(c)),
            Some(Ok((_, None))) => Some(Err(FSErrorCode::DoesNotExist)),
            Some(Ok((_, Some((blk, off))))) => {
                let e = entry_at(dev[ds + blk], off);
                if e.record_len == 0 {
                    Some(Err(FSErrorCode::ZeroLengthDirEntry))
                } else if e.inode == INVALID_ADDRESS {
                    Some(Err(FSErrorCode::DirEntryIsFree))
                } else if e.file_type != ft {
                    Some(Err(if ft == FileType::Directory { FSErrorCode::NotADirectory } else { FSErrorCode::IsADirectory }))
                } else {
                    Some(Ok((e, blk, off)))
                }
            },
        }
    }

    fn sat_add_exec(a: u32, b: u32) -> (r: u32)
        ensures
            r == sat_add(a, b),
    {
        if a <= u32::MAX - b { a + b } else { u32::MAX }
    }

    /// Whether `name` is `.` or `..`.
    fn is_dot_name_exec(e: &DirEntry) -> (r: bool)
        requires
            e.name_len <= 64,
        ensures
            r == is_dot_name(e.name_view()),
    {
        let n = e.name_len;
        if n == 1 && e.name[0] == 46u8 {
            assert(e.name_view() =~= seq![46u8]);
            return true;
        }
        if n == 2 && e.name[0] == 46u8 && e.name[1] == 46u8 {
            assert(e.name_view() =~= seq![46u8, 46u8]);
            return true;
        }
        proof {
            if e.name_view() == seq![46u8] {
                assert(e.name_view().len() == 1 && e.name_view()[0] == 46u8);
            }
            if e.name_view() == seq![46u8, 46u8] {
                assert(e.name_view().len() == 2 && e.name_view()[0] == 46u8 && e.name_view()[1] == 46u8);
            }
        }
        false
    }

    /// Deletes the entry named by `path`, of type `file_type`. A directory must
    /// hold nothing but `.` and `..`. A file with more than one link only
    /// loses one; otherwise its inode and data blocks are freed.
    #[verifier::rlimit(40)]
    pub fn delete_file<D: BlockDevice>(&mut self, device: &mut D, path: &str, file_type: FileType) -> (r: FSResult<()>)
        requires
            old(self).wf(),
            old(self).fits(old(device).blocks().len() as int),
            old(device).inv(),
            names_entry(path.spec_bytes()),
        ensures
            final(device).inv(),
            final(device).blocks().len() == old(device).blocks().len(),
            final(self).wf(),
            final(self).same_layout(&*old(self)),
            final(self).next_file_id == old(self).next_file_id,
            final(self).open_files@ == old(self).open_files@,
            file_type == FileType::Unknown ==> {
                &&& r == Err::<(), FSError>(FSError::InvalidInput(InvalidInputKind::UnknownFileType))
                &&& *final(self) == *old(self)
                &&& final(device).blocks() == old(device).blocks()
            },
            ({
                let dev = old(device).blocks();
                let s = old(self).delete_spec(dev, path.spec_bytes(), file_type);
                &&& file_type != FileType::Unknown && s is Some && s->Some_0 is Err ==> {
                    &&& r matches Err(e) && (e.is_device_error() || e.spec_code() == s->Some_0->Err_0)
                    &&& *final(self) == *old(self)
                    &&& final(device).blocks() == dev
                }
                &&& r is Ok ==> file_type != FileType::Unknown && (s is None || (s matches Some(Ok(t)) && {
                    let n = inode_at(dev, old(self).superblock.inode_table_start as int, t.0.inode as int);
                    if n.links > 1 {
                        &&& final(self).superblock == old(self).superblock
                        &&& final(device).blocks()[0] == dev[0]
                    } else {
                        &&& final(self).synced(final(device).blocks())
                        &&& final(self).superblock.free_inodes == sat_add(old(self).superblock.free_inodes, 1)
                        &&& final(self).superblock.free_data == sat_add(old(self).superblock.free_data, n.blocks)
                    }
                }))
                &&& r matches Err(FSError::DirectoryNotEmpty) ==> *final(self) == *old(self) && final(device).blocks() == dev
                &&& r is Ok ==> (s matches Some(Ok(t)) ==> (old(self).entry_spec(dev, path.spec_bytes()) matches Some(Ok((p, _)))
                    ==> deleted(dev, final(device).blocks(), old(self).superblock, t.0.inode,
                    inode_at(dev, old(self).superblock.inode_table_start as int, t.0.inode as int), t.1, t.2,
                    p.target_inode_index, p.target_inode)))
                &&& file_type == FileType::Directory ==> (s matches Some(Ok(t)) ==> ({
                    let ds = old(self).superblock.data_start as int;
                    let n = inode_at(dev, old(self).superblock.inode_table_start as int, t.0.inode as int);
                    t.0.inode < 2 * old(self).superblock.inode_table_blocks && dir_on_device(dev, ds, n) && dir_clean(dev, ds, n)
                        && dir_not_empty(dev, ds, n)
                        ==> (r == Err::<(), FSError>(FSError::DirectoryNotEmpty) || (r matches Err(e) && e.is_device_error()))
                }))
                &&& file_type == FileType::Directory ==> (s matches Some(Ok(t)) ==> ({
                    let ds = old(self).superblock.data_start as int;
                    let n = inode_at(dev, old(self).superblock.inode_table_start as int, t.0.inode as int);
                    let items = dir_items(dev, ds, n, false, 0);
                    &&& dir_on_device(dev, ds, n) && r is Ok ==> forall|i: int| 0 <= i < items.len() ==>
                        e_name(#[trigger] items[i].0, items[i].1) == seq![46u8]
                        || e_name(items[i].0, items[i].1) == seq![46u8, 46u8]
                    &&& (t.0.inode < 2 * old(self).superblock.inode_table_blocks && dir_on_device(dev, ds, n) && dir_clean(dev, ds, n)
                        && exists|i: int| 0 <= i < items.len() && e_name(#[trigger] items[i].0, items[i].1) != seq![46u8]
                            && e_name(items[i].0, items[i].1) != seq![46u8, 46u8])
                        ==> (r == Err::<(), FSError>(FSError::DirectoryNotEmpty) || (r matches Err(e) && e.is_device_error()))
                }))
                &&& file_type != FileType::Unknown ==> (s matches Some(Ok(t)) ==> (
                    old(self).entry_spec(dev, path.spec_bytes()) matches Some(Ok((p, _))) ==> (
                    delete_owed(*old(self), dev, t, p.target_inode_index, file_type)
                    ==> (r is Ok || (r matches Err(e) && e.is_device_error())))))
            }),
    {
        let ghost dev0 = device.blocks();
        if file_type == FileType::Unknown {
            return Err(FSError::InvalidInput(InvalidInputKind::UnknownFileType));
        }
        let (parent, found) = match self.find_in_parent(device, path) {
            Ok(x) => x,
            Err(e) => { return Err(e); },
        };
        let parent_inode_ind = parent.target_inode_index;
        let mut parent_inode = parent.target_inode;
        let ghost pin = parent_inode;
        let (entry, entry_block, entry_offset) = match found {
            None => { return Err(FSError::DoesNotExist { path: path.to_string() }); },
            Some(t) => t,
        };
        if entry.record_len == 0 {
            return Err(FSError::InvalidDirEntry(InvalidDirEntryKind::ZeroLength));
        }
        if entry.is_free() {
            return Err(FSError::InvalidDirEntry(InvalidDirEntryKind::IsFree));
        }
        if entry.file_type != file_type {
            if file_type == FileType::Directory {
                return Err(FSError::NotADirectory { path: path.to_string() });
            } else {
                return Err(FSError::IsADirectory { path: path.to_string() });
            }
        }
        let ghost sd = self.delete_spec(dev0, path.spec_bytes(), file_type);
        let ghost owed = file_type == FileType::Directory && (sd matches Some(Ok(t)) && ({
            let ds = self.superblock.data_start as int;
            let n = inode_at(dev0, self.superblock.inode_table_start as int, t.0.inode as int);
            t.0.inode < 2 * self.superblock.inode_table_blocks && dir_on_device(dev0, ds, n) && dir_clean(dev0, ds, n)
                && dir_not_empty(dev0, ds, n)
        }));
        assert(sd is None || sd == Some(Ok::<(DirEntry, u32, int), FSErrorCode>((entry, entry_block, entry_offset as int))));
        let ghost ok = sd matches Some(Ok(t)) && delete_owed(*self, dev0, t, parent_inode_ind, file_type);
        assert((sd matches Some(Ok(t)) && (old(self).entry_spec(dev0, path.spec_bytes()) matches Some(Ok((p, _)))
                        && delete_owed(*old(self), dev0, t, p.target_inode_index, file_type))) ==> ok);
        proof {
            device.lemma_inv_well_sized();
            self.lemma_on_device(dev0);
        }
        let mut file_inode = match self.inode_handler.read_inode(device, entry.inode) {
            Ok(n) => n,
            Err(e) => { return Err(e); },
        };

        // a directory must be empty
        if file_type == FileType::Directory {
            let entries = match self.directory_handler.get_entries(device, &file_inode, false) {
                Ok(v) => v,
                Err(e) => { return Err(e); },
            };
            proof {
                if ok {
                    let ds = self.superblock.data_start as int;
                    let items = dir_items(dev0, ds, file_inode, false, 0);
                    lemma_dir_items_parsable(dev0, ds, file_inode, false, 0);
                    assert forall|k: int| 0 <= k < entries@.len() implies
                        (#[trigger] entries@[k]).name_len <= 64 && is_dot_name(entries@[k].name_view()) by {
                        assert(parsed_entry(items[k].0, items[k].1, entries@[k]));
                        assert(entries@[k].name_view() =~= e_name(items[k].0, items[k].1));
                        assert(is_dot_name(e_name(items[k].0, items[k].1)));
                    }
                }
            }
            let mut i: usize = 0;
            while i < entries.len()
                invariant
                    (sd matches Some(Ok(t)) && (old(self).entry_spec(dev0, path.spec_bytes()) matches Some(Ok((p, _)))
                        && delete_owed(*old(self), dev0, t, p.target_inode_index, file_type))) ==> ok,
                    ok ==> forall|k: int| 0 <= k < entries@.len() ==> (#[trigger] entries@[k]).name_len <= 64
                        && is_dot_name(entries@[k].name_view()),
                    0 <= i <= entries@.len(),
                    device.inv(),
                    device.blocks() == dev0,
                    dev0 == old(device).blocks(),
                    *self == *old(self),
                    self.wf(),
                    self.fits(dev0.len() as int),
                    file_type != FileType::Unknown,
                    sd == self.delete_spec(dev0, path.spec_bytes(), file_type),
                    sd is None || sd->Some_0 is Ok,
                    forall|k: int| 0 <= k < i ==> (#[trigger] entries@[k]).name_len <= 64 && is_dot_name(entries@[k].name_view()),
                decreases entries@.len() - i,
            {
                let e = &entries[i];
                if e.name_len > 64 || !Self::is_dot_name_exec(e) {
                    return Err(FSError::DirectoryNotEmpty);
                }
                i = i + 1;
            }
            proof {
                let ds = self.superblock.data_start as int;
                if dir_on_device(dev0, ds, file_inode) {
                    let items = dir_items(dev0, ds, file_inode, false, 0);
                    lemma_dir_items_parsable(dev0, ds, file_inode, false, 0);
                    assert forall|k: int| 0 <= k < items.len() implies is_dot_name(e_name(#[trigger] items[k].0, items[k].1)) by {
                        assert(parsed_entry(items[k].0, items[k].1, entries@[k]));
                        assert(entries@[k].name_view() =~= e_name(items[k].0, items[k].1));
                    }
                }
            }
        }
        assert(!owed);
        let ghost items0 = dir_items(dev0, self.superblock.data_start as int, file_inode, false, 0);
        let ghost dots = file_type == FileType::Directory && dir_on_device(dev0, self.superblock.data_start as int, file_inode)
            ==> forall|k: int| 0 <= k < items0.len() ==> is_dot_name(e_name(#[trigger] items0[k].0, items0[k].1));
        assert(dots);

        // delete
        let ghost n0 = file_inode;
        let ghost mut data_g: Seq<u32> = Seq::empty();
        let ghost mut dev1 = dev0;
        let ghost mut dev2 = dev0;
        let ghost mut nk = file_inode;
        if file_inode.links > 1 {
            // other links remain: one less
            file_inode.links = file_inode.links - 1;
            proof {
                nk = file_inode;
            }
            match self.inode_handler.write_inode(device, entry.inode, &file_inode) {
                Err(e) => { return Err(e); },
                Ok(_) => {},
            }
        } else {
            if file_inode.blocks > 12 {
                return Err(FSError::InvalidINode(InvalidINodeKind::Unspecified));
            }
            let mut data_to_dealloc: Vec<u32> = Vec::new();
            let mut b: u32 = 0;
            while b < file_inode.blocks
                invariant
                    device.inv(),
                    device.blocks() == dev0,
                    dev0 == old(device).blocks(),
                    *self == *old(self),
                    file_inode.blocks <= 12,
                    self.wf(),
                    self.fits(dev0.len() as int),
                    file_type != FileType::Unknown,
                    sd == self.delete_spec(dev0, path.spec_bytes(), file_type),
                    sd is None || sd->Some_0 is Ok,
                    0 <= b <= file_inode.blocks,
                    data_to_dealloc@.len() == b,
                    !(file_type == FileType::Directory && (sd matches Some(Ok(t)) && ({
                        let ds = self.superblock.data_start as int;
                        let n = inode_at(dev0, self.superblock.inode_table_start as int, t.0.inode as int);
                        t.0.inode < 2 * self.superblock.inode_table_blocks && dir_on_device(dev0, ds, n) && dir_clean(dev0, ds, n)
                            && dir_not_empty(dev0, ds, n)
                    }))),
                    forall|m: int| 0 <= m < b ==> #[trigger] data_to_dealloc@[m] < self.block_allocator.spec_max_index(),
                    forall|m: int| 0 <= m < b ==> #[trigger] data_to_dealloc@[m] == file_inode.direct@[m],
                    (sd matches Some(Ok(t)) && (old(self).entry_spec(dev0, path.spec_bytes()) matches Some(Ok((p, _)))
                        && delete_owed(*old(self), dev0, t, p.target_inode_index, file_type))) ==> ok,
                    ok ==> forall|m: int| 0 <= m < file_inode.blocks ==> #[trigger] file_inode.direct@[m] < self.block_allocator.spec_max_index(),
                decreases file_inode.blocks - b,
            {
                let blk = file_inode.direct[b as usize];
                if blk >= self.block_allocator.max_index() {
                    return Err(FSError::InvalidINode(InvalidINodeKind::DirectOOB { ind: b as u16 }));
                }
                data_to_dealloc.push(blk);
                b = b + 1;
            }
            let mut inodes_to_dealloc: Vec<u32> = Vec::new();
            inodes_to_dealloc.push(entry.inode);
            proof {
                device.lemma_inv_well_sized();
                self.lemma_on_device(device.blocks());
            }
            match self.block_allocator.deallocate(device, &data_to_dealloc) {
                Err(e) => { return Err(e); },
                Ok(_) => {},
            }
            proof {
                device.lemma_inv_well_sized();
                self.lemma_on_device(device.blocks());
                data_g = data_to_dealloc@;
                dev1 = device.blocks();
            }
            match self.inode_allocator.deallocate(device, &inodes_to_dealloc) {
                Err(e) => { return Err(e); },
                Ok(_) => {},
            }
            proof {
                dev2 = device.blocks();
            }
            self.superblock.free_data = Self::sat_add_exec(self.superblock.free_data, file_inode.blocks);
            self.superblock.free_inodes = Self::sat_add_exec(self.superblock.free_inodes, 1);
            match self.write_superblock(device) {
                Err(e) => { return Err(e); },
                Ok(_) => {},
            }
        }

        // free the entry in the parent
        let ghost devm = device.blocks();
        assert(ok ==> devm[self.superblock.data_start + entry_block] == dev0[self.superblock.data_start + entry_block]) by {
            if ok {
                let x = self.superblock.data_start + entry_block;
                let ts = self.superblock.inode_table_start as int;
                if n0.links > 1 {
                    assert(ts + entry.inode / 2 < self.superblock.data_start);
                } else {
                    lemma_dealloc_keeps_data(dev0, dev1, dev2, devm, self.superblock, data_g, entry.inode, x);
                }
            }
        }
        match self.directory_handler.free_region(device, &parent_inode, entry_block, entry_offset as u16) {
            Err(e) => { return Err(e); },
            Ok(_) => {},
        }
        let ghost devf = device.blocks();
        proof {
            device.lemma_inv_well_sized();
        }

        // the parent's modification time
        parent_inode.modified = now_secs();
        proof {
            device.lemma_inv_well_sized();
            self.lemma_on_device(device.blocks());
        }
        match self.inode_handler.write_inode(device, parent_inode_ind, &parent_inode) {
            Err(e) => { return Err(e); },
            Ok(_) => {},
        }
        proof {
            if sd is Some {
                lemma_deleted(dev0, dev1, dev2, devm, devf, device.blocks(), old(self).superblock, entry.inode, n0, nk,
                    data_g, entry_block, entry_offset as int, parent_inode_ind, parent_inode, pin);
            }
        }
        Ok(())
    }
}

/// What `delete_file` needs to succeed, once the entry `t` is found in the
/// directory in slot `pi`: both inodes lie in the table, the bitmaps cover
/// their indices, a directory is readable and holds only `.` and `..`, a file
/// that loses its last link has direct blocks only, each a data block, and
/// the entry's record can be freed.
pub open spec fn delete_owed(f: FormatV1, dev: Seq<Seq<u8>>, t: (DirEntry, u32, int), pi: u32, ft: FileType) -> bool {
    let ts = f.superblock.inode_table_start as int;
    let ds = f.superblock.data_start as int;
    let n = inode_at(dev, ts, t.0.inode as int);
    &&& t.0.inode < 2 * f.superblock.inode_table_blocks
    &&& pi < 2 * f.superblock.inode_table_blocks
    &&& bitmaps_covered(f.superblock)
    &&& ft == FileType::Directory ==> dir_on_device(dev, ds, n) && dir_clean(dev, ds, n) && !dir_not_empty(dev, ds, n)
    &&& n.links <= 1 ==> n.blocks <= 12
        && forall|m: int| 0 <= m < n.blocks ==> #[trigger] n.direct@[m] < f.block_allocator.spec_max_index()
    &&& ds + t.1 < dev.len()
    &&& freed_region(dev[ds + t.1], t.2) is Some
}

/// Clearing bits in bitmaps that cover their indices, then rewriting the
/// superblock, leaves the data region as it was.
proof fn lemma_dealloc_keeps_data(dev0: Seq<Seq<u8>>, dev1: Seq<Seq<u8>>, dev2: Seq<Seq<u8>>, devm: Seq<Seq<u8>>,
    sb: Superblock, data: Seq<u32>, k: u32, x: int)
    requires
        geometry(sb),
        bitmaps_covered(sb),
        sb.total_blocks <= dev0.len(),
        sb.data_start <= x < dev0.len(),
        k < 2 * sb.inode_table_blocks,
        forall|m: int| 0 <= m < data.len() ==> #[trigger] data[m] < sb.total_blocks - sb.data_start,
        dev1 == with_bits(dev0, sb.block_bitmap_start as int, data, false),
        dev2 == with_bits(dev1, sb.inode_bitmap_start as int, seq![k], false),
        devm.len() == dev2.len(),
        forall|j: int| 1 <= j < dev2.len() ==> #[trigger] devm[j] == dev2[j],
    ensures
        devm[x] == dev0[x],
{
    let bb = sb.block_bitmap_start as int;
    let ib = sb.inode_bitmap_start as int;
    assert forall|m: int| 0 <= m < data.len() implies bb + #[trigger] data[m] / 2048 != x && bb + data[m] / 2048 < dev0.len() by {
        let d = data[m] as int;
        assert(d / 2048 < sb.block_bitmap_blocks) by (nonlinear_arith)
            requires d < sb.total_blocks - sb.data_start, sb.block_bitmap_blocks * 2048 >= sb.total_blocks - sb.data_start, d >= 0;
    }
    lemma_with_bits_frame(dev0, bb, data, false, x);
    assert(k / 2048 < sb.inode_bitmap_blocks) by (nonlinear_arith)
        requires k < 2 * sb.inode_table_blocks, sb.inode_bitmap_blocks * 2048 >= 2 * sb.inode_table_blocks;
    assert forall|m: int| 0 <= m < seq![k].len() implies ib + #[trigger] seq![k][m] / 2048 != x && ib + seq![k][m] / 2048 < dev1.len() by {
        assert(seq![k][m] == k);
    }
    lemma_with_bits_frame(dev1, ib, seq![k], false, x);
}

/// The steps of `delete_file` leave the device as `deleted` says.
proof fn lemma_deleted(dev0: Seq<Seq<u8>>, dev1: Seq<Seq<u8>>, dev2: Seq<Seq<u8>>, devm: Seq<Seq<u8>>, devf: Seq<Seq<u8>>,
    fin: Seq<Seq<u8>>, sb: Superblock, k: u32, n: INode, nk: INode, data: Seq<u32>, blk: u32, off: int,
    parent: u32, pn: INode, pin: INode)
    requires
        geometry(sb),
        well_sized(dev0),
        sb.total_blocks <= dev0.len(),
        k < 2 * sb.inode_table_blocks,
        parent < 2 * sb.inode_table_blocks,
        n == inode_at(dev0, sb.inode_table_start as int, k as int),
        n.links > 1 ==> devm == with_inode(dev0, sb.inode_table_start as int, k as int, nk),
        n.links <= 1 ==> {
            &&& n.blocks <= 12
            &&& data.len() == n.blocks
            &&& forall|m: int| 0 <= m < n.blocks ==> #[trigger] data[m] == n.direct@[m]
            &&& forall|m: int| 0 <= m < n.blocks ==> #[trigger] data[m] < sb.total_blocks - sb.data_start
            &&& dev1 == with_bits(dev0, sb.block_bitmap_start as int, data, false)
            &&& dev2 == with_bits(dev1, sb.inode_bitmap_start as int, seq![k], false)
            &&& devm.len() == dev2.len()
            &&& forall|j: int| 1 <= j < dev2.len() ==> #[trigger] devm[j] == dev2[j]
        },
        devf.len() == devm.len(),
        forall|j: int| 0 <= j < devm.len() && j != sb.data_start + blk ==> #[trigger] devf[j] == devm[j],
        sb.data_start + blk < devm.len() ==> devf[sb.data_start + blk] == entry_freed(devm[sb.data_start + blk], off)
            && freed_region(devm[sb.data_start + blk], off) is Some,
        fin == with_inode(devf, sb.inode_table_start as int, parent as int, pn),
        pn.file_type == pin.file_type,
        pn.blocks == pin.blocks,
        pn.direct@ == pin.direct@,
        well_sized(devf),
    ensures
        deleted(dev0, fin, sb, k, n, blk, off, parent, pin),
{
    let ds = sb.data_start as int;
    let ts = sb.inode_table_start as int;
    let addr = ds + blk;
    let len = dev0.len();
    let data_covered = sb.block_bitmap_blocks * 2048 >= sb.total_blocks - sb.data_start;
    let inodes_covered = sb.inode_bitmap_blocks * 2048 >= 2 * sb.inode_table_blocks;
    assert(ts + parent / 2 < ds);
    assert(ts + k / 2 < ds);
    // the inode bits lie before the inode table
    assert(sb.inode_bitmap_start + k / 2048 < ds) by (nonlinear_arith)
        requires
            sb.inode_bitmap_start == 1,
            ts >= 1,
            k < 2 * sb.inode_table_blocks,
            ds == ts + sb.inode_table_blocks;
    if n.links > 1 {
        assert(devm.len() == len);
    } else {
        assert forall|m: int| 0 <= m < data.len() implies sb.block_bitmap_start + #[trigger] data[m] / 2048 < len by {
            assert(data[m] / 2048 <= (sb.total_blocks - sb.data_start) / 2048);
        }
        lemma_with_bits_len(dev0, sb.block_bitmap_start as int, data, false);
        lemma_with_bits_len(dev1, sb.inode_bitmap_start as int, seq![k], false);
        assert(devm.len() == len);
    }
    if addr < len && (n.links > 1 || data_covered) {
        if n.links <= 1 {
            assert forall|m: int| 0 <= m < data.len() implies sb.block_bitmap_start + #[trigger] data[m] / 2048 != addr
                && sb.block_bitmap_start + data[m] / 2048 < len by {
                assert(data[m] / 2048 < sb.block_bitmap_blocks) by (nonlinear_arith)
                    requires
                        data[m] < sb.total_blocks - sb.data_start,
                        sb.block_bitmap_blocks * 2048 >= sb.total_blocks - sb.data_start;
            }
            lemma_with_bits_frame(dev0, sb.block_bitmap_start as int, data, false, addr);
            lemma_with_bits_frame(dev1, sb.inode_bitmap_start as int, seq![k], false, addr);
            assert(devm[addr] == dev0[addr]);
        } else {
            assert(devm[addr] == dev0[addr]);
        }
        assert(fin[addr] == devf[addr]);
    }
    lemma_read_after_write_inode(devf, ts, parent as int, pn, parent as int);
    if bitmaps_covered(sb) {
        assert forall|x: int| 0 <= x < 2 * sb.inode_table_blocks && x != k && x != parent
            implies #[trigger] inode_at(fin, ts, x) == inode_at(dev0, ts, x) by {
            let bx = ts + x / 2;
            assert(bx < ds);
            lemma_read_after_write_inode(devf, ts, parent as int, pn, x);
            assert(devf[bx] == devm[bx]);
            assert(inode_slot(devf, ts, x) == inode_slot(devm, ts, x));
            if n.links > 1 {
                lemma_read_after_write_inode(dev0, ts, k as int, nk, x);
            } else {
                let ib = sb.inode_bitmap_start as int;
                let bb = sb.block_bitmap_start as int;
                assert(k / 2048 < sb.inode_bitmap_blocks) by (nonlinear_arith)
                    requires
                        k < 2 * sb.inode_table_blocks,
                        sb.inode_bitmap_blocks * 2048 >= 2 * sb.inode_table_blocks;
                assert forall|m: int| 0 <= m < data.len() implies bb + #[trigger] data[m] / 2048 != bx
                    && bb + data[m] / 2048 < len by {
                    assert(data[m] / 2048 < sb.block_bitmap_blocks) by (nonlinear_arith)
                        requires
                            data[m] < sb.total_blocks - sb.data_start,
                            sb.block_bitmap_blocks * 2048 >= sb.total_blocks - sb.data_start;
                }
                lemma_with_bits_frame(dev0, bb, data, false, bx);
                assert forall|m: int| 0 <= m < 1 implies ib + #[trigger] seq![k][m] / 2048 != bx
                    && ib + seq![k][m] / 2048 < len by {
                    assert(seq![k][m] == k);
                }
                lemma_with_bits_frame(dev1, ib, seq![k], false, bx);
                assert(devm[bx] == dev0[bx]);
                assert(inode_slot(devm, ts, x) == inode_slot(dev0, ts, x));
            }
        }
        let ib = sb.inode_bitmap_start as int;
        let bb = sb.block_bitmap_start as int;
        if n.links > 1 {
            let none = Seq::<u32>::empty();
            assert forall|x: int| 1 <= x < ts implies #[trigger] fin[x] == with_bits(with_bits(dev0, ib, none, false), bb, none, false)[x] by {
                assert(fin[x] == devf[x]);
                assert(devf[x] == devm[x]);
            }
            lemma_bits_changed(dev0, fin, sb, none, none, false, false);
        } else {
            assert(data =~= n.direct@.take(n.blocks as int));
            assert forall|x: int| 1 <= x < ts implies #[trigger] fin[x] == with_bits(with_bits(dev0, bb, data, false), ib, seq![k], false)[x] by {
                assert(fin[x] == devf[x]);
                assert(devf[x] == devm[x]);
                assert(devm[x] == dev2[x]);
            }
            assert forall|m: int| 0 <= m < 1 implies #[trigger] seq![k][m] < 2 * sb.inode_table_blocks by {
                assert(seq![k][m] == k);
            }
            lemma_bits_changed(dev0, fin, sb, seq![k], data, false, true);
        }
    }
    if bitmaps_covered(sb) {
        assert forall|x: int| ds <= x < len && x != addr implies #[trigger] fin[x] == dev0[x] by {
            assert(fin[x] == devf[x]);
            assert(devf[x] == devm[x]);
            if n.links <= 1 {
                let ib = sb.inode_bitmap_start as int;
                let bb = sb.block_bitmap_start as int;
                assert(k / 2048 < sb.inode_bitmap_blocks) by (nonlinear_arith)
                    requires
                        k < 2 * sb.inode_table_blocks,
                        sb.inode_bitmap_blocks * 2048 >= 2 * sb.inode_table_blocks;
                assert forall|m: int| 0 <= m < data.len() implies bb + #[trigger] data[m] / 2048 != x
                    && bb + data[m] / 2048 < len by {
                    assert(data[m] / 2048 < sb.block_bitmap_blocks) by (nonlinear_arith)
                        requires
                            data[m] < sb.total_blocks - sb.data_start,
                            sb.block_bitmap_blocks * 2048 >= sb.total_blocks - sb.data_start;
                }
                lemma_with_bits_frame(dev0, bb, data, false, x);
                assert forall|m: int| 0 <= m < 1 implies ib + #[trigger] seq![k][m] / 2048 != x
                    && ib + seq![k][m] / 2048 < len by {
                    assert(seq![k][m] == k);
                }
                lemma_with_bits_frame(dev1, ib, seq![k], false, x);
            }
        }
    }
    if n.links <= 1 && data_covered && inodes_covered {
        let ib = sb.inode_bitmap_start as int;
        let bb = sb.block_bitmap_start as int;
        // the inode's bit
        assert(k / 2048 < sb.inode_bitmap_blocks) by (nonlinear_arith)
            requires
                k < 2 * sb.inode_table_blocks,
                sb.inode_bitmap_blocks * 2048 >= 2 * sb.inode_table_blocks;
        assert forall|m: int| 0 <= m < data.len() implies bb + #[trigger] data[m] / 2048 < len by {
            assert(data[m] / 2048 <= (sb.total_blocks - sb.data_start) / 2048);
        }
        lemma_with_bits_len(dev0, bb, data, false);
        assert(ib + k / 2048 < bb);
        lemma_with_bits(dev1, ib, seq![k], false, k as int);
        assert(seq![k].contains(k));
        let kb = ib + k / 2048;
        assert(fin[kb] == devf[kb]);
        assert(devf[kb] == devm[kb]);
        assert(devm[kb] == dev2[kb]);
        assert(!bit_set(fin, ib, k as int));
        // the data blocks' bits
        assert forall|m: int| 0 <= m < n.blocks implies !bit_set(fin, bb, #[trigger] n.direct@[m] as int) by {
            let d = data[m];
            assert(d / 2048 < sb.block_bitmap_blocks) by (nonlinear_arith)
                requires
                    d < sb.total_blocks - sb.data_start,
                    sb.block_bitmap_blocks * 2048 >= sb.total_blocks - sb.data_start;
            lemma_with_bits(dev0, bb, data, false, d as int);
            assert(data.contains(d));
            let db = bb + d / 2048;
            lemma_with_bits_frame(dev1, ib, seq![k], false, db);
            assert(dev2[db] == dev1[db]);
            assert(fin[db] == dev2[db]);
        }
    }
}

/// What deleting the entry at offset `off` of data block `blk`, which names
/// the file with inode `n` in slot `k`, from the directory `pin` held in slot
/// `pi` leaves on the device: the entry is freed (merged with free
/// neighbours), the directory keeps its type and blocks, no other data block
/// changes and, for the last link, the inode and its blocks are free in the
/// bitmaps. A bitmap whose bits may lie past its
/// own blocks (more indices than its blocks map) can overlap the blocks
/// written after it: the claims that depend on it are made when it does not.
pub open spec fn deleted(dev: Seq<Seq<u8>>, fin: Seq<Seq<u8>>, sb: Superblock, k: u32, n: INode, blk: u32, off: int,
    pi: u32, pin: INode) -> bool {
    let ds = sb.data_start as int;
    let addr = ds + blk;
    let data_covered = sb.block_bitmap_blocks * 2048 >= sb.total_blocks - sb.data_start;
    let inodes_covered = sb.inode_bitmap_blocks * 2048 >= 2 * sb.inode_table_blocks;
    let d = inode_at(fin, sb.inode_table_start as int, pi as int);
    &&& addr < dev.len() && (n.links > 1 || data_covered) ==> fin[addr] == entry_freed(dev[addr], off)
        && freed_region(dev[addr], off) is Some
    &&& d.file_type == pin.file_type && d.blocks == pin.blocks && d.direct@ == pin.direct@
    &&& bitmaps_covered(sb) ==> forall|x: int| ds <= x < dev.len() && x != addr ==> #[trigger] fin[x] == dev[x]
    &&& bitmaps_covered(sb) ==> forall|x: int| 0 <= x < 2 * sb.inode_table_blocks && x != k && x != pi
        ==> #[trigger] inode_at(fin, sb.inode_table_start as int, x) == inode_at(dev, sb.inode_table_start as int, x)
    &&& bitmaps_covered(sb) ==> bits_changed(dev, fin, sb, if n.links > 1 { Seq::empty() } else { seq![k] },
        if n.links > 1 { Seq::empty() } else { n.direct@.take(n.blocks as int) }, false)
    &&& n.links <= 1 && data_covered && inodes_covered ==> {
        &&& !bit_set(fin, sb.inode_bitmap_start as int, k as int)
        &&& forall|m: int| 0 <= m < n.blocks ==> !bit_set(fin, sb.block_bitmap_start as int, #[trigger] n.direct@[m] as int)
    }
}

/// Byte `pos` of the file with inode `n`: byte `pos % 256` of its data block
/// number `pos / 256` (addressed directly).
pub open spec fn file_byte(dev: Seq<Seq<u8>>, data_start: int, n: INode, pos: int) -> u8 {
    dev[data_start + n.direct@[pos / 256]][pos % 256]
}

/// The data blocks that hold bytes `[from, to)` of the file with inode `n` are
/// addressed directly and lie on the device.
pub open spec fn bytes_on_device(dev: Seq<Seq<u8>>, data_start: int, n: INode, from: int, to: int) -> bool {
    forall|pos: int| from <= pos < to ==> pos / 256 < 12 && #[trigger] (data_start + n.direct@[pos / 256]) < dev.len()
}

/// The bytes a write left in the data region stay readable through an inode
/// with the same direct blocks, on a device whose data region is unchanged.
proof fn lemma_write_frame(fin: Seq<Seq<u8>>, dev: Seq<Seq<u8>>, ds: int, n: INode, w: INode, off0: int, wrote: int,
    buf: Seq<u8>)
    requires
        fin.len() == dev.len(),
        forall|a: int| ds <= a < dev.len() ==> #[trigger] fin[a] == dev[a],
        n.direct@ == w.direct@,
        0 <= ds,
        0 <= off0,
        wrote > 0 ==> off0 + wrote <= 12 * 256,
        bytes_on_device(dev, ds, w, off0, off0 + wrote) && distinct_blocks(w, off0 / 256, (off0 + wrote + 255) / 256) ==>
            forall|j: int| 0 <= j < wrote ==> #[trigger] file_byte(dev, ds, w, off0 + j) == buf[j],
    ensures
        bytes_on_device(fin, ds, n, off0, off0 + wrote) && distinct_blocks(n, off0 / 256, (off0 + wrote + 255) / 256) ==>
            forall|j: int| 0 <= j < wrote ==> #[trigger] file_byte(fin, ds, n, off0 + j) == buf[j],
{
    if bytes_on_device(fin, ds, n, off0, off0 + wrote) && distinct_blocks(n, off0 / 256, (off0 + wrote + 255) / 256) {
        assert forall|pos: int| off0 <= pos < off0 + wrote implies pos / 256 < 12
            && #[trigger] (ds + w.direct@[pos / 256]) < dev.len() by {
            assert(ds + n.direct@[pos / 256] < fin.len());
        }
        assert(bytes_on_device(dev, ds, w, off0, off0 + wrote));
        assert(distinct_blocks(w, off0 / 256, (off0 + wrote + 255) / 256));
        assert forall|j: int| 0 <= j < wrote implies #[trigger] file_byte(fin, ds, n, off0 + j) == buf[j] by {
            assert(file_byte(dev, ds, w, off0 + j) == buf[j]);
            assert(ds + n.direct@[(off0 + j) / 256] < fin.len());
        }
    }
}

/// The number of blocks of a file of `blocks` blocks after a write whose last
/// byte is at `last`: the blocks it lacks are taken from the free indices
/// `free`, as many as there are.
pub open spec fn blocks_after_write(blocks: int, last: int, free: Seq<u32>) -> int {
    if last / 256 >= blocks { blocks + first_n(free, last / 256 - blocks + 1).len() } else { blocks }
}

/// The number of bytes a read of `want` bytes at `offset` gets from a file of
/// `size` bytes.
/// The direct slots `lo..=hi` that inode `n` uses hold data blocks below
/// `max`, that is blocks of the data region.
pub open spec fn slots_in_region(n: INode, lo: int, hi: int, max: u32) -> bool {
    forall|j: int| lo <= j <= hi && 0 <= j < n.blocks && j < 12 ==> #[trigger] n.direct@[j] < max
}

pub open spec fn read_len(want: int, offset: int, size: int) -> int {
    if offset >= size { 0 } else if want <= size - offset { want } else { size - offset }
}

impl FormatV1 {
    /// Reads from an open file, at its offset, as many bytes as fit in `buf`
    /// or remain before the end of the file; moves the offset past them and
    /// returns their number.
    pub fn read<D: BlockDevice>(&mut self, device: &mut D, file: &File, buf: &mut [u8]) -> (r: FSResult<usize>)
        requires
            old(self).wf(),
            old(self).fits(old(device).blocks().len() as int),
            old(device).inv(),
        ensures
            final(device).inv(),
            final(device).blocks() == old(device).blocks(),
            final(self).superblock == old(self).superblock,
            final(self).inode_allocator == old(self).inode_allocator,
            final(self).block_allocator == old(self).block_allocator,
            final(self).inode_handler == old(self).inode_handler,
            final(self).directory_handler == old(self).directory_handler,
            final(self).next_file_id == old(self).next_file_id,
            final(buf)@.len() == old(buf)@.len(),
            !old(self).open_files@.contains_key(file.id) ==> {
                &&& r == Err::<usize, FSError>(FSError::FileNotOpen { file_id: file.id })
                &&& final(self).open_files@ == old(self).open_files@
            },
            old(self).open_files@.contains_key(file.id) ==> ({
                let dev = old(device).blocks();
                let m = old(self).open_files@[file.id];
                let ds = old(self).superblock.data_start as int;
                let n = inode_at(dev, old(self).superblock.inode_table_start as int, m.inode as int);
                let len = read_len(old(buf)@.len() as int, m.offset as int, n.size as int);
                match r {
                    Ok(k) => {
                        &&& k == len
                        &&& final(self).open_files@ == old(self).open_files@.insert(file.id,
                            FileMetadata { inode: m.inode, offset: (m.offset + k) as u64 })
                        &&& forall|j: int| k <= j < old(buf)@.len() ==> #[trigger] final(buf)@[j] == old(buf)@[j]
                        &&& bytes_on_device(dev, ds, n, m.offset as int, m.offset + k) ==>
                            forall|j: int| 0 <= j < k ==> #[trigger] final(buf)@[j] == file_byte(dev, ds, n, m.offset + j)
                    },
                    Err(e) => e.is_device_error() || e is InvalidINode || e is InvalidInput,
                }
            }),
            old(self).open_files@.contains_key(file.id) && old(device).reliable() ==> ({
                let dev = old(device).blocks();
                let m = old(self).open_files@[file.id];
                let n = inode_at(dev, old(self).superblock.inode_table_start as int, m.inode as int);
                let len = read_len(old(buf)@.len() as int, m.offset as int, n.size as int);
                (old(buf)@.len() == 0 || (m.inode < 2 * old(self).superblock.inode_table_blocks && n.size <= 256 * n.blocks
                    && (len == 0 || ((m.offset + len - 1) / 256 < 12
                    && slots_in_region(n, m.offset as int / 256, (m.offset + len - 1) / 256, old(self).block_allocator.spec_max_index())))))
                    ==> r == Ok::<usize, FSError>(len as usize) && final(device).reliable()
            }),
    {
        let ghost dev = device.blocks();
        let metadata = match self.open_files.get(&file.id) {
            Some(m) => *m,
            None => { return Err(FSError::FileNotOpen { file_id: file.id }); },
        };
        if buf.len() == 0 {
            assert(self.open_files@ == old(self).open_files@.insert(file.id, FileMetadata { inode: metadata.inode, offset: metadata.offset }));
            return Ok(0);
        }
        proof {
            device.lemma_inv_well_sized();
            self.lemma_on_device(dev);
        }
        let inode = match self.inode_handler.read_inode(device, metadata.inode) {
            Ok(n) => n,
            Err(e) => { return Err(e); },
        };
        if (inode.blocks as u64) * (BLOCK_SIZE as u64) < inode.size {
            return Err(FSError::InvalidINode(InvalidINodeKind::SizeGreaterThanAllocatedRegion));
        }
        let ghost ds = self.superblock.data_start as int;
        let ghost off0 = metadata.offset as int;
        let ghost len = read_len(buf@.len() as int, off0, inode.size as int);
        let ghost good = old(device).reliable() && (len == 0 || ((off0 + len - 1) / 256 < 12
            && slots_in_region(inode, off0 / 256, (off0 + len - 1) / 256, self.block_allocator.spec_max_index())));
        let mut read: usize = 0;
        let mut offset: u64 = metadata.offset;
        let mut device_buf = [0u8; BLOCK_SIZE];
        let mut failure: Option<FSError> = None;
        while read < buf.len() && offset < inode.size
            invariant_except_break
                failure is None,
            invariant
                device.inv(),
                device.blocks() == dev,
                dev == old(device).blocks(),
                self.wf(),
                self.fits(dev.len() as int),
                *self == *old(self),
                ds == self.superblock.data_start,
                buf@.len() == old(buf)@.len(),
                buf@.len() <= usize::MAX,
                read <= buf@.len(),
                offset == off0 + read,
                off0 < inode.size ==> offset <= inode.size,
                off0 >= inode.size ==> read == 0,
                forall|j: int| read <= j < buf@.len() ==> #[trigger] buf@[j] == old(buf)@[j],
                bytes_on_device(dev, ds, inode, off0, offset as int) ==>
                    forall|j: int| 0 <= j < read ==> #[trigger] buf@[j] == file_byte(dev, ds, inode, off0 + j),
                len == read_len(buf@.len() as int, off0, inode.size as int),
                good == (old(device).reliable() && (len == 0 || ((off0 + len - 1) / 256 < 12
                    && slots_in_region(inode, off0 / 256, (off0 + len - 1) / 256, self.block_allocator.spec_max_index())))),
                good ==> device.reliable(),
                off0 >= 0,
                inode.size <= 256 * inode.blocks,
            ensures
                good ==> failure is None,
                failure is None ==> !(read < buf@.len() && offset < inode.size),
                failure matches Some(e) ==> e.is_device_error() || e is InvalidINode,
            decreases buf@.len() - read,
        {
            let block = offset / (BLOCK_SIZE as u64);
            let in_block = (offset % (BLOCK_SIZE as u64)) as usize;
            assert(good ==> off0 / 256 <= block <= (off0 + len - 1) / 256) by {
                if good {
                    assert(read < len);
                    assert(off0 / 256 <= block <= (off0 + len - 1) / 256) by (nonlinear_arith)
                        requires
                            offset == off0 + read,
                            read < len,
                            off0 >= 0,
                            block == offset / 256;
                }
            }
            if block >= 12 {
                failure = Some(FSError::InvalidINode(InvalidINodeKind::Unspecified));
                break;
            }
            let block_ind = inode.direct[block as usize];
            assert(good ==> block_ind < self.block_allocator.spec_max_index()) by {
                if good {
                    assert(inode.direct@[block as int] == block_ind);
                    assert(block < inode.blocks) by (nonlinear_arith)
                        requires offset < inode.size, inode.size <= 256 * inode.blocks, block == offset / 256;
                }
            }
            if block_ind == INVALID_ADDRESS {
                failure = Some(FSError::InvalidINode(InvalidINodeKind::InvalidDirect { ind: block as u16 }));
                break;
            } else if block_ind > self.block_allocator.max_index() {
                failure = Some(FSError::InvalidINode(InvalidINodeKind::DirectOOB { ind: block as u16 }));
                break;
            }
            let block_address = self.superblock.data_start + block_ind;
            assert(good ==> block_address < dev.len());
            match device.read_block(block_address, &mut device_buf) {
                Err(e) => {
                    failure = Some(e);
                    break;
                },
                Ok(_) => {},
            }
            let mut to_read = BLOCK_SIZE - in_block;
            if to_read > buf.len() - read {
                to_read = buf.len() - read;
            }
            if (to_read as u64) > inode.size - offset {
                to_read = (inode.size - offset) as usize;
            }
            let ghost before = buf@;
            let mut k: usize = 0;
            while k < to_read
                invariant
                    0 <= k <= to_read,
                    buf@.len() <= usize::MAX,
                    in_block + to_read <= BLOCK_SIZE,
                    read + to_read <= buf@.len(),
                    buf@.len() == before.len(),
                    forall|j: int| 0 <= j < read + k ==> #[trigger] buf@[j] == (if j < read { before[j] } else { device_buf@[in_block + j - read] }),
                    forall|j: int| read + k <= j < buf@.len() ==> #[trigger] buf@[j] == before[j],
                decreases to_read - k,
            {
                buf[read + k] = device_buf[in_block + k];
                k = k + 1;
            }
            proof {
                assert forall|j: int| read <= j < read + to_read implies
                    (bytes_on_device(dev, ds, inode, off0, offset + to_read) ==> #[trigger] buf@[j] == file_byte(dev, ds, inode, off0 + j)) by {
                    if bytes_on_device(dev, ds, inode, off0, offset + to_read) {
                        let pos = off0 + j;
                        assert(pos == offset + (j - read));
                        assert(pos / 256 == block) by (nonlinear_arith)
                            requires
                                pos == offset + (j - read),
                                0 <= j - read,
                                j - read < to_read,
                                in_block + to_read <= 256,
                                in_block == offset % 256,
                                block == offset / 256;
                        assert(pos % 256 == in_block + (j - read)) by (nonlinear_arith)
                            requires
                                pos == offset + (j - read),
                                0 <= j - read,
                                j - read < to_read,
                                in_block + to_read <= 256,
                                in_block == offset % 256,
                                block == offset / 256;
                        assert(ds + inode.direct@[pos / 256] < dev.len());
                    }
                }
            }
            offset = offset + to_read as u64;
            read = read + to_read;
        }
        self.open_files.insert(file.id, FileMetadata { inode: metadata.inode, offset });
        match failure {
            Some(e) => Err(e),
            None => {
                proof {
                    let len = read_len(old(buf)@.len() as int, off0, inode.size as int);
                    assert(read == len);
                    assert(inode == inode_at(dev, self.superblock.inode_table_start as int, metadata.inode as int));
                    assert(metadata == old(self).open_files@[file.id]);
                    assert(self.open_files@ == old(self).open_files@.insert(file.id,
                            FileMetadata { inode: metadata.inode, offset: (metadata.offset + read) as u64 }));
                    assert(bytes_on_device(dev, ds, inode, off0, off0 + read) ==>
                            forall|j: int| 0 <= j < read ==> #[trigger] buf@[j] == file_byte(dev, ds, inode, off0 + j));
                }
                Ok(read)
            },
        }
    }
}

/// The directly addressed blocks `lo..hi` of inode `n` are all different.
pub open spec fn distinct_blocks(n: INode, lo: int, hi: int) -> bool {
    forall|a: int, b: int| lo <= a < b < hi ==> #[trigger] n.direct@[a] != #[trigger] n.direct@[b]
}

/// The direct slots `lo..=hi` that inode `n` already uses hold data block
/// addresses: neither `INVALID_ADDRESS` nor past `max`.
pub open spec fn slots_valid(n: INode, lo: int, hi: int, max: u32) -> bool {
    forall|j: int| lo <= j <= hi && 0 <= j < n.blocks && j < 12
        ==> #[trigger] n.direct@[j] != INVALID_ADDRESS && n.direct@[j] <= max
}

impl FormatV1 {
    /// Writes `buf` to an open file at its offset, growing the file (with new
    /// blocks, zeroed first) when the write goes past its blocks; moves the
    /// offset past the bytes written and returns their number. Fewer bytes
    /// than `buf` holds are written only when not enough blocks are free.
    pub fn write<D: BlockDevice>(&mut self, device: &mut D, file: &File, buf: &[u8]) -> (r: FSResult<usize>)
        requires
            old(self).wf(),
            old(self).fits(old(device).blocks().len() as int),
            old(device).inv(),
        ensures
            final(device).inv(),
            final(device).blocks().len() == old(device).blocks().len(),
            final(self).wf(),
            final(self).same_layout(&*old(self)),
            final(self).next_file_id == old(self).next_file_id,
            final(self).superblock.free_inodes == old(self).superblock.free_inodes,
            final(self).superblock.free_data <= old(self).superblock.free_data,
            !old(self).open_files@.contains_key(file.id) ==> {
                &&& r == Err::<usize, FSError>(FSError::FileNotOpen { file_id: file.id })
                &&& *final(self) == *old(self)
                &&& final(device).blocks() == old(device).blocks()
            },
            old(self).open_files@.contains_key(file.id) ==> ({
                let m = old(self).open_files@[file.id];
                let ds = old(self).superblock.data_start as int;
                let fin = final(device).blocks();
                let n = inode_at(fin, old(self).superblock.inode_table_start as int, m.inode as int);
                let n0 = inode_at(old(device).blocks(), old(self).superblock.inode_table_start as int, m.inode as int);
                let last = m.offset + buf@.len() - 1;
                let in_table = m.inode < 2 * old(self).superblock.inode_table_blocks;
                &&& buf@.len() == 0 ==> r == Ok::<usize, FSError>(0) && final(device).blocks() == old(device).blocks()
                &&& buf@.len() > 0 && !in_table ==> (r matches Err(FSError::InvalidInput(InvalidInputKind::INodeIndexOOB { .. })))
                &&& buf@.len() > 0 && in_table && last > u64::MAX ==> (r == Err::<usize, FSError>(FSError::InvalidInput(InvalidInputKind::IndexOOB))
                    || (r matches Err(e) && e.is_device_error()))
                &&& (r == Err::<usize, FSError>(FSError::MaxINodeSize)) ==> buf@.len() > 0 && last <= u64::MAX && last / 256 >= 12 && last / 256 >= n0.blocks
                &&& buf@.len() > 0 && in_table && last <= u64::MAX && last / 256 >= 12 && last / 256 >= n0.blocks ==>
                    (r == Err::<usize, FSError>(FSError::MaxINodeSize) || (r matches Err(e) && e.is_device_error()))
                &&& buf@.len() > 0 && in_table && last <= u64::MAX && last / 256 < 12
                    && slots_valid(n0, m.offset as int / 256, last / 256, old(self).block_allocator.spec_max_index())
                    ==> (r is Ok || (r matches Err(e) && e.is_device_error()))
                &&& match r {
                    Ok(k) => {
                        &&& k == read_len(buf@.len() as int, m.offset as int, 256 * blocks_after_write(n0.blocks as int, last,
                            old(self).block_allocator.free_scan(old(device).blocks())))
                        &&& final(self).open_files@ == old(self).open_files@.insert(file.id,
                            FileMetadata { inode: m.inode, offset: (m.offset + k) as u64 })
                        &&& (buf@.len() > 0 ==> n.size >= m.offset + k)
                        &&& (buf@.len() > 0 ==> n.size == (if m.offset + k > n0.size { m.offset + k } else { n0.size as int }))
                        &&& bytes_on_device(fin, ds, n, m.offset as int, m.offset + k)
                            && distinct_blocks(n, m.offset as int / 256, (m.offset + k + 255) / 256) ==>
                            forall|j: int| 0 <= j < k ==> #[trigger] file_byte(fin, ds, n, m.offset + j) == buf@[j]
                    },
                    Err(e) => e.is_device_error() || e is InvalidINode || e is InvalidInput || e is MaxINodeSize,
                }
            }),
            old(self).open_files@.contains_key(file.id) && old(device).reliable() ==> ({
                let m = old(self).open_files@[file.id];
                let n0 = inode_at(old(device).blocks(), old(self).superblock.inode_table_start as int, m.inode as int);
                let last = m.offset + buf@.len() - 1;
                buf@.len() > 0 && m.inode < 2 * old(self).superblock.inode_table_blocks && last <= u64::MAX && last / 256 < 12
                    && slots_in_region(n0, m.offset as int / 256, last / 256, old(self).block_allocator.spec_max_index())
                    ==> r is Ok && final(device).reliable()
            }),
    {
        let metadata = match self.open_files.get(&file.id) {
            Some(m) => *m,
            None => { return Err(FSError::FileNotOpen { file_id: file.id }); },
        };
        if buf.len() == 0 {
            assert(self.open_files@ == old(self).open_files@.insert(file.id, FileMetadata { inode: metadata.inode, offset: metadata.offset }));
            return Ok(0);
        }
        let ghost dev0 = device.blocks();
        proof {
            device.lemma_inv_well_sized();
            self.lemma_on_device(dev0);
        }
        let mut inode = match self.inode_handler.read_inode(device, metadata.inode) {
            Ok(n) => n,
            Err(e) => { return Err(e); },
        };
        let ghost ds = self.superblock.data_start as int;
        let ghost off0 = metadata.offset as int;
        let last_byte = match metadata.offset.checked_add(buf.len() as u64 - 1) {
            Some(x) => x,
            None => { return Err(FSError::InvalidInput(InvalidInputKind::IndexOOB)); },
        };
        let final_block = last_byte / (BLOCK_SIZE as u64);
        let ghost n0 = inode_at(dev0, self.superblock.inode_table_start as int, metadata.inode as int);
        let ghost last = off0 + buf@.len() - 1;
        assert(n0 == inode && last == last_byte && final_block == last / 256);
        let ghost valid = last / 256 < 12 && slots_valid(n0, off0 / 256, last / 256, self.block_allocator.spec_max_index());
        let ghost maxi = self.block_allocator.spec_max_index();
        let ghost good = old(device).reliable() && last / 256 < 12 && slots_in_region(n0, off0 / 256, last / 256, maxi);
        assert(good ==> valid);

        // grow the file if the write goes past its blocks
        let mut allocated = false;
        if final_block >= inode.blocks as u64 {
            allocated = true;
            if final_block >= 12 {
                return Err(FSError::MaxINodeSize);
            }
            let to_alloc = (final_block - inode.blocks as u64 + 1) as u32;
            let data_inds = match self.block_allocator.find_free(device, to_alloc) {
                Ok(v) => v,
                Err(e) => { return Err(e); },
            };
            proof {
                lemma_free_scan_bounds(self.block_allocator, dev0);
                assert forall|m: int| 0 <= m < data_inds@.len() implies #[trigger] data_inds@[m] < self.block_allocator.spec_max_index() by {
                    assert(data_inds@[m] == self.block_allocator.free_scan(dev0)[m]);
                }
            }
            match self.block_allocator.allocate(device, &data_inds) {
                Err(e) => { return Err(e); },
                Ok(_) => {},
            }
            let first = inode.blocks as usize;
            let mut t: usize = 0;
            while t < data_inds.len()
                invariant
                    first + data_inds@.len() <= 12,
                    0 <= t <= data_inds@.len(),
                    inode.blocks == first,
                    inode.size == n0.size,
                    first == n0.blocks,
                    forall|j: int| 0 <= j < first ==> #[trigger] inode.direct@[j] == n0.direct@[j],
                    forall|m: int| 0 <= m < data_inds@.len() ==> #[trigger] data_inds@[m] < self.block_allocator.spec_max_index(),
                    forall|m: int| 0 <= m < t ==> #[trigger] inode.direct@[first + m] == data_inds@[m],
                decreases data_inds@.len() - t,
            {
                inode.direct[first + t] = data_inds[t];
                t = t + 1;
            }
            // zero the new blocks, since a later write may fail
            let zeros = [0u8; BLOCK_SIZE];
            let mut t: usize = 0;
            while t < data_inds.len()
                invariant
                    0 <= t <= data_inds@.len(),
                    device.inv(),
                    device.blocks().len() == dev0.len(),
                    dev0.len() == old(device).blocks().len(),
                    self.wf(),
                    self.same_layout(&*old(self)),
                    self.next_file_id == old(self).next_file_id,
                    self.superblock == old(self).superblock,
                    old(self).open_files@.contains_key(file.id),
                    forall|m: int| 0 <= m < data_inds@.len() ==> #[trigger] data_inds@[m] < self.block_allocator.spec_max_index(),
                    dev0 == old(device).blocks(),
                    metadata == old(self).open_files@[file.id],
                    n0 == inode_at(dev0, old(self).superblock.inode_table_start as int, metadata.inode as int),
                    last == off0 + buf@.len() - 1,
                    off0 == metadata.offset,
                    !(last / 256 >= 12 && last / 256 >= n0.blocks),
                    buf@.len() > 0,
                    metadata.inode < 2 * old(self).superblock.inode_table_blocks,
                    valid ==> buf@.len() > 0,
                    good ==> device.reliable(),
                    good == (old(device).reliable() && last / 256 < 12 && slots_in_region(n0, off0 / 256, last / 256, maxi)),
                    maxi == old(self).block_allocator.spec_max_index(),
                    self.fits(dev0.len() as int),
                decreases data_inds@.len() - t,
            {
                let block_address = self.superblock.data_start + data_inds[t];
                match device.write_block(block_address, &zeros) {
                    Err(e) => { return Err(e); },
                    Ok(_) => {},
                }
                t = t + 1;
            }
            inode.blocks = inode.blocks + data_inds.len() as u32;
            assert forall|j: int| 0 <= j < inode.blocks && j < 12 implies
                (j < n0.blocks ==> #[trigger] inode.direct@[j] == n0.direct@[j]) && (j >= n0.blocks ==> inode.direct@[j] < maxi) by {
                if j >= n0.blocks {
                    assert(inode.direct@[first + (j - first)] == data_inds@[j - first]);
                }
            }
            let n = data_inds.len() as u32;
            self.superblock.free_data = if self.superblock.free_data >= n { self.superblock.free_data - n } else { 0 };
        }
        let ghost dev1 = device.blocks();
        let ghost bw = inode.blocks as int;
        assert(bw == blocks_after_write(n0.blocks as int, last, old(self).block_allocator.free_scan(dev0)));
        assert(good ==> forall|j: int| off0 / 256 <= j <= last / 256 && 0 <= j < bw && j < 12
            ==> #[trigger] inode.direct@[j] < maxi) by {
            if good {
                assert forall|j: int| off0 / 256 <= j <= last / 256 && 0 <= j < bw && j < 12
                    implies #[trigger] inode.direct@[j] < maxi by {
                    if j < n0.blocks {
                        assert(inode.direct@[j] == n0.direct@[j]);
                    }
                }
            }
        }
        assert(valid ==> forall|j: int| off0 / 256 <= j <= last / 256 && 0 <= j < bw && j < 12
            ==> #[trigger] inode.direct@[j] != INVALID_ADDRESS && inode.direct@[j] <= maxi) by {
            if valid {
                assert forall|j: int| off0 / 256 <= j <= last / 256 && 0 <= j < bw && j < 12
                    implies #[trigger] inode.direct@[j] != INVALID_ADDRESS && inode.direct@[j] <= maxi by {
                    if j < n0.blocks {
                        assert(inode.direct@[j] == n0.direct@[j]);
                    }
                }
            }
        }

        // write block after block
        let mut wrote: usize = 0;
        let mut offset: u64 = metadata.offset;
        let mut device_buf = [0u8; BLOCK_SIZE];
        while wrote < buf.len() && offset / (BLOCK_SIZE as u64) < inode.blocks as u64
            invariant
                device.inv(),
                device.blocks().len() == dev0.len(),
                dev0.len() == old(device).blocks().len(),
                self.wf(),
                self.fits(dev0.len() as int),
                self.same_layout(&*old(self)),
                self.next_file_id == old(self).next_file_id,
                self.superblock.free_inodes == old(self).superblock.free_inodes,
                self.superblock.free_data <= old(self).superblock.free_data,
                old(self).open_files@.contains_key(file.id),
                metadata == old(self).open_files@[file.id],
                self.open_files@ == old(self).open_files@,
                ds == self.superblock.data_start,
                wrote > 0 ==> (offset % 256 == 0 || wrote == buf@.len()),
                buf@.len() <= usize::MAX,
                wrote <= buf@.len(),
                offset == off0 + wrote,
                offset <= u64::MAX,
                off0 + buf@.len() - 1 <= u64::MAX,
                off0 >= 0,
                dev0 == old(device).blocks(),
                n0 == inode_at(dev0, old(self).superblock.inode_table_start as int, metadata.inode as int),
                last == off0 + buf@.len() - 1,
                off0 == metadata.offset,
                !(last / 256 >= 12 && last / 256 >= n0.blocks),
                buf@.len() > 0,
                metadata.inode < 2 * old(self).superblock.inode_table_blocks,
                wrote > 0 ==> offset <= 12 * 256,
                wrote > 0 ==> offset <= 256 * bw,
                inode.blocks == bw,
                maxi == self.block_allocator.spec_max_index(),
                maxi == old(self).block_allocator.spec_max_index(),
                valid == (last / 256 < 12 && slots_valid(n0, off0 / 256, last / 256, maxi)),
                good == (old(device).reliable() && last / 256 < 12 && slots_in_region(n0, off0 / 256, last / 256, maxi)),
                good ==> device.reliable(),
                good ==> forall|j: int| off0 / 256 <= j <= last / 256 && 0 <= j < bw && j < 12
                    ==> #[trigger] inode.direct@[j] < maxi,
                valid ==> last / 256 < 12,
                valid ==> forall|j: int| off0 / 256 <= j <= last / 256 && 0 <= j < bw && j < 12
                    ==> #[trigger] inode.direct@[j] != INVALID_ADDRESS && inode.direct@[j] <= maxi,
                bytes_on_device(device.blocks(), ds, inode, off0, offset as int)
                    && distinct_blocks(inode, off0 / 256, (offset + 255) / 256) ==>
                    forall|j: int| 0 <= j < wrote ==> #[trigger] file_byte(device.blocks(), ds, inode, off0 + j) == buf@[j],
            decreases buf@.len() - wrote,
        {
            let block = offset / (BLOCK_SIZE as u64);
            let in_block = (offset % (BLOCK_SIZE as u64)) as usize;
            assert(off0 / 256 <= block <= last / 256) by (nonlinear_arith)
                requires
                    offset == off0 + wrote,
                    wrote < buf@.len(),
                    last == off0 + buf@.len() - 1,
                    off0 >= 0,
                    block == offset / 256;
            if block >= 12 {
                return Err(FSError::InvalidINode(InvalidINodeKind::Unspecified));
            }
            let block_ind = inode.direct[block as usize];
            assert(valid ==> block_ind != INVALID_ADDRESS && block_ind <= maxi) by {
                if valid {
                    assert(inode.direct@[block as int] == block_ind);
                }
            }
            if block_ind == INVALID_ADDRESS {
                return Err(FSError::InvalidINode(InvalidINodeKind::InvalidDirect { ind: block as u16 }));
            } else if block_ind > self.block_allocator.max_index() {
                return Err(FSError::InvalidINode(InvalidINodeKind::DirectOOB { ind: block as u16 }));
            }
            let block_address = self.superblock.data_start + block_ind;
            let mut to_write = BLOCK_SIZE - in_block;
            if to_write > buf.len() - wrote {
                to_write = buf.len() - wrote;
            }
            if to_write < BLOCK_SIZE {
                match device.read_block(block_address, &mut device_buf) {
                    Err(e) => { return Err(e); },
                    Ok(_) => {},
                }
            }
            let mut k: usize = 0;
            while k < to_write
                invariant
                    0 <= k <= to_write,
                    buf@.len() <= usize::MAX,
                    in_block + to_write <= BLOCK_SIZE,
                    wrote + to_write <= buf@.len(),
                    forall|j: int| 0 <= j < k ==> #[trigger] device_buf@[in_block + j] == buf@[wrote + j],
                decreases to_write - k,
            {
                device_buf[in_block + k] = buf[wrote + k];
                k = k + 1;
            }
            let ghost prev = device.blocks();
            match device.write_block(block_address, &device_buf) {
                Err(e) => { return Err(e); },
                Ok(_) => {},
            }
            proof {
                let cur = device.blocks();
                let new_off = offset + to_write;
                if bytes_on_device(cur, ds, inode, off0, new_off) && distinct_blocks(inode, off0 / 256, (new_off + 255) / 256) {
                    assert forall|j: int| 0 <= j < wrote + to_write implies #[trigger] file_byte(cur, ds, inode, off0 + j) == buf@[j] by {
                        let pos = off0 + j;
                        assert(pos / 256 <= block) by (nonlinear_arith)
                            requires
                                pos == offset + (j - wrote),
                                j - wrote < to_write,
                                in_block + to_write <= 256,
                                in_block == offset % 256,
                                block == offset / 256;
                        if j < wrote {
                            assert(pos / 256 < block) by (nonlinear_arith)
                                requires
                                    pos == offset + (j - wrote),
                                    0 <= j < wrote,
                                    offset % 256 == 0,
                                    block == offset / 256;
                            assert(off0 / 256 <= pos / 256) by (nonlinear_arith)
                                requires pos >= off0, off0 >= 0;
                            assert(block < (new_off + 255) / 256) by (nonlinear_arith)
                                requires new_off > offset, block == offset / 256, offset >= 0;
                            assert(inode.direct@[pos / 256] != inode.direct@[block as int]);
                            assert(bytes_on_device(prev, ds, inode, off0, offset as int));
                            assert(distinct_blocks(inode, off0 / 256, (offset + 255) / 256)) by {
                                assert((offset + 255) / 256 <= (new_off + 255) / 256) by (nonlinear_arith)
                                    requires new_off >= offset;
                            }
                            assert(file_byte(prev, ds, inode, pos) == buf@[j]);
                        } else {
                            assert(pos / 256 == block) by (nonlinear_arith)
                                requires
                                    pos == offset + (j - wrote),
                                    0 <= j - wrote < to_write,
                                    in_block + to_write <= 256,
                                    in_block == offset % 256,
                                    block == offset / 256;
                            assert(pos % 256 == in_block + (j - wrote)) by (nonlinear_arith)
                                requires
                                    pos == offset + (j - wrote),
                                    0 <= j - wrote < to_write,
                                    in_block + to_write <= 256,
                                    in_block == offset % 256,
                                    block == offset / 256;
                        }
                    }
                }
            }
            offset = offset + to_write as u64;
            wrote = wrote + to_write;
        }

        // the inode: size and modification time
        let ghost inode_w = inode;
        if offset > inode.size {
            inode.size = offset;
        }
        inode.modified = now_secs();
        let ghost dev2 = device.blocks();
        proof {
            device.lemma_inv_well_sized();
            self.lemma_on_device(dev2);
        }
        match self.inode_handler.write_inode(device, metadata.inode, &inode) {
            Err(e) => { return Err(e); },
            Ok(_) => {},
        }
        let ghost dev3 = device.blocks();
        let ghost ts = self.superblock.inode_table_start as int;
        proof {
            lemma_read_after_write_inode(dev2, ts, metadata.inode as int, inode, metadata.inode as int);
            assert forall|a: int| ds <= a < dev2.len() implies #[trigger] dev3[a] == dev2[a] by {
                assert(ts + metadata.inode / 2 < ds);
            }
        }
        if allocated {
            match self.write_superblock(device) {
                Err(e) => { return Err(e); },
                Ok(_) => {},
            }
        }
        let ghost fin = device.blocks();
        proof {
            assert(fin[ts + metadata.inode / 2] == dev3[ts + metadata.inode / 2]);
            assert(inode_at(fin, ts, metadata.inode as int) == inode);
            assert forall|a: int| ds <= a < dev2.len() implies #[trigger] fin[a] == dev2[a] by {
                assert(fin[a] == dev3[a]);
            }
            assert(fin.len() == dev2.len());
            assert(offset == off0 + wrote);
            lemma_write_frame(fin, dev2, ds, inode, inode_w, off0, wrote as int, buf@);
        }
        self.open_files.insert(file.id, FileMetadata { inode: metadata.inode, offset });
        Ok(wrote)
    }
}

} // verus!
