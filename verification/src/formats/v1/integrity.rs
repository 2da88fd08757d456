use vstd::prelude::*;
use crate::fs_utils::{BLOCK_SIZE, INVALID_ADDRESS, FileType, read_u16, read_u32};
use crate::fs_error::FSResult;
use crate::device::block_device::BlockDevice;
use crate::formats::format::IntegrityResult;
use super::directory::{DirEntry, e_parsable, e_name_len, e_inode, e_rec, e_type, e_name, min_rec, padded_name};
use super::bitmap_allocator::{count_set, spec_min, lemma_count_set_bound, bit_set};
use super::integrity_checker_errors::{V1IntegrityError, IntegrityCheckerBitmap, UnallocatedDataData,
    DoubleReferenceData, InvalidDirectoryEntryData, InvalidDirectoryStructureData, UnreachableDataData,
    InconsistentMetadataData, InvalidInodeData, MismatchedFileTypeData};
use super::format::FormatV1;
use super::inode::INode;
use super::inode_handler::inode_at;

verus! {

/// The errors that compare the free counters of the superblock with the
/// bitmaps, which have `inodes` and `blocks` indices set.
pub open spec fn metadata_errors(f: FormatV1, inodes: int, blocks: int) -> Seq<V1IntegrityError> {
    let sb = f.superblock;
    let expected_inodes = sb.inode_table_blocks * 2 - inodes;
    let expected_blocks = sb.total_blocks - sb.data_start - blocks;
    let a = if sb.free_inodes != expected_inodes {
        seq![V1IntegrityError::InconsistentMetadata(InconsistentMetadataData::FreeInodes {
            actual: sb.free_inodes, expected: expected_inodes as u32 })]
    } else {
        Seq::empty()
    };
    let b = if sb.free_data != expected_blocks {
        seq![V1IntegrityError::InconsistentMetadata(InconsistentMetadataData::FreeData {
            actual: sb.free_data, expected: expected_blocks as u32 })]
    } else {
        Seq::empty()
    };
    a + b
}

/// Appends the errors of `more` to `result`.
fn append_errors(result: &mut Vec<V1IntegrityError>, more: Vec<V1IntegrityError>)
    ensures
        final(result)@ == old(result)@ + more@,
{
    let mut i: usize = 0;
    let ghost start = result@;
    while i < more.len()
        invariant
            0 <= i <= more@.len(),
            result@ == start + more@.take(i as int),
        decreases more@.len() - i,
    {
        result.push(more[i]);
        i = i + 1;
        assert(result@ =~= start + more@.take(i as int));
    }
    assert(more@.take(more@.len() as int) =~= more@);
}

/// The state that the checks share: the indices of the inodes and blocks
/// met so far, within the bounds of the allocators.
pub open spec fn visits_ok(f: &FormatV1, vi: &IntegrityCheckerBitmap, vb: &IntegrityCheckerBitmap) -> bool {
    &&& vi.wf()
    &&& vb.wf()
    &&& vi.size() == f.inode_allocator.spec_max_index()
    &&& vb.size() == f.block_allocator.spec_max_index()
}

/// The errors that the check of the `i`-th direct block `block` of inode
/// `inode` reports, the blocks `seen` having been met before: an invalid or
/// out-of-range address, a block not allocated, or a block already met.
pub open spec fn data_block_errors(f: FormatV1, dev: Seq<Seq<u8>>, inode: u32, i: u32, block: u32, seen: Set<int>)
    -> Seq<V1IntegrityError> {
    let max = f.block_allocator.spec_max_index();
    let unallocated = V1IntegrityError::UnallocatedData(UnallocatedDataData::Data { ind: block, inode });
    if block == INVALID_ADDRESS {
        seq![V1IntegrityError::InvalidInode(InvalidInodeData::InvalidAddress { inode, direct_ind: i as u16 }), unallocated]
    } else if block >= max {
        seq![V1IntegrityError::InvalidInode(InvalidInodeData::OutOfBoundsAddress { inode, direct_ind: i as u16 }), unallocated]
    } else if !bit_set(dev, f.block_allocator.start_block() as int, block as int) {
        seq![unallocated]
    } else if seen.contains(block as int) {
        seq![V1IntegrityError::DoubleReference(DoubleReferenceData { block })]
    } else {
        Seq::empty()
    }
}

/// The block `block` lies in the data region and is allocated.
pub open spec fn data_block_used(f: FormatV1, dev: Seq<Seq<u8>>, block: u32) -> bool {
    block < f.block_allocator.spec_max_index() && bit_set(dev, f.block_allocator.start_block() as int, block as int)
}

/// The errors that the checks of the direct blocks of inode `n` (slot
/// `inode`) report from the `i`-th on, the blocks `seen` having been met
/// before, and the blocks met after them.
pub open spec fn blocks_check(f: FormatV1, dev: Seq<Seq<u8>>, inode: u32, n: INode, i: int, seen: Set<int>)
    -> (Seq<V1IntegrityError>, Set<int>)
    decreases 12 - i,
{
    let count = if n.blocks > 12 { 12int } else { n.blocks as int };
    if i < 0 || i >= count {
        (Seq::empty(), seen)
    } else {
        let block = n.direct@[i];
        let here = data_block_errors(f, dev, inode, i as u32, block, seen);
        let next = if data_block_used(f, dev, block) { seen.insert(block as int) } else { seen };
        let rest = blocks_check(f, dev, inode, n, i + 1, next);
        (here + rest.0, rest.1)
    }
}

/// The errors on the type of inode `n` (slot `inode`), expected of type
/// `expected`.
pub open spec fn inode_type_errors(inode: u32, n: INode, expected: FileType) -> Seq<V1IntegrityError> {
    let unknown = if n.file_type == FileType::Unknown {
        seq![V1IntegrityError::InvalidInode(InvalidInodeData::FileTypeUnknown { inode })]
    } else {
        Seq::empty()
    };
    let mismatched = if n.file_type != expected {
        seq![V1IntegrityError::MismatchedFileType(MismatchedFileTypeData {
            actual: n.file_type, expected: FileType::Directory, inode })]
    } else {
        Seq::empty()
    };
    unknown + mismatched
}

/// What the check of the entry at offset `off` of block `b` (data block
/// `block` of directory `dir`, `first` for its first block) reports, the
/// entry being readable, `count` entries having been met before it, the last
/// one, at `last_off` and of `last_size` bytes, free when `last_free`: the
/// errors, the inode to check next as a directory or as another file, and
/// whether the walk stops there.
pub open spec fn entry_check(f: FormatV1, b: Seq<u8>, block: u32, first: bool, dir: u32, off: int, count: int,
    last_free: bool, last_off: int, last_size: int) -> (Seq<V1IntegrityError>, Seq<u32>, Seq<u32>, bool) {
    let inode = e_inode(b, off);
    let len = e_rec(b, off) as int;
    let free = inode == INVALID_ADDRESS;
    let t = e_type(b, off);
    let nl = e_name_len(b, off);
    let name = e_name(b, off);
    let e1 = if !free && t == FileType::Unknown {
        seq![V1IntegrityError::InvalidDirectoryEntry(InvalidDirectoryEntryData::FileTypeUnknown {
            dir_inode: dir, entry_inode: inode, block, offset: off as u16 })]
    } else {
        Seq::empty()
    };
    let e2 = if first && count == 0 && !(nl == 1 && name[0] == 46u8) {
        seq![V1IntegrityError::InvalidDirectoryStructure(InvalidDirectoryStructureData::MissingSelf)]
    } else if first && count == 1 && !(nl == 2 && name[0] == 46u8 && name[1] == 46u8) {
        seq![V1IntegrityError::InvalidDirectoryStructure(InvalidDirectoryStructureData::MissingParent)]
    } else {
        Seq::empty()
    };
    let oob = !free && inode >= f.inode_allocator.spec_max_index();
    let e3 = if oob {
        seq![V1IntegrityError::InvalidDirectoryEntry(InvalidDirectoryEntryData::OutOfBoundsAddress)]
    } else {
        Seq::empty()
    };
    let over = len + off > 256;
    let e4 = if over {
        seq![V1IntegrityError::InvalidDirectoryEntry(InvalidDirectoryEntryData::Overflow {
            dir_inode: dir, entry_inode: inode, block, offset: off as u16 })]
    } else {
        Seq::empty()
    };
    let misfit = !free && len != min_rec(nl as int);
    let e5 = if misfit {
        seq![V1IntegrityError::InvalidDirectoryEntry(InvalidDirectoryEntryData::NameOverflow {
            dir_inode: dir, entry_inode: inode, block, offset: off as u16, name_len: nl })]
    } else if free && last_free {
        seq![V1IntegrityError::InvalidDirectoryEntry(InvalidDirectoryEntryData::AdjacentFree {
            dir_inode: dir, block, first_offset: last_off as u16, first_size: last_size as u16, second_size: len as u16 })]
    } else {
        Seq::empty()
    };
    let d = if !free && !oob && t == FileType::Directory && !(first && (count == 0 || count == 1)) {
        seq![inode]
    } else {
        Seq::empty()
    };
    let o = if !free && !oob && t != FileType::Directory { seq![inode] } else { Seq::empty() };
    (e1 + e2 + e3 + e4 + e5, d, o, over || misfit || len == 0)
}

/// What the check of the entries of block `b` (data block `block` of
/// directory `dir`, `first` for its first block) reports from offset `off`
/// on, `count` entries having been met, the last one, at `last_off` and of
/// `last_size` bytes, free when `last_free`: the errors, then the inodes of
/// the directories and of the other files to check next.
#[verifier::opaque]
pub open spec fn entries_check(f: FormatV1, b: Seq<u8>, block: u32, first: bool, dir: u32, off: int, count: int,
    last_free: bool, last_off: int, last_size: int) -> (Seq<V1IntegrityError>, Seq<u32>, Seq<u32>)
    decreases 256 - off,
{
    if off < 0 || off >= 256 {
        (Seq::empty(), Seq::empty(), Seq::empty())
    } else if off + 9 > 256 {
        (seq![V1IntegrityError::InvalidDirectoryEntry(InvalidDirectoryEntryData::Overflow {
            dir_inode: dir, entry_inode: INVALID_ADDRESS, block, offset: off as u16 })], Seq::empty(), Seq::empty())
    } else if !e_parsable(b, off) {
        (seq![V1IntegrityError::InvalidDirectoryEntry(InvalidDirectoryEntryData::NameOverflow {
            dir_inode: dir, entry_inode: e_inode(b, off), block, offset: off as u16, name_len: e_name_len(b, off) })],
            Seq::empty(), Seq::empty())
    } else {
        let here = entry_check(f, b, block, first, dir, off, count, last_free, last_off, last_size);
        let len = e_rec(b, off) as int;
        let rest = if here.3 {
            (Seq::empty(), Seq::empty(), Seq::empty())
        } else {
            entries_check(f, b, block, first, dir, off + len, count + 1, e_inode(b, off) == INVALID_ADDRESS, off, len)
        };
        (here.0 + rest.0, here.1 + rest.1, here.2 + rest.2)
    }
}

/// One step of `entries_check`.
proof fn lemma_entries_check(f: FormatV1, b: Seq<u8>, block: u32, first: bool, dir: u32, off: int, count: int,
    last_free: bool, last_off: int, last_size: int)
    ensures
        entries_check(f, b, block, first, dir, off, count, last_free, last_off, last_size) == (if off < 0 || off >= 256 {
            (Seq::empty(), Seq::empty(), Seq::empty())
        } else if off + 9 > 256 {
            (seq![V1IntegrityError::InvalidDirectoryEntry(InvalidDirectoryEntryData::Overflow {
                dir_inode: dir, entry_inode: INVALID_ADDRESS, block, offset: off as u16 })], Seq::empty(), Seq::empty())
        } else if !e_parsable(b, off) {
            (seq![V1IntegrityError::InvalidDirectoryEntry(InvalidDirectoryEntryData::NameOverflow {
                dir_inode: dir, entry_inode: e_inode(b, off), block, offset: off as u16, name_len: e_name_len(b, off) })],
                Seq::empty(), Seq::empty())
        } else {
            let here = entry_check(f, b, block, first, dir, off, count, last_free, last_off, last_size);
            let len = e_rec(b, off) as int;
            let rest = if here.3 {
                (Seq::empty(), Seq::empty(), Seq::empty())
            } else {
                entries_check(f, b, block, first, dir, off + len, count + 1, e_inode(b, off) == INVALID_ADDRESS, off, len)
            };
            (here.0 + rest.0, here.1 + rest.1, here.2 + rest.2)
        }),
{
    reveal_with_fuel(entries_check, 1);
}

impl FormatV1 {
    /// Checks that inode `inode_ind` is allocated, and marks it as met.
    /// Possible errors: `UnallocatedData(INode)`.
    fn check_integrity_inode_allocation<D: BlockDevice>(&self, device: &mut D, inode_ind: u32,
        visited_inodes: &mut IntegrityCheckerBitmap) -> (r: FSResult<Vec<V1IntegrityError>>)
        requires
            self.wf(),
            self.fits(old(device).blocks().len() as int),
            old(device).inv(),
            old(visited_inodes).wf(),
            old(visited_inodes).size() == self.inode_allocator.spec_max_index(),
        ensures
            final(device).inv(),
            final(device).blocks() == old(device).blocks(),
            final(visited_inodes).wf(),
            final(visited_inodes).size() == old(visited_inodes).size(),
            match r {
                Ok(v) => if inode_ind < self.inode_allocator.spec_max_index()
                    && super::bitmap_allocator::bit_set(old(device).blocks(), self.inode_allocator.start_block() as int, inode_ind as int) {
                    v@.len() == 0 && final(visited_inodes).marked() == old(visited_inodes).marked().insert(inode_ind as int)
                } else {
                    v@ == seq![V1IntegrityError::UnallocatedData(UnallocatedDataData::INode { ind: inode_ind })]
                        && final(visited_inodes).marked() == old(visited_inodes).marked()
                },
                Err(e) => e.is_device_error(),
            },
    {
        proof {
            device.lemma_inv_well_sized();
            self.lemma_on_device(device.blocks());
        }
        let mut result: Vec<V1IntegrityError> = Vec::new();
        let allocated = match self.inode_allocator.is_allocated(device, inode_ind) {
            Ok(b) => b,
            Err(e) => { return Err(e); },
        };
        if !allocated || inode_ind >= self.inode_allocator.max_index() {
            result.push(V1IntegrityError::UnallocatedData(UnallocatedDataData::INode { ind: inode_ind }));
        } else {
            // only allocated indices are marked: unreachable ones are then easy to find
            visited_inodes.visit(inode_ind);
        }
        Ok(result)
    }

    /// Checks the data block `block_ind`, held by inode `inode_ind` at
    /// position `i` of its direct blocks: a valid address, allocated, held
    /// once. Returns whether the block is allocated (and then marked as met).
    fn check_integrity_data_block<D: BlockDevice>(&self, device: &mut D, inode_ind: u32, i: u32, block_ind: u32,
        visited_blocks: &mut IntegrityCheckerBitmap, result: &mut Vec<V1IntegrityError>) -> (r: FSResult<bool>)
        requires
            self.wf(),
            self.fits(old(device).blocks().len() as int),
            old(device).inv(),
            old(visited_blocks).wf(),
            old(visited_blocks).size() == self.block_allocator.spec_max_index(),
            i < 12,
        ensures
            final(device).inv(),
            final(device).blocks() == old(device).blocks(),
            final(visited_blocks).wf(),
            final(visited_blocks).size() == old(visited_blocks).size(),
            final(result)@.len() >= old(result)@.len(),
            final(result)@.take(old(result)@.len() as int) == old(result)@,
            r matches Ok(true) ==> block_ind < self.block_allocator.spec_max_index(),
            r matches Err(e) ==> e.is_device_error(),
            r matches Ok(used) ==> {
                let dev = old(device).blocks();
                &&& used == data_block_used(*self, dev, block_ind)
                &&& final(result)@ == old(result)@ + data_block_errors(*self, dev, inode_ind, i, block_ind, old(visited_blocks).marked())
                &&& final(visited_blocks).marked() == (if used { old(visited_blocks).marked().insert(block_ind as int) }
                    else { old(visited_blocks).marked() })
            },
    {
        if block_ind == INVALID_ADDRESS {
            result.push(V1IntegrityError::InvalidInode(InvalidInodeData::InvalidAddress { inode: inode_ind, direct_ind: i as u16 }));
        } else if block_ind >= self.block_allocator.max_index() {
            result.push(V1IntegrityError::InvalidInode(InvalidInodeData::OutOfBoundsAddress { inode: inode_ind, direct_ind: i as u16 }));
        }
        if block_ind >= self.block_allocator.max_index() {
            // an address out of the data region is never allocated
            result.push(V1IntegrityError::UnallocatedData(UnallocatedDataData::Data { ind: block_ind, inode: inode_ind }));
            return Ok(false);
        }
        proof {
            device.lemma_inv_well_sized();
            self.lemma_on_device(device.blocks());
        }
        let allocated = match self.block_allocator.is_allocated(device, block_ind) {
            Ok(b) => b,
            Err(e) => { return Err(e); },
        };
        if !allocated {
            result.push(V1IntegrityError::UnallocatedData(UnallocatedDataData::Data { ind: block_ind, inode: inode_ind }));
            return Ok(false);
        }
        // two inodes cannot hold the same data block
        if visited_blocks.visit(block_ind) {
            result.push(V1IntegrityError::DoubleReference(DoubleReferenceData { block: block_ind }));
        }
        Ok(true)
    }

    /// Checks the content of inode `inode_ind`, expected to be of type
    /// `expected_type`: its file type and its data blocks. Possible errors:
    /// `MismatchedFileType`, `DoubleReference`, `InvalidInode(*)`, `UnallocatedData(Data)`.
    fn check_integrity_inode<D: BlockDevice>(&self, device: &mut D, inode_ind: u32,
        visited_blocks: &mut IntegrityCheckerBitmap, expected_type: FileType) -> (r: FSResult<Vec<V1IntegrityError>>)
        requires
            self.wf(),
            self.fits(old(device).blocks().len() as int),
            old(device).inv(),
            old(visited_blocks).wf(),
            old(visited_blocks).size() == self.block_allocator.spec_max_index(),
        ensures
            final(device).inv(),
            final(device).blocks() == old(device).blocks(),
            final(visited_blocks).wf(),
            final(visited_blocks).size() == self.block_allocator.spec_max_index(),
            r matches Err(e) ==> e.is_device_error() || e is InvalidInput,
            inode_ind < self.inode_handler.max_inodes() ==> (r matches Err(e) ==> e.is_device_error()),
            r matches Ok(v) ==> {
                let n = inode_at(old(device).blocks(), self.superblock.inode_table_start as int, inode_ind as int);
                let c = blocks_check(*self, old(device).blocks(), inode_ind, n, 0, old(visited_blocks).marked());
                &&& inode_ind < self.inode_handler.max_inodes()
                &&& v@ == inode_type_errors(inode_ind, n, expected_type) + c.0
                &&& final(visited_blocks).marked() == c.1
            },
    {
        let mut result: Vec<V1IntegrityError> = Vec::new();
        let ghost dev = device.blocks();
        let ghost m0 = visited_blocks.marked();
        proof {
            device.lemma_inv_well_sized();
            self.lemma_on_device(device.blocks());
        }
        let inode = match self.inode_handler.read_inode(device, inode_ind) {
            Ok(n) => n,
            Err(e) => { return Err(e); },
        };
        let ghost full = blocks_check(*self, dev, inode_ind, inode, 0, m0);
        if inode.file_type == FileType::Unknown {
            result.push(V1IntegrityError::InvalidInode(InvalidInodeData::FileTypeUnknown { inode: inode_ind }));
        }
        if inode.file_type != expected_type {
            result.push(V1IntegrityError::MismatchedFileType(MismatchedFileTypeData {
                actual: inode.file_type, expected: FileType::Directory, inode: inode_ind }));
        }
        assert(result@ =~= inode_type_errors(inode_ind, inode, expected_type));
        let n = if inode.blocks > 12 { 12 } else { inode.blocks };
        let mut i: u32 = 0;
        while i < n
            invariant
                self.wf(),
                self.fits(old(device).blocks().len() as int),
                device.inv(),
                device.blocks() == old(device).blocks(),
                dev == old(device).blocks(),
                visited_blocks.wf(),
                visited_blocks.size() == self.block_allocator.spec_max_index(),
                n <= 12,
                n == (if inode.blocks > 12 { 12int } else { inode.blocks as int }),
                0 <= i <= n,
                full == blocks_check(*self, dev, inode_ind, inode, 0, m0),
                inode_type_errors(inode_ind, inode, expected_type) + full.0
                    == result@ + blocks_check(*self, dev, inode_ind, inode, i as int, visited_blocks.marked()).0,
                full.1 == blocks_check(*self, dev, inode_ind, inode, i as int, visited_blocks.marked()).1,
            decreases n - i,
        {
            let block_ind = inode.direct[i as usize];
            let ghost r0 = result@;
            let ghost mk = visited_blocks.marked();
            match self.check_integrity_data_block(device, inode_ind, i, block_ind, visited_blocks, &mut result) {
                Err(e) => { return Err(e); },
                Ok(_) => {},
            }
            proof {
                let here = data_block_errors(*self, dev, inode_ind, i, block_ind, mk);
                let rest = blocks_check(*self, dev, inode_ind, inode, i as int + 1, visited_blocks.marked());
                assert(blocks_check(*self, dev, inode_ind, inode, i as int, mk).0 == here + rest.0);
                assert(r0 + (here + rest.0) =~= (r0 + here) + rest.0);
            }
            i = i + 1;
        }
        assert(blocks_check(*self, dev, inode_ind, inode, i as int, visited_blocks.marked()).0 =~= Seq::<V1IntegrityError>::empty());
        assert(result@ =~= inode_type_errors(inode_ind, inode, expected_type) + full.0);
        Ok(result)
    }

    /// Checks the entries of directory block `block_ind` of directory
    /// `dir_inode` (`first` for its first block, which must start with `.`
    /// and `..`), and collects the inodes of the entries to check next.
    /// Possible errors: `InvalidDirectoryEntry(*)`, `InvalidDirectoryStructure(*)`.
    #[verifier::rlimit(60)]
    fn check_integrity_entries_in_block<D: BlockDevice>(&self, device: &mut D, block_ind: u32, first: bool, dir_inode: u32,
        child_dirs: &mut Vec<u32>, child_others: &mut Vec<u32>) -> (r: FSResult<Vec<V1IntegrityError>>)
        requires
            self.wf(),
            self.fits(old(device).blocks().len() as int),
            old(device).inv(),
            block_ind < self.block_allocator.spec_max_index(),
        ensures
            final(device).inv(),
            final(device).blocks() == old(device).blocks(),
            final(child_dirs)@.len() >= old(child_dirs)@.len(),
            final(child_others)@.len() >= old(child_others)@.len(),
            r matches Err(e) ==> e.is_device_error(),
            r matches Ok(v) ==> {
                let b = old(device).blocks()[self.superblock.data_start + block_ind];
                let c = entries_check(*self, b, block_ind, first, dir_inode, 0, 0, false, 0, 256);
                &&& v@ == c.0
                &&& final(child_dirs)@ == old(child_dirs)@ + c.1
                &&& final(child_others)@ == old(child_others)@ + c.2
            },
    {
        let mut result: Vec<V1IntegrityError> = Vec::new();
        let mut buf = [0u8; BLOCK_SIZE];
        let absolute_block = self.superblock.data_start + block_ind;
        match device.read_block(absolute_block, &mut buf) {
            Err(e) => { return Err(e); },
            Ok(_) => {},
        }
        let ghost b = buf@;
        let ghost full = entries_check(*self, b, block_ind, first, dir_inode, 0, 0, false, 0, 256);
        let ghost dirs0 = child_dirs@;
        let ghost others0 = child_others@;
        assert(b == old(device).blocks()[self.superblock.data_start + block_ind]);

        let mut last_entry_size: usize = BLOCK_SIZE;
        let mut last_entry_offset: usize = 0;
        let mut last_entry_free = false;
        let mut count: u32 = 0;
        let mut offset: usize = 0;
        while offset < BLOCK_SIZE
            invariant
                count <= offset,
                offset <= BLOCK_SIZE,
                last_entry_offset < BLOCK_SIZE,
                last_entry_size <= 65535,
                b == buf@,
                device.inv(),
                device.blocks() == old(device).blocks(),
                child_dirs@.len() >= old(child_dirs)@.len(),
                child_others@.len() >= old(child_others)@.len(),
                dirs0 == old(child_dirs)@,
                others0 == old(child_others)@,
                b == old(device).blocks()[self.superblock.data_start + block_ind],
                full == entries_check(*self, b, block_ind, first, dir_inode, 0, 0, false, 0, 256),
                ({
                    let c = entries_check(*self, b, block_ind, first, dir_inode, offset as int, count as int,
                        last_entry_free, last_entry_offset as int, last_entry_size as int);
                    &&& full.0 == result@ + c.0
                    &&& dirs0 + full.1 == child_dirs@ + c.1
                    &&& others0 + full.2 == child_others@ + c.2
                }),
            decreases BLOCK_SIZE - offset,
        {
            let ghost r0 = result@;
            let ghost d0 = child_dirs@;
            let ghost o0 = child_others@;
            proof {
                lemma_entries_check(*self, b, block_ind, first, dir_inode, offset as int, count as int,
                    last_entry_free, last_entry_offset as int, last_entry_size as int);
            }
            if offset + 9 > BLOCK_SIZE {
                // not even the header of an entry fits: the block overflows
                result.push(V1IntegrityError::InvalidDirectoryEntry(InvalidDirectoryEntryData::Overflow {
                    dir_inode, entry_inode: INVALID_ADDRESS, block: block_ind, offset: offset as u16 }));
                assert(result@ =~= full.0);
                assert(child_dirs@ =~= child_dirs@ + Seq::<u32>::empty());
                assert(child_others@ =~= child_others@ + Seq::<u32>::empty());
                return Ok(result);
            }
            if !e_parsable_exec(&buf, offset) {
                // the name does not fit in the block or in an entry
                let inode = read_u32(buf.as_slice(), offset);
                let name_len = read_u16(buf.as_slice(), offset + 6);
                result.push(V1IntegrityError::InvalidDirectoryEntry(InvalidDirectoryEntryData::NameOverflow {
                    dir_inode, entry_inode: inode, block: block_ind, offset: offset as u16, name_len }));
                assert(result@ =~= full.0);
                assert(child_dirs@ =~= child_dirs@ + Seq::<u32>::empty());
                assert(child_others@ =~= child_others@ + Seq::<u32>::empty());
                return Ok(result);
            }
            let entry = DirEntry::deserialize(buf.as_slice(), offset);
            let len = entry.record_len as usize;

            // a free region has no file type; an entry in use must have a known one
            if !entry.is_free() && entry.file_type == FileType::Unknown {
                result.push(V1IntegrityError::InvalidDirectoryEntry(InvalidDirectoryEntryData::FileTypeUnknown {
                    dir_inode, entry_inode: entry.inode, block: block_ind, offset: offset as u16 }));
            }

            // the first two entries of a directory are itself and its parent
            if first {
                if count == 0 {
                    if entry.name_len != 1 || entry.name[0] != 46u8 {
                        result.push(V1IntegrityError::InvalidDirectoryStructure(InvalidDirectoryStructureData::MissingSelf));
                    }
                } else if count == 1 {
                    if entry.name_len != 2 || entry.name[0] != 46u8 || entry.name[1] != 46u8 {
                        result.push(V1IntegrityError::InvalidDirectoryStructure(InvalidDirectoryStructureData::MissingParent));
                    }
                }
            }

            let mut should_stop = false;
            let mut valid_enough = true;

            // the inode pointer of a used entry
            if !entry.is_free() {
                if entry.inode >= self.inode_allocator.max_index() {
                    result.push(V1IntegrityError::InvalidDirectoryEntry(InvalidDirectoryEntryData::OutOfBoundsAddress));
                    valid_enough = false;
                }
            }

            // the record overflows into the next block
            if len + offset > BLOCK_SIZE {
                result.push(V1IntegrityError::InvalidDirectoryEntry(InvalidDirectoryEntryData::Overflow {
                    dir_inode, entry_inode: entry.inode, block: block_ind, offset: offset as u16 }));
                should_stop = true;
            }

            if !entry.is_free() {
                // a used record takes exactly the room it needs
                if entry.record_len != DirEntry::min_record_len(entry.name_len) {
                    result.push(V1IntegrityError::InvalidDirectoryEntry(InvalidDirectoryEntryData::NameOverflow {
                        dir_inode, entry_inode: entry.inode, block: block_ind, offset: offset as u16, name_len: entry.name_len }));
                    // where the next entry starts is unknown
                    should_stop = true;
                }
            } else if last_entry_free {
                // two consecutive free regions
                result.push(V1IntegrityError::InvalidDirectoryEntry(InvalidDirectoryEntryData::AdjacentFree {
                    dir_inode, block: block_ind, first_offset: last_entry_offset as u16,
                    first_size: last_entry_size as u16, second_size: entry.record_len }));
            }

            // the children worth checking
            if !entry.is_free() && valid_enough {
                if entry.file_type == FileType::Directory {
                    if !(first && (count == 0 || count == 1)) {
                        child_dirs.push(entry.inode);
                    }
                } else {
                    child_others.push(entry.inode);
                }
            }

            proof {
                let o = offset as int;
                let here = entry_check(*self, b, block_ind, first, dir_inode, o, count as int,
                    last_entry_free, last_entry_offset as int, last_entry_size as int);
                assert(entry.name_len == e_name_len(b, o));
                assert(entry.name@ == padded_name(e_name(b, o)));
                if e_name_len(b, o) >= 1 {
                    assert(entry.name@[0] == e_name(b, o)[0]);
                }
                if e_name_len(b, o) >= 2 {
                    assert(entry.name@[1] == e_name(b, o)[1]);
                }
                assert(result@ =~= r0 + here.0);
                assert(child_dirs@ =~= d0 + here.1);
                assert(child_others@ =~= o0 + here.2);
                assert(here.3 == (should_stop || len == 0));
                let nc = entries_check(*self, b, block_ind, first, dir_inode, o + len, count as int + 1,
                    entry.spec_is_free(), o, len as int);
                if !here.3 {
                    assert(r0 + (here.0 + nc.0) =~= (r0 + here.0) + nc.0);
                    assert(d0 + (here.1 + nc.1) =~= (d0 + here.1) + nc.1);
                    assert(o0 + (here.2 + nc.2) =~= (o0 + here.2) + nc.2);
                } else {
                    assert(r0 + (here.0 + Seq::empty()) =~= r0 + here.0);
                    assert(d0 + (here.1 + Seq::empty()) =~= d0 + here.1);
                    assert(o0 + (here.2 + Seq::empty()) =~= o0 + here.2);
                }
            }

            count = count + 1;
            last_entry_free = entry.is_free();
            last_entry_offset = offset;
            last_entry_size = len;

            if should_stop || len == 0 {
                return Ok(result);
            }
            offset = offset + len;
        }
        proof {
            lemma_entries_check(*self, b, block_ind, first, dir_inode, offset as int, count as int,
                last_entry_free, last_entry_offset as int, last_entry_size as int);
        }
        assert(result@ =~= full.0);
        assert(child_dirs@ =~= dirs0 + full.1);
        assert(child_others@ =~= others0 + full.2);
        Ok(result)
    }
}

/// The error that the check that inode `ind` is allocated reports.
pub open spec fn alloc_errors(f: FormatV1, dev: Seq<Seq<u8>>, ind: u32) -> Seq<V1IntegrityError> {
    if ind < f.inode_allocator.spec_max_index() && bit_set(dev, f.inode_allocator.start_block() as int, ind as int) {
        Seq::empty()
    } else {
        seq![V1IntegrityError::UnallocatedData(UnallocatedDataData::INode { ind })]
    }
}

/// The inodes met after the check that inode `ind` is allocated, those of
/// `seen` having been met before.
pub open spec fn alloc_marks(f: FormatV1, dev: Seq<Seq<u8>>, ind: u32, seen: Set<int>) -> Set<int> {
    if ind < f.inode_allocator.spec_max_index() && bit_set(dev, f.inode_allocator.start_block() as int, ind as int) {
        seen.insert(ind as int)
    } else {
        seen
    }
}

/// `o` with the errors `acc` in front of its own.
pub open spec fn prepend(acc: Seq<V1IntegrityError>, o: Option<(Seq<V1IntegrityError>, Set<int>, Set<int>)>)
    -> Option<(Seq<V1IntegrityError>, Set<int>, Set<int>)> {
    match o {
        Some((r, vi, vb)) => Some((acc + r, vi, vb)),
        None => None,
    }
}

/// What the checks of the direct blocks of directory `n` (slot `dir`) report
/// from the `i`-th on, the blocks `vb` having been met before: the errors,
/// the blocks met after them, and the inodes of the directories and of the
/// other files found in the blocks in use.
pub open spec fn dir_blocks_check(f: FormatV1, dev: Seq<Seq<u8>>, dir: u32, n: INode, i: int, vb: Set<int>)
    -> (Seq<V1IntegrityError>, Set<int>, Seq<u32>, Seq<u32>)
    decreases 12 - i,
{
    let count = if n.blocks > 12 { 12int } else { n.blocks as int };
    if i < 0 || i >= count {
        (Seq::empty(), vb, Seq::empty(), Seq::empty())
    } else {
        let block = n.direct@[i];
        let e = data_block_errors(f, dev, dir, i as u32, block, vb);
        let used = data_block_used(f, dev, block);
        let next = if used { vb.insert(block as int) } else { vb };
        let ec = if used {
            entries_check(f, dev[f.superblock.data_start + block], block, i == 0, dir, 0, 0, false, 0, 256)
        } else {
            (Seq::empty(), Seq::empty(), Seq::empty())
        };
        let rest = dir_blocks_check(f, dev, dir, n, i + 1, next);
        (e + ec.0 + rest.0, rest.1, ec.1 + rest.2, ec.2 + rest.3)
    }
}

/// What the checks of the files `others[k..]` report, the inodes `vi` and
/// the blocks `vb` having been met before: their errors and what is met after
/// them; `None` where an inode lies past the inode table.
pub open spec fn others_check(f: FormatV1, dev: Seq<Seq<u8>>, others: Seq<u32>, k: int, vi: Set<int>, vb: Set<int>)
    -> Option<(Seq<V1IntegrityError>, Set<int>, Set<int>)>
    decreases others.len() - k,
{
    if k < 0 || k >= others.len() {
        Some((Seq::empty(), vi, vb))
    } else {
        let ind = others[k];
        if ind >= f.inode_handler.max_inodes() {
            None
        } else {
            let n = inode_at(dev, f.superblock.inode_table_start as int, ind as int);
            let c = blocks_check(f, dev, ind, n, 0, vb);
            prepend(alloc_errors(f, dev, ind) + inode_type_errors(ind, n, FileType::File) + c.0,
                others_check(f, dev, others, k + 1, alloc_marks(f, dev, ind, vi), c.1))
        }
    }
}

/// What the checks of the directories `dirs[k..]` report, down to `depth`
/// levels, the inodes `vi` and the blocks `vb` having been met before: a
/// directory already met is skipped.
pub open spec fn dirs_check(f: FormatV1, dev: Seq<Seq<u8>>, dirs: Seq<u32>, k: int, vi: Set<int>, vb: Set<int>, depth: nat)
    -> Option<(Seq<V1IntegrityError>, Set<int>, Set<int>)>
    decreases depth, 0nat, dirs.len() - k,
{
    if k < 0 || k >= dirs.len() || depth == 0 {
        Some((Seq::empty(), vi, vb))
    } else {
        let ind = dirs[k];
        if ind < f.inode_allocator.spec_max_index() && vi.contains(ind as int) {
            dirs_check(f, dev, dirs, k + 1, vi, vb, depth)
        } else {
            match recursive_check(f, dev, ind, vi, vb, (depth - 1) as nat) {
                None => None,
                Some((e, vi2, vb2)) => prepend(e, dirs_check(f, dev, dirs, k + 1, vi2, vb2, depth)),
            }
        }
    }
}

/// What the check of directory `dir` and of what lies below it, down to
/// `depth` levels, reports, the inodes `vi` and the blocks `vb` having been
/// met before: its errors and what is met after them; `None` where an inode
/// lies past the inode table.
pub open spec fn recursive_check(f: FormatV1, dev: Seq<Seq<u8>>, dir: u32, vi: Set<int>, vb: Set<int>, depth: nat)
    -> Option<(Seq<V1IntegrityError>, Set<int>, Set<int>)>
    decreases depth, 1nat, 0int,
{
    if dir >= f.inode_handler.max_inodes() {
        None
    } else {
        let n = inode_at(dev, f.superblock.inode_table_start as int, dir as int);
        let t = if n.file_type == FileType::Unknown {
            seq![V1IntegrityError::InvalidInode(InvalidInodeData::FileTypeUnknown { inode: dir })]
        } else if n.file_type != FileType::Directory {
            seq![V1IntegrityError::MismatchedFileType(MismatchedFileTypeData {
                actual: n.file_type, expected: FileType::Directory, inode: dir })]
        } else {
            Seq::empty()
        };
        let bc = dir_blocks_check(f, dev, dir, n, 0, vb);
        match others_check(f, dev, bc.3, 0, alloc_marks(f, dev, dir, vi), bc.1) {
            None => None,
            Some((oe, vi2, vb2)) => prepend(alloc_errors(f, dev, dir) + t + bc.0 + oe,
                if depth > 0 { dirs_check(f, dev, bc.2, 0, vi2, vb2, depth) } else { Some((Seq::empty(), vi2, vb2)) }),
        }
    }
}

/// The unreachable-inode errors among the indices below `n`: an inode
/// marked allocated that the walk from the root (which met `vi`) did not meet.
pub open spec fn unreachable_inodes(f: FormatV1, dev: Seq<Seq<u8>>, vi: Set<int>, n: int) -> Seq<V1IntegrityError>
    decreases n,
{
    if n <= 0 {
        Seq::empty()
    } else {
        let i = n - 1;
        unreachable_inodes(f, dev, vi, i) + if i <= f.inode_allocator.spec_max_index()
            && bit_set(dev, f.inode_allocator.start_block() as int, i) && !vi.contains(i) {
            seq![V1IntegrityError::UnreachableData(UnreachableDataData::INode { ind: i as u32 })]
        } else {
            Seq::empty()
        }
    }
}

/// The unreachable-block errors among the data blocks below `n`: a block
/// marked allocated that the walk from the root (which met `vb`) did not meet.
pub open spec fn unreachable_blocks(f: FormatV1, dev: Seq<Seq<u8>>, vb: Set<int>, n: int) -> Seq<V1IntegrityError>
    decreases n,
{
    if n <= 0 {
        Seq::empty()
    } else {
        let i = n - 1;
        unreachable_blocks(f, dev, vb, i) + if i <= f.block_allocator.spec_max_index()
            && bit_set(dev, f.block_allocator.start_block() as int, i) && !vb.contains(i) {
            seq![V1IntegrityError::UnreachableData(UnreachableDataData::Data { ind: i as u32 })]
        } else {
            Seq::empty()
        }
    }
}

/// What the check of the whole filesystem reports: the counter errors, the
/// errors of the walk from the root, then, where fewer inodes (blocks) were
/// met than the bitmap marks, those marked and not met. `None` where the
/// walk reaches past the inode table.
pub open spec fn integrity_errors(f: FormatV1, dev: Seq<Seq<u8>>) -> Option<Seq<V1IntegrityError>> {
    let ia = f.inode_allocator;
    let ba = f.block_allocator;
    let inodes = count_set(dev, ia.start_block() as int, 0, spec_min(ia.bitmap_blocks() * 2048, ia.spec_max_index() as int));
    let blocks = count_set(dev, ba.start_block() as int, 0, spec_min(ba.bitmap_blocks() * 2048, ba.spec_max_index() as int));
    match recursive_check(f, dev, f.superblock.root_inode, Set::empty(), Set::empty(), ia.spec_max_index() as nat) {
        None => None,
        Some((errs, vi, vb)) => Some(metadata_errors(f, inodes as int, blocks as int) + errs
            + (if inodes > vi.len() { unreachable_inodes(f, dev, vi, ia.spec_max_index() as int) } else { Seq::empty() })
            + (if blocks != vb.len() { unreachable_blocks(f, dev, vb, ba.spec_max_index() as int) } else { Seq::empty() })),
    }
}

/// The number of direct slots of inode `n` that the check looks at.
pub open spec fn checked_slots(n: INode) -> int {
    if n.blocks > 12 { 12 } else { n.blocks as int }
}

/// Block `x` lies in the data region and its bit is set.
pub open spec fn block_in_use(f: FormatV1, dev: Seq<Seq<u8>>, x: u32) -> bool {
    x < f.block_allocator.spec_max_index() && bit_set(dev, f.block_allocator.start_block() as int, x as int)
}

/// The check of the direct slots of an inode keeps the blocks met before and
/// adds every block in use that a slot from the `i`-th on holds.
proof fn lemma_blocks_check_marks(f: FormatV1, dev: Seq<Seq<u8>>, ind: u32, n: INode, i: int, seen: Set<int>)
    requires
        0 <= i,
    ensures
        seen.subset_of(blocks_check(f, dev, ind, n, i, seen).1),
        forall|j: int| i <= j < checked_slots(n) && block_in_use(f, dev, #[trigger] n.direct@[j])
            ==> blocks_check(f, dev, ind, n, i, seen).1.contains(n.direct@[j] as int),
    decreases 12 - i,
{
    if i < checked_slots(n) {
        let block = n.direct@[i];
        let next = if data_block_used(f, dev, block) { seen.insert(block as int) } else { seen };
        lemma_blocks_check_marks(f, dev, ind, n, i + 1, next);
    }
}

/// A slot, from the `i`-th on, that holds a block in use already met is
/// reported as a double reference.
proof fn lemma_blocks_check_double(f: FormatV1, dev: Seq<Seq<u8>>, ind: u32, n: INode, i: int, seen: Set<int>, j: int, x: u32)
    requires
        0 <= i <= j < checked_slots(n),
        n.direct@[j] == x,
        block_in_use(f, dev, x),
        seen.contains(x as int),
    ensures
        blocks_check(f, dev, ind, n, i, seen).0.contains(V1IntegrityError::DoubleReference(DoubleReferenceData { block: x })),
    decreases j - i,
{
    let dr = V1IntegrityError::DoubleReference(DoubleReferenceData { block: x });
    let block = n.direct@[i];
    let next = if data_block_used(f, dev, block) { seen.insert(block as int) } else { seen };
    let here = data_block_errors(f, dev, ind, i as u32, block, seen);
    let rest = blocks_check(f, dev, ind, n, i + 1, next);
    assert(blocks_check(f, dev, ind, n, i, seen).0 == here + rest.0);
    if i == j {
        assert(here == seq![dr]);
        assert((here + rest.0)[0] == dr);
    } else {
        lemma_blocks_check_double(f, dev, ind, n, i + 1, next, j, x);
        let k = choose|k: int| 0 <= k < rest.0.len() && rest.0[k] == dr;
        assert((here + rest.0)[here.len() + k] == dr);
    }
}

/// `a + b` holds what `b` holds.
proof fn lemma_contains_suffix(a: Seq<V1IntegrityError>, b: Seq<V1IntegrityError>, e: V1IntegrityError)
    requires
        b.contains(e),
    ensures
        (a + b).contains(e),
{
    let k = choose|k: int| 0 <= k < b.len() && b[k] == e;
    assert((a + b)[a.len() + k] == e);
}

/// `a + b` holds what `a` holds.
proof fn lemma_contains_prefix(a: Seq<V1IntegrityError>, b: Seq<V1IntegrityError>, e: V1IntegrityError)
    requires
        a.contains(e),
    ensures
        (a + b).contains(e),
{
    let k = choose|k: int| 0 <= k < a.len() && a[k] == e;
    assert((a + b)[k] == e);
}

/// Checking the files `others[k..]` after block `x` was met reports a
/// double reference for it when the file `others[k2]` holds it too.
proof fn lemma_others_seen(f: FormatV1, dev: Seq<Seq<u8>>, others: Seq<u32>, k: int, vi: Set<int>, vb: Set<int>,
    k2: int, j2: int, x: u32)
    requires
        0 <= k <= k2 < others.len(),
        forall|m: int| k <= m <= k2 ==> #[trigger] others[m] < f.inode_handler.max_inodes(),
        0 <= j2 < checked_slots(inode_at(dev, f.superblock.inode_table_start as int, others[k2] as int)),
        inode_at(dev, f.superblock.inode_table_start as int, others[k2] as int).direct@[j2] == x,
        block_in_use(f, dev, x),
        vb.contains(x as int),
    ensures
        others_check(f, dev, others, k, vi, vb) matches Some((e, _, _))
            ==> e.contains(V1IntegrityError::DoubleReference(DoubleReferenceData { block: x })),
    decreases k2 - k,
{
    let dr = V1IntegrityError::DoubleReference(DoubleReferenceData { block: x });
    let ind = others[k];
    let n = inode_at(dev, f.superblock.inode_table_start as int, ind as int);
    let c = blocks_check(f, dev, ind, n, 0, vb);
    let head = alloc_errors(f, dev, ind) + inode_type_errors(ind, n, FileType::File) + c.0;
    let rest = others_check(f, dev, others, k + 1, alloc_marks(f, dev, ind, vi), c.1);
    assert(others_check(f, dev, others, k, vi, vb) == prepend(head, rest));
    if k == k2 {
        lemma_blocks_check_double(f, dev, ind, n, 0, vb, j2, x);
        if let Some((e, _, _)) = rest {
            lemma_contains_suffix(alloc_errors(f, dev, ind) + inode_type_errors(ind, n, FileType::File), c.0, dr);
            lemma_contains_prefix(head, e, dr);
        }
    } else {
        lemma_blocks_check_marks(f, dev, ind, n, 0, vb);
        lemma_others_seen(f, dev, others, k + 1, alloc_marks(f, dev, ind, vi), c.1, k2, j2, x);
        if let Some((e, _, _)) = rest {
            lemma_contains_suffix(head, e, dr);
        }
    }
}

/// Two files of a directory that hold the same data block in use, in direct
/// slots, make the check of their files report a double reference for it,
/// whatever blocks were met before.
pub proof fn law_shared_block_reported(f: FormatV1, dev: Seq<Seq<u8>>, others: Seq<u32>, vi: Set<int>, vb: Set<int>,
    k1: int, k2: int, j1: int, j2: int, x: u32)
    requires
        0 <= k1 < k2 < others.len(),
        forall|m: int| 0 <= m <= k2 ==> #[trigger] others[m] < f.inode_handler.max_inodes(),
        0 <= j1 < checked_slots(inode_at(dev, f.superblock.inode_table_start as int, others[k1] as int)),
        0 <= j2 < checked_slots(inode_at(dev, f.superblock.inode_table_start as int, others[k2] as int)),
        inode_at(dev, f.superblock.inode_table_start as int, others[k1] as int).direct@[j1] == x,
        inode_at(dev, f.superblock.inode_table_start as int, others[k2] as int).direct@[j2] == x,
        block_in_use(f, dev, x),
    ensures
        others_check(f, dev, others, 0, vi, vb) matches Some((e, _, _))
            ==> e.contains(V1IntegrityError::DoubleReference(DoubleReferenceData { block: x })),
{
    lemma_others_shared(f, dev, others, 0, vi, vb, k1, k2, j1, j2, x);
}

proof fn lemma_others_shared(f: FormatV1, dev: Seq<Seq<u8>>, others: Seq<u32>, k: int, vi: Set<int>, vb: Set<int>,
    k1: int, k2: int, j1: int, j2: int, x: u32)
    requires
        0 <= k <= k1 < k2 < others.len(),
        forall|m: int| k <= m <= k2 ==> #[trigger] others[m] < f.inode_handler.max_inodes(),
        0 <= j1 < checked_slots(inode_at(dev, f.superblock.inode_table_start as int, others[k1] as int)),
        0 <= j2 < checked_slots(inode_at(dev, f.superblock.inode_table_start as int, others[k2] as int)),
        inode_at(dev, f.superblock.inode_table_start as int, others[k1] as int).direct@[j1] == x,
        inode_at(dev, f.superblock.inode_table_start as int, others[k2] as int).direct@[j2] == x,
        block_in_use(f, dev, x),
    ensures
        others_check(f, dev, others, k, vi, vb) matches Some((e, _, _))
            ==> e.contains(V1IntegrityError::DoubleReference(DoubleReferenceData { block: x })),
    decreases k1 - k,
{
    let dr = V1IntegrityError::DoubleReference(DoubleReferenceData { block: x });
    let ind = others[k];
    let n = inode_at(dev, f.superblock.inode_table_start as int, ind as int);
    let c = blocks_check(f, dev, ind, n, 0, vb);
    let head = alloc_errors(f, dev, ind) + inode_type_errors(ind, n, FileType::File) + c.0;
    let rest = others_check(f, dev, others, k + 1, alloc_marks(f, dev, ind, vi), c.1);
    assert(others_check(f, dev, others, k, vi, vb) == prepend(head, rest));
    if k == k1 {
        lemma_blocks_check_marks(f, dev, ind, n, 0, vb);
        lemma_others_seen(f, dev, others, k + 1, alloc_marks(f, dev, ind, vi), c.1, k2, j2, x);
    } else {
        lemma_others_shared(f, dev, others, k + 1, alloc_marks(f, dev, ind, vi), c.1, k1, k2, j1, j2, x);
    }
    if let Some((e, _, _)) = rest {
        lemma_contains_suffix(head, e, dr);
    }
}

/// The whole check reports a double reference for a data block in use that
/// two files of the root directory hold in direct slots.
pub proof fn law_check_reports_shared_block(f: FormatV1, dev: Seq<Seq<u8>>, k1: int, k2: int, j1: int, j2: int, x: u32)
    requires
        f.superblock.root_inode < f.inode_handler.max_inodes(),
        ({
            let root = f.superblock.root_inode;
            let files = dir_blocks_check(f, dev, root, inode_at(dev, f.superblock.inode_table_start as int, root as int),
                0, Set::empty()).3;
            &&& 0 <= k1 < k2 < files.len()
            &&& forall|m: int| 0 <= m <= k2 ==> #[trigger] files[m] < f.inode_handler.max_inodes()
            &&& 0 <= j1 < checked_slots(inode_at(dev, f.superblock.inode_table_start as int, files[k1] as int))
            &&& 0 <= j2 < checked_slots(inode_at(dev, f.superblock.inode_table_start as int, files[k2] as int))
            &&& inode_at(dev, f.superblock.inode_table_start as int, files[k1] as int).direct@[j1] == x
            &&& inode_at(dev, f.superblock.inode_table_start as int, files[k2] as int).direct@[j2] == x
        }),
        block_in_use(f, dev, x),
    ensures
        integrity_errors(f, dev) matches Some(errs)
            ==> errs.contains(V1IntegrityError::DoubleReference(DoubleReferenceData { block: x })),
{
    let dr = V1IntegrityError::DoubleReference(DoubleReferenceData { block: x });
    let root = f.superblock.root_inode;
    let n = inode_at(dev, f.superblock.inode_table_start as int, root as int);
    let bc = dir_blocks_check(f, dev, root, n, 0, Set::empty());
    law_shared_block_reported(f, dev, bc.3, alloc_marks(f, dev, root, Set::empty()), bc.1, k1, k2, j1, j2, x);
    lemma_root_errors_hold(f, dev, dr);
}

/// The check of the blocks of a directory keeps the blocks met before and
/// adds every block in use that a slot from the `i`-th on holds.
proof fn lemma_dir_blocks_check_marks(f: FormatV1, dev: Seq<Seq<u8>>, dir: u32, n: INode, i: int, vb: Set<int>)
    requires
        0 <= i,
    ensures
        vb.subset_of(dir_blocks_check(f, dev, dir, n, i, vb).1),
        forall|j: int| i <= j < checked_slots(n) && block_in_use(f, dev, #[trigger] n.direct@[j])
            ==> dir_blocks_check(f, dev, dir, n, i, vb).1.contains(n.direct@[j] as int),
    decreases 12 - i,
{
    if i < checked_slots(n) {
        let block = n.direct@[i];
        let next = if data_block_used(f, dev, block) { vb.insert(block as int) } else { vb };
        lemma_dir_blocks_check_marks(f, dev, dir, n, i + 1, next);
    }
}

/// The whole check reports a double reference for a data block in use that
/// the root directory holds in a direct slot and one of its files holds too.
pub proof fn law_check_reports_block_of_root_and_file(f: FormatV1, dev: Seq<Seq<u8>>, j1: int, k2: int, j2: int, x: u32)
    requires
        f.superblock.root_inode < f.inode_handler.max_inodes(),
        ({
            let root = f.superblock.root_inode;
            let n = inode_at(dev, f.superblock.inode_table_start as int, root as int);
            let files = dir_blocks_check(f, dev, root, n, 0, Set::empty()).3;
            &&& 0 <= j1 < checked_slots(n)
            &&& n.direct@[j1] == x
            &&& 0 <= k2 < files.len()
            &&& forall|m: int| 0 <= m <= k2 ==> #[trigger] files[m] < f.inode_handler.max_inodes()
            &&& 0 <= j2 < checked_slots(inode_at(dev, f.superblock.inode_table_start as int, files[k2] as int))
            &&& inode_at(dev, f.superblock.inode_table_start as int, files[k2] as int).direct@[j2] == x
        }),
        block_in_use(f, dev, x),
    ensures
        integrity_errors(f, dev) matches Some(errs)
            ==> errs.contains(V1IntegrityError::DoubleReference(DoubleReferenceData { block: x })),
{
    let dr = V1IntegrityError::DoubleReference(DoubleReferenceData { block: x });
    let root = f.superblock.root_inode;
    let n = inode_at(dev, f.superblock.inode_table_start as int, root as int);
    let bc = dir_blocks_check(f, dev, root, n, 0, Set::empty());
    let vi0 = alloc_marks(f, dev, root, Set::empty());
    lemma_dir_blocks_check_marks(f, dev, root, n, 0, Set::empty());
    lemma_others_seen(f, dev, bc.3, 0, vi0, bc.1, k2, j2, x);
    lemma_root_errors_hold(f, dev, dr);
}

/// An error that the check of the files of the root directory reports is
/// among the errors of the whole check.
proof fn lemma_root_errors_hold(f: FormatV1, dev: Seq<Seq<u8>>, dr: V1IntegrityError)
    requires
        f.superblock.root_inode < f.inode_handler.max_inodes(),
        ({
            let root = f.superblock.root_inode;
            let n = inode_at(dev, f.superblock.inode_table_start as int, root as int);
            let bc = dir_blocks_check(f, dev, root, n, 0, Set::empty());
            others_check(f, dev, bc.3, 0, alloc_marks(f, dev, root, Set::empty()), bc.1) matches Some((e, _, _))
                ==> e.contains(dr)
        }),
    ensures
        integrity_errors(f, dev) matches Some(errs) ==> errs.contains(dr),
{
    let root = f.superblock.root_inode;
    let n = inode_at(dev, f.superblock.inode_table_start as int, root as int);
    let bc = dir_blocks_check(f, dev, root, n, 0, Set::empty());
    let vi0 = alloc_marks(f, dev, root, Set::empty());
    let depth = f.inode_allocator.spec_max_index() as nat;
    if let Some((oe, vi2, vb2)) = others_check(f, dev, bc.3, 0, vi0, bc.1) {
        let t = if n.file_type == FileType::Unknown {
            seq![V1IntegrityError::InvalidInode(InvalidInodeData::FileTypeUnknown { inode: root })]
        } else if n.file_type != FileType::Directory {
            seq![V1IntegrityError::MismatchedFileType(MismatchedFileTypeData {
                actual: n.file_type, expected: FileType::Directory, inode: root })]
        } else {
            Seq::empty()
        };
        let head = alloc_errors(f, dev, root) + t + bc.0 + oe;
        lemma_contains_suffix(alloc_errors(f, dev, root) + t + bc.0, oe, dr);
        let tail = if depth > 0 { dirs_check(f, dev, bc.2, 0, vi2, vb2, depth) } else { Some((Seq::empty(), vi2, vb2)) };
        assert(recursive_check(f, dev, root, Set::empty(), Set::empty(), depth) == prepend(head, tail));
        if let Some((rest, vi3, vb3)) = tail {
            lemma_contains_prefix(head, rest, dr);
            let ia = f.inode_allocator;
            let ba = f.block_allocator;
            let inodes = count_set(dev, ia.start_block() as int, 0, spec_min(ia.bitmap_blocks() * 2048, ia.spec_max_index() as int));
            let blocks = count_set(dev, ba.start_block() as int, 0, spec_min(ba.bitmap_blocks() * 2048, ba.spec_max_index() as int));
            let errs = head + rest;
            lemma_contains_suffix(metadata_errors(f, inodes as int, blocks as int), errs, dr);
            let a = metadata_errors(f, inodes as int, blocks as int) + errs;
            let ui = if inodes > vi3.len() { unreachable_inodes(f, dev, vi3, ia.spec_max_index() as int) } else { Seq::empty() };
            let ub = if blocks != vb3.len() { unreachable_blocks(f, dev, vb3, ba.spec_max_index() as int) } else { Seq::empty() };
            lemma_contains_prefix(a, ui, dr);
            lemma_contains_prefix(a + ui, ub, dr);
        }
    }
}

impl FormatV1 {
    /// Checks directory `dir_inode_ind` and, below it, every file and
    /// directory it holds (down to `depth` levels): inodes, entries, data
    /// blocks. A directory already met is not entered again. Possible
    /// errors: `InvalidInode(*)`, `UnallocatedData(*)`, `DoubleReference`,
    /// `InvalidDirectoryEntry(*)`, `MismatchedFileType`, `InvalidDirectoryStructure(*)`.
    #[verifier::rlimit(100)]
    fn check_integrity_recursive<D: BlockDevice>(&self, device: &mut D, dir_inode_ind: u32,
        visited_inodes: &mut IntegrityCheckerBitmap, visited_blocks: &mut IntegrityCheckerBitmap, depth: u32)
        -> (r: FSResult<Vec<V1IntegrityError>>)
        requires
            self.wf(),
            self.fits(old(device).blocks().len() as int),
            old(device).inv(),
            visits_ok(self, &*old(visited_inodes), &*old(visited_blocks)),
        ensures
            final(device).inv(),
            final(device).blocks() == old(device).blocks(),
            visits_ok(self, &*final(visited_inodes), &*final(visited_blocks)),
            r matches Err(e) ==> e.is_device_error() || e is InvalidInput,
            r matches Err(e) ==> e.is_device_error() || recursive_check(*self, old(device).blocks(), dir_inode_ind,
                old(visited_inodes).marked(), old(visited_blocks).marked(), depth as nat) is None,
            r matches Ok(v) ==> recursive_check(*self, old(device).blocks(), dir_inode_ind, old(visited_inodes).marked(),
                old(visited_blocks).marked(), depth as nat) == Some((v@, final(visited_inodes).marked(), final(visited_blocks).marked())),
        decreases depth,
    {
        let ghost dev = device.blocks();
        let ghost vi0 = visited_inodes.marked();
        let ghost vb0 = visited_blocks.marked();
        let mut result: Vec<V1IntegrityError> = Vec::new();

        // the inode of the directory is allocated
        let res = match self.check_integrity_inode_allocation(device, dir_inode_ind, visited_inodes) {
            Ok(v) => v,
            Err(e) => { return Err(e); },
        };
        // its contents can still be checked: the error is only reported
        append_errors(&mut result, res);
        assert(result@ =~= alloc_errors(*self, dev, dir_inode_ind));
        assert(visited_inodes.marked() == alloc_marks(*self, dev, dir_inode_ind, vi0));

        proof {
            device.lemma_inv_well_sized();
            self.lemma_on_device(device.blocks());
        }
        let dir_inode = match self.inode_handler.read_inode(device, dir_inode_ind) {
            Ok(n) => n,
            Err(e) => { return Err(e); },
        };
        if dir_inode.file_type == FileType::Unknown {
            result.push(V1IntegrityError::InvalidInode(InvalidInodeData::FileTypeUnknown { inode: dir_inode_ind }));
        } else if dir_inode.file_type != FileType::Directory {
            result.push(V1IntegrityError::MismatchedFileType(MismatchedFileTypeData {
                actual: dir_inode.file_type, expected: FileType::Directory, inode: dir_inode_ind }));
        }
        let ghost base = result@;
        let ghost bc = dir_blocks_check(*self, dev, dir_inode_ind, dir_inode, 0, vb0);

        let mut child_dirs: Vec<u32> = Vec::new();
        let mut child_others: Vec<u32> = Vec::new();
        let n = if dir_inode.blocks > 12 { 12 } else { dir_inode.blocks };
        let mut i: u32 = 0;
        while i < n
            invariant
                self.wf(),
                self.fits(old(device).blocks().len() as int),
                device.inv(),
                device.blocks() == old(device).blocks(),
                dev == old(device).blocks(),
                visits_ok(self, &*visited_inodes, &*visited_blocks),
                n <= 12,
                n == (if dir_inode.blocks > 12 { 12int } else { dir_inode.blocks as int }),
                0 <= i <= n,
                visited_inodes.marked() == alloc_marks(*self, dev, dir_inode_ind, vi0),
                bc == dir_blocks_check(*self, dev, dir_inode_ind, dir_inode, 0, vb0),
                ({
                    let cur = dir_blocks_check(*self, dev, dir_inode_ind, dir_inode, i as int, visited_blocks.marked());
                    &&& base + bc.0 == result@ + cur.0
                    &&& bc.1 == cur.1
                    &&& bc.2 == child_dirs@ + cur.2
                    &&& bc.3 == child_others@ + cur.3
                }),
            decreases n - i,
        {
            let block_ind = dir_inode.direct[i as usize];
            let ghost r0 = result@;
            let ghost mk = visited_blocks.marked();
            let ghost d0 = child_dirs@;
            let ghost o0 = child_others@;
            // unallocated directory blocks are not parsed: they may hold garbage
            let allocated = match self.check_integrity_data_block(device, dir_inode_ind, i, block_ind, visited_blocks, &mut result) {
                Ok(b) => b,
                Err(e) => { return Err(e); },
            };
            let ghost r1 = result@;
            if allocated {
                let res = match self.check_integrity_entries_in_block(device, block_ind, i == 0, dir_inode_ind,
                    &mut child_dirs, &mut child_others) {
                    Ok(v) => v,
                    Err(e) => { return Err(e); },
                };
                append_errors(&mut result, res);
            }
            proof {
                let e = data_block_errors(*self, dev, dir_inode_ind, i, block_ind, mk);
                let used = data_block_used(*self, dev, block_ind);
                let ec = if used {
                    entries_check(*self, dev[self.superblock.data_start + block_ind], block_ind, i == 0, dir_inode_ind, 0, 0, false, 0, 256)
                } else {
                    (Seq::empty(), Seq::empty(), Seq::empty())
                };
                let rest = dir_blocks_check(*self, dev, dir_inode_ind, dir_inode, i as int + 1, visited_blocks.marked());
                let cur = dir_blocks_check(*self, dev, dir_inode_ind, dir_inode, i as int, mk);
                assert(cur == (e + ec.0 + rest.0, rest.1, ec.1 + rest.2, ec.2 + rest.3));
                assert(result@ =~= r0 + e + ec.0);
                assert(child_dirs@ =~= d0 + ec.1);
                assert(child_others@ =~= o0 + ec.2);
                assert(r0 + (e + ec.0 + rest.0) =~= (r0 + e + ec.0) + rest.0);
                assert(d0 + (ec.1 + rest.2) =~= (d0 + ec.1) + rest.2);
                assert(o0 + (ec.2 + rest.3) =~= (o0 + ec.2) + rest.3);
            }
            i = i + 1;
        }
        proof {
            let cur = dir_blocks_check(*self, dev, dir_inode_ind, dir_inode, i as int, visited_blocks.marked());
            assert(cur.0 =~= Seq::<V1IntegrityError>::empty());
            assert(result@ =~= base + bc.0);
            assert(child_dirs@ =~= bc.2);
            assert(child_others@ =~= bc.3);
        }
        let ghost base2 = result@;
        let ghost vi1 = visited_inodes.marked();
        let ghost vb1 = visited_blocks.marked();
        let ghost oc = others_check(*self, dev, bc.3, 0, vi1, vb1);

        let mut k: usize = 0;
        while k < child_others.len()
            invariant
                self.wf(),
                self.fits(old(device).blocks().len() as int),
                device.inv(),
                device.blocks() == old(device).blocks(),
                dev == old(device).blocks(),
                visits_ok(self, &*visited_inodes, &*visited_blocks),
                0 <= k <= child_others@.len(),
                child_others@ == bc.3,
                base2.len() <= result@.len(),
                result@.subrange(0, base2.len() as int) == base2,
                oc == others_check(*self, dev, bc.3, 0, vi1, vb1),
                vi1 == alloc_marks(*self, dev, dir_inode_ind, vi0),
                vb1 == bc.1,
                vi0 == old(visited_inodes).marked(),
                vb0 == old(visited_blocks).marked(),
                bc == dir_blocks_check(*self, dev, dir_inode_ind, dir_inode, 0, vb0),
                dir_inode == inode_at(dev, self.superblock.inode_table_start as int, dir_inode_ind as int),
                dir_inode_ind < self.inode_handler.max_inodes(),
                oc == prepend(result@.subrange(base2.len() as int, result@.len() as int),
                    others_check(*self, dev, bc.3, k as int, visited_inodes.marked(), visited_blocks.marked())),
            decreases child_others@.len() - k,
        {
            let inode_ind = child_others[k];
            let ghost r0 = result@;
            let ghost vik = visited_inodes.marked();
            let ghost vbk = visited_blocks.marked();
            let res = match self.check_integrity_inode_allocation(device, inode_ind, visited_inodes) {
                Ok(v) => v,
                Err(e) => { return Err(e); },
            };
            append_errors(&mut result, res);
            let res = match self.check_integrity_inode(device, inode_ind, visited_blocks, FileType::File) {
                Ok(v) => v,
                Err(e) => {
                    proof {
                        if !e.is_device_error() {
                            assert(others_check(*self, dev, bc.3, k as int, vik, vbk) is None);
                            assert(oc is None);
                            assert(vi1 == alloc_marks(*self, dev, dir_inode_ind, vi0));
                            assert(vb1 == bc.1);
                            assert(recursive_check(*self, dev, dir_inode_ind, vi0, vb0, depth as nat) is None);
                        }
                    }
                    return Err(e);
                },
            };
            append_errors(&mut result, res);
            proof {
                let nd = inode_at(dev, self.superblock.inode_table_start as int, inode_ind as int);
                let c = blocks_check(*self, dev, inode_ind, nd, 0, vbk);
                let here = alloc_errors(*self, dev, inode_ind) + inode_type_errors(inode_ind, nd, FileType::File) + c.0;
                let acc0 = r0.subrange(base2.len() as int, r0.len() as int);
                assert(result@ =~= r0 + here);
                assert(result@.subrange(0, base2.len() as int) =~= base2);
                assert(result@.subrange(base2.len() as int, result@.len() as int) =~= acc0 + here);
                let nxt = others_check(*self, dev, bc.3, k as int + 1, visited_inodes.marked(), visited_blocks.marked());
                assert(others_check(*self, dev, bc.3, k as int, vik, vbk) == prepend(here, nxt));
                match nxt {
                    Some((rr, x, y)) => { assert(acc0 + (here + rr) =~= (acc0 + here) + rr); },
                    None => {},
                }
            }
            k = k + 1;
        }
        let ghost base3 = result@;
        let ghost vi2 = visited_inodes.marked();
        let ghost vb2 = visited_blocks.marked();
        proof {
            let acc = result@.subrange(base2.len() as int, result@.len() as int);
            assert(others_check(*self, dev, bc.3, k as int, vi2, vb2) == Some((Seq::<V1IntegrityError>::empty(), vi2, vb2)));
            assert(acc + Seq::<V1IntegrityError>::empty() =~= acc);
            assert(oc == Some((acc, vi2, vb2)));
            assert(result@ =~= base2 + acc);
        }

        if depth > 0 {
            let ghost dc = dirs_check(*self, dev, bc.2, 0, vi2, vb2, depth as nat);
            let mut k: usize = 0;
            while k < child_dirs.len()
                invariant
                    self.wf(),
                    self.fits(old(device).blocks().len() as int),
                    device.inv(),
                    device.blocks() == old(device).blocks(),
                    dev == old(device).blocks(),
                    visits_ok(self, &*visited_inodes, &*visited_blocks),
                    0 <= k <= child_dirs@.len(),
                    depth > 0,
                    child_dirs@ == bc.2,
                    base3.len() <= result@.len(),
                    result@.subrange(0, base3.len() as int) == base3,
                    dc == dirs_check(*self, dev, bc.2, 0, vi2, vb2, depth as nat),
                    vi1 == alloc_marks(*self, dev, dir_inode_ind, vi0),
                    vb1 == bc.1,
                    vi0 == old(visited_inodes).marked(),
                    vb0 == old(visited_blocks).marked(),
                    bc == dir_blocks_check(*self, dev, dir_inode_ind, dir_inode, 0, vb0),
                    dir_inode == inode_at(dev, self.superblock.inode_table_start as int, dir_inode_ind as int),
                    dir_inode_ind < self.inode_handler.max_inodes(),
                    oc == others_check(*self, dev, bc.3, 0, vi1, vb1),
                    oc matches Some((_, x, y)) && x == vi2 && y == vb2,
                    dc == prepend(result@.subrange(base3.len() as int, result@.len() as int),
                        dirs_check(*self, dev, bc.2, k as int, visited_inodes.marked(), visited_blocks.marked(), depth as nat)),
                decreases child_dirs@.len() - k,
            {
                let inode_ind = child_dirs[k];
                let ghost r0 = result@;
                let ghost vik = visited_inodes.marked();
                let ghost vbk = visited_blocks.marked();
                let seen = inode_ind < self.inode_allocator.max_index() && visited_inodes.visited(inode_ind);
                if !seen {
                    let res = match self.check_integrity_recursive(device, inode_ind, visited_inodes, visited_blocks, depth - 1) {
                        Ok(v) => v,
                        Err(e) => {
                            proof {
                                if !e.is_device_error() {
                                    assert(dirs_check(*self, dev, bc.2, k as int, vik, vbk, depth as nat) is None);
                                    assert(dc is None);
                                    assert(vi1 == alloc_marks(*self, dev, dir_inode_ind, vi0));
                                    assert(vb1 == bc.1);
                                    assert(recursive_check(*self, dev, dir_inode_ind, vi0, vb0, depth as nat) is None);
                                }
                            }
                            return Err(e);
                        },
                    };
                    append_errors(&mut result, res);
                    proof {
                        let here = res@;
                        let acc0 = r0.subrange(base3.len() as int, r0.len() as int);
                        assert(result@ =~= r0 + here);
                        assert(result@.subrange(0, base3.len() as int) =~= base3);
                        assert(result@.subrange(base3.len() as int, result@.len() as int) =~= acc0 + here);
                        let nxt = dirs_check(*self, dev, bc.2, k as int + 1, visited_inodes.marked(), visited_blocks.marked(), depth as nat);
                        assert(dirs_check(*self, dev, bc.2, k as int, vik, vbk, depth as nat) == prepend(here, nxt));
                        match nxt {
                            Some((rr, x, y)) => { assert(acc0 + (here + rr) =~= (acc0 + here) + rr); },
                            None => {},
                        }
                    }
                } else {
                    assert(dirs_check(*self, dev, bc.2, k as int, vik, vbk, depth as nat)
                        == dirs_check(*self, dev, bc.2, k as int + 1, vik, vbk, depth as nat));
                }
                k = k + 1;
            }
            proof {
                let acc = result@.subrange(base3.len() as int, result@.len() as int);
                assert(acc + Seq::<V1IntegrityError>::empty() =~= acc);
                assert(result@ =~= base3 + acc);
                assert(result@ =~= alloc_errors(*self, dev, dir_inode_ind) + (base.subrange(alloc_errors(*self, dev, dir_inode_ind).len() as int, base.len() as int)) + bc.0 + result@.subrange(base2.len() as int, base3.len() as int) + acc);
            }
        }
        proof {
            let t = base.subrange(alloc_errors(*self, dev, dir_inode_ind).len() as int, base.len() as int);
            assert(base =~= alloc_errors(*self, dev, dir_inode_ind) + t);
        }
        Ok(result)
    }

    /// Checks the whole filesystem: the free counters of the superblock
    /// against the bitmaps, every directory and file reachable from the root
    /// (entries start with `.` and `..`, used entries have minimal records,
    /// free regions are merged, file types agree, no invalid address, no
    /// block held twice), and that every allocated inode and block is
    /// reachable.
    pub fn check_integrity<D: BlockDevice>(&self, device: &mut D) -> (r: FSResult<IntegrityResult>)
        requires
            self.wf(),
            self.fits(old(device).blocks().len() as int),
            old(device).inv(),
        ensures
            final(device).inv(),
            final(device).blocks() == old(device).blocks(),
            match r {
                Ok(res) => {
                    let dev = old(device).blocks();
                    let ia = self.inode_allocator;
                    let ba = self.block_allocator;
                    let inodes = count_set(dev, ia.start_block() as int, 0, spec_min(ia.bitmap_blocks() * 2048, ia.spec_max_index() as int));
                    let blocks = count_set(dev, ba.start_block() as int, 0, spec_min(ba.bitmap_blocks() * 2048, ba.spec_max_index() as int));
                    let m = metadata_errors(*self, inodes as int, blocks as int);
                    &&& res.errors@.len() >= m.len() && res.errors@.take(m.len() as int) == m
                    &&& integrity_errors(*self, dev) == Some(res.errors@)
                },
                Err(e) => (e.is_device_error() || e is InvalidInput)
                    && (e.is_device_error() || integrity_errors(*self, old(device).blocks()) is None),
            },
    {
        let ghost dev = device.blocks();
        proof {
            device.lemma_inv_well_sized();
            self.lemma_on_device(dev);
        }
        let mut errors: Vec<V1IntegrityError> = Vec::new();

        // the set bits of the bitmaps
        let allocated_inodes = match self.inode_allocator.count_allocated(device) {
            Ok(n) => n,
            Err(e) => { return Err(e); },
        };
        let allocated_blocks = match self.block_allocator.count_allocated(device) {
            Ok(n) => n,
            Err(e) => { return Err(e); },
        };
        proof {
            let ia = self.inode_allocator;
            let ba = self.block_allocator;
            lemma_count_set_bound(dev, ia.start_block() as int, 0, spec_min(ia.bitmap_blocks() * 2048, ia.spec_max_index() as int));
            lemma_count_set_bound(dev, ba.start_block() as int, 0, spec_min(ba.bitmap_blocks() * 2048, ba.spec_max_index() as int));
        }
        let inode_count = self.superblock.inode_table_blocks * INode::inodes_per_block();
        let block_count = self.superblock.total_blocks - self.superblock.data_start;
        let free_inodes = inode_count - allocated_inodes;
        let free_blocks = block_count - allocated_blocks;

        // the counters of the superblock
        if self.superblock.free_inodes != free_inodes {
            errors.push(V1IntegrityError::InconsistentMetadata(InconsistentMetadataData::FreeInodes {
                actual: self.superblock.free_inodes, expected: free_inodes }));
        }
        if self.superblock.free_data != free_blocks {
            errors.push(V1IntegrityError::InconsistentMetadata(InconsistentMetadataData::FreeData {
                actual: self.superblock.free_data, expected: free_blocks }));
        }
        let ghost m = errors@;
        assert(m =~= metadata_errors(*self, allocated_inodes as int, allocated_blocks as int));

        // everything reachable from the root
        let mut visited_inodes = IntegrityCheckerBitmap::new(self.inode_allocator.max_index());
        let mut visited_blocks = IntegrityCheckerBitmap::new(self.block_allocator.max_index());
        let res = match self.check_integrity_recursive(device, self.superblock.root_inode, &mut visited_inodes,
            &mut visited_blocks, self.inode_allocator.max_index()) {
            Ok(v) => v,
            Err(e) => { return Err(e); },
        };
        append_errors(&mut errors, res);
        let ghost walked = errors@;
        let ghost vi = visited_inodes.marked();
        let ghost vb = visited_blocks.marked();
        assert(walked.take(m.len() as int) =~= m);

        // the allocated bits that were not met: only allocated bits are
        // marked, so fewer marks than allocated bits means some are unreachable
        if allocated_inodes > visited_inodes.count {
            let mut i: u32 = 0;
            while i < inode_count
                invariant
                    self.wf(),
                    self.fits(dev.len() as int),
                    device.inv(),
                    device.blocks() == dev,
                    dev == old(device).blocks(),
                    self.inode_allocator.on_device(dev),
                    self.block_allocator.on_device(dev),
                    visits_ok(self, &visited_inodes, &visited_blocks),
                    inode_count == self.inode_allocator.spec_max_index(),
                    0 <= i <= inode_count,
                    vi == visited_inodes.marked(),
                    walked.len() >= m.len(),
                    walked.take(m.len() as int) == m,
                    errors@ == walked + unreachable_inodes(*self, dev, vi, i as int),
                decreases inode_count - i,
            {
                let allocated = match self.inode_allocator.is_allocated(device, i) {
                    Ok(b) => b,
                    Err(e) => { return Err(e); },
                };
                if allocated && !visited_inodes.visited(i) {
                    errors.push(V1IntegrityError::UnreachableData(UnreachableDataData::INode { ind: i }));
                }
                assert(errors@ =~= walked + unreachable_inodes(*self, dev, vi, i + 1));
                i = i + 1;
            }
        }
        let ghost after_inodes = errors@;
        assert(after_inodes =~= walked + (if allocated_inodes > vi.len() {
            unreachable_inodes(*self, dev, vi, self.inode_allocator.spec_max_index() as int) } else { Seq::empty() }));
        if allocated_blocks != visited_blocks.count {
            let mut i: u32 = 0;
            while i < block_count
                invariant
                    self.wf(),
                    self.fits(dev.len() as int),
                    device.inv(),
                    device.blocks() == dev,
                    dev == old(device).blocks(),
                    self.inode_allocator.on_device(dev),
                    self.block_allocator.on_device(dev),
                    visits_ok(self, &visited_inodes, &visited_blocks),
                    block_count == self.block_allocator.spec_max_index(),
                    0 <= i <= block_count,
                    vb == visited_blocks.marked(),
                    walked.len() >= m.len(),
                    walked.take(m.len() as int) == m,
                    errors@ == after_inodes + unreachable_blocks(*self, dev, vb, i as int),
                decreases block_count - i,
            {
                let allocated = match self.block_allocator.is_allocated(device, i) {
                    Ok(b) => b,
                    Err(e) => { return Err(e); },
                };
                if allocated && !visited_blocks.visited(i) {
                    errors.push(V1IntegrityError::UnreachableData(UnreachableDataData::Data { ind: i }));
                }
                assert(errors@ =~= after_inodes + unreachable_blocks(*self, dev, vb, i + 1));
                i = i + 1;
            }
        }
        assert(errors@ =~= after_inodes + (if allocated_blocks != vb.len() {
            unreachable_blocks(*self, dev, vb, self.block_allocator.spec_max_index() as int) } else { Seq::empty() }));
        assert(errors@.take(m.len() as int) =~= m);
        Ok(IntegrityResult { errors })
    }
}

/// Whether the entry at `off` of `buf` can be read (its header and name lie
/// in the block and the name is no longer than an entry holds).
fn e_parsable_exec(buf: &[u8; BLOCK_SIZE], off: usize) -> (r: bool)
    requires
        off + 9 <= BLOCK_SIZE,
    ensures
        r == e_parsable(buf@, off as int),
{
    let name_len = read_u16(buf.as_slice(), off + 6) as usize;
    name_len <= 64 && off + 9 + name_len <= BLOCK_SIZE
}

} // verus!
