use vstd::prelude::*;
use crate::fs_utils::{BLOCK_SIZE, INVALID_ADDRESS, FileType, string_from_utf8};
use crate::fs_error::{FSError, FSErrorCode, FSResult, outcome_agrees, InvalidDirEntryKind, InvalidINodeKind, InvalidInputKind};
use crate::device::block_device::BlockDevice;
use super::inode::INode;
use super::inode_handler::{INodeTableHandler, inode_at};
use super::directory::{DirEntry, parsed_entry, free_entry};
use super::directory_handler::{DirectoryHandler, WalkEnd, search_dir, dir_on_device, walk_error};
use super::path::{path_components, path_is_absolute, components, SEPARATOR};
use vstd::utf8::{decode_utf8, valid_utf8};

verus! {

/// Where a path leads: the inode of the target and its index, the directory
/// that holds its entry, and that entry with the block (relative to the data
/// region) and offset where it lies.
pub struct ResolutionResult {
    pub target_inode: INode,
    pub target_inode_index: u32,
    pub parent_inode_index: u32,
    pub dir_entry: DirEntry,
    pub dir_entry_block_index: u32,
    pub dir_entry_offset: usize,
}

/// Symbolic links followed, at most, while resolving one path.
pub const MAX_SYMLINK_DEPTH: u32 = 40;

/// The entry stored at `off` of block `b`.
pub open spec fn entry_at(b: Seq<u8>, off: int) -> DirEntry {
    choose|e: DirEntry| parsed_entry(b, off, e)
}

/// The code of the error that ends a directory walk.
pub open spec fn walk_code(end: WalkEnd) -> FSErrorCode {
    match end {
        WalkEnd::Overfill => FSErrorCode::DirEntriesOverfillBlock,
        WalkEnd::ZeroLength => FSErrorCode::ZeroLengthDirEntry,
        WalkEnd::Unparsable => FSErrorCode::InvalidDirEntry,
        WalkEnd::TooManyBlocks => FSErrorCode::InvalidINode,
        WalkEnd::Clean => FSErrorCode::InvalidDir,
    }
}

/// Remaining symbolic links that may be followed at depth `it`.
pub open spec fn depth_left(it: int) -> nat {
    if it < 40 { (40 - it) as nat } else { 0 }
}

/// The result at the start of a resolution from directory `src`.
pub open spec fn start_at(dev: Seq<Seq<u8>>, ih: INodeTableHandler, src: u32) -> ResolutionResult {
    ResolutionResult {
        target_inode: inode_at(dev, ih.inode_table_start as int, src as int),
        target_inode_index: src,
        parent_inode_index: src,
        dir_entry: free_entry(0),
        dir_entry_block_index: 0,
        dir_entry_offset: 0,
    }
}

/// The outcome of resolving the path made of the components `comps` (from
/// the root when it is `absolute` and has no components, from directory
/// `src` otherwise), with `it` symbolic links already followed:
/// `Some(Ok(..))` for the target, `Some(Err(code))` for the error met first,
/// `None` where the outcome depends on blocks past the end of the device.
pub open spec fn resolve_spec(dev: Seq<Seq<u8>>, dh: DirectoryHandler, ih: INodeTableHandler, comps: Seq<Seq<u8>>,
    absolute: bool, src: u32, resolve_final: bool, it: int) -> Option<Result<ResolutionResult, FSErrorCode>>
    decreases depth_left(it), 2nat, 0nat,
{
    if src >= ih.max_inodes() {
        Some(Err(FSErrorCode::InputINodeIndexOOB))
    } else if comps.len() == 0 {
        if absolute {
            if dh.root_inode_ind >= ih.max_inodes() {
                Some(Err(FSErrorCode::InputINodeIndexOOB))
            } else {
                Some(Ok(start_at(dev, ih, dh.root_inode_ind)))
            }
        } else {
            Some(Ok(start_at(dev, ih, src)))
        }
    } else {
        walk_spec(dev, dh, ih, comps, 0, start_at(dev, ih, src), resolve_final, it)
    }
}

/// The outcome of resolving the path `path` (see `resolve_spec`).
pub open spec fn resolve_path_spec(dev: Seq<Seq<u8>>, dh: DirectoryHandler, ih: INodeTableHandler, path: Seq<u8>,
    src: u32, resolve_final: bool) -> Option<Result<ResolutionResult, FSErrorCode>> {
    resolve_spec(dev, dh, ih, path_components(path), path_is_absolute(path), src, resolve_final, 0)
}

/// The outcome of following the components `comps[i..]` from the state `st`.
pub open spec fn walk_spec(dev: Seq<Seq<u8>>, dh: DirectoryHandler, ih: INodeTableHandler, comps: Seq<Seq<u8>>,
    i: int, st: ResolutionResult, resolve_final: bool, it: int) -> Option<Result<ResolutionResult, FSErrorCode>>
    decreases depth_left(it), 1nat, (if i < comps.len() { comps.len() - i } else { 0 }) as nat,
{
    let ds = dh.data_start as int;
    if i < 0 || i >= comps.len() {
        Some(Ok(st))
    } else if !dir_on_device(dev, ds, st.target_inode) {
        None
    } else {
        match search_dir(dev, ds, st.target_inode, true, comps[i], 0, 0) {
            None => Some(Err(FSErrorCode::DoesNotExist)),
            Some(Err(end)) => Some(Err(walk_code(end))),
            Some(Ok((blk, off))) => {
                let e = entry_at(dev[ds + blk], off);
                let is_final = i == comps.len() - 1;
                if e.inode == INVALID_ADDRESS {
                    Some(Err(FSErrorCode::DirEntryInvalidINode))
                } else if e.inode >= ih.max_inodes() {
                    Some(Err(FSErrorCode::InputINodeIndexOOB))
                } else {
                    let n = inode_at(dev, ih.inode_table_start as int, e.inode as int);
                    if n.file_type == FileType::Symlink && (!is_final || resolve_final) {
                        if it >= 40 {
                            Some(Err(FSErrorCode::MaximumSymlinkDepthReached))
                        } else if n.size == 0 || n.blocks == 0 {
                            Some(Err(FSErrorCode::EmptySymlink))
                        } else {
                            match symlink_spec(dev, dh, ih, n, st.target_inode_index, it) {
                                None => None,
                                Some(Err(c)) => Some(Err(c)),
                                Some(Ok(res)) => {
                                    if res.target_inode.file_type != FileType::Directory && !is_final {
                                        Some(Err(FSErrorCode::NotADirectory))
                                    } else {
                                        walk_spec(dev, dh, ih, comps, i + 1, ResolutionResult {
                                            target_inode: res.target_inode,
                                            target_inode_index: res.target_inode_index,
                                            parent_inode_index: res.parent_inode_index,
                                            dir_entry: e,
                                            dir_entry_block_index: res.dir_entry_block_index,
                                            dir_entry_offset: res.dir_entry_offset,
                                        }, resolve_final, it)
                                    }
                                },
                            }
                        }
                    } else if n.file_type == FileType::Directory || is_final {
                        walk_spec(dev, dh, ih, comps, i + 1, ResolutionResult {
                            target_inode: n,
                            target_inode_index: e.inode,
                            parent_inode_index: st.target_inode_index,
                            dir_entry: e,
                            dir_entry_block_index: blk,
                            dir_entry_offset: off as usize,
                        }, resolve_final, it)
                    } else {
                        Some(Err(FSErrorCode::NotADirectory))
                    }
                }
            },
        }
    }
}

/// The outcome of following the symbolic link `n` found in directory
/// `parent`: its target path is the first `size` bytes of its first data
/// block, resolved from the root when absolute and from `parent` otherwise.
pub open spec fn symlink_spec(dev: Seq<Seq<u8>>, dh: DirectoryHandler, ih: INodeTableHandler, n: INode,
    parent: u32, it: int) -> Option<Result<ResolutionResult, FSErrorCode>>
    decreases depth_left(it), 0nat, 0nat,
{
    let addr = dh.data_start + n.direct@[0];
    if n.size > BLOCK_SIZE {
        Some(Err(FSErrorCode::INodeSizeGreaterThanAllocatedRegion))
    } else if addr > u32::MAX {
        Some(Err(FSErrorCode::InputBlockIndexOOB))
    } else if addr >= dev.len() || it >= 40 {
        None
    } else {
        let target = dev[addr].subrange(0, n.size as int);
        let from = if path_is_absolute(target) { dh.root_inode_ind } else { parent };
        resolve_spec(dev, dh, ih, path_components(target), path_is_absolute(target), from, true, it + 1)
    }
}

pub proof fn lemma_entry_at(b: Seq<u8>, off: int, e: DirEntry)
    requires
        parsed_entry(b, off, e),
    ensures
        entry_at(b, off) == e,
{
    let c = entry_at(b, off);
    assert(c.name@ =~= e.name@);
    assert(c.name == e.name);
}

pub proof fn lemma_walk_code(end: WalkEnd, err: FSError)
    requires
        walk_error(end, err),
    ensures
        err.spec_code() == walk_code(end),
{
}

/// Builds the text of a path from its first bytes (the components followed
/// so far, separated by `/`).
pub(crate) fn path_text(progress: &Vec<u8>) -> (r: String)
    ensures
        valid_utf8(progress@) ==> r@ == decode_utf8(progress@),
        !valid_utf8(progress@) ==> r@ == Seq::<char>::empty(),
{
    let bytes = progress.clone();
    assert(bytes@ =~= progress@);
    match string_from_utf8(bytes) {
        Some(s) => s,
        None => String::new(),
    }
}

impl DirectoryHandler {
    /// Follows the symbolic link `inode`, found in directory `parent_inode_ind`.
    fn resolve_symlink<D: BlockDevice>(&self, device: &mut D, inode: &INode, parent_inode_ind: u32,
        inode_handler: &INodeTableHandler, it: u32) -> (r: FSResult<ResolutionResult>)
        requires
            old(device).inv(),
            inode_handler.wf(),
            inode_handler.inode_table_start + inode_handler.inode_table_blocks <= old(device).blocks().len(),
            it < MAX_SYMLINK_DEPTH,
        ensures
            final(device).inv(),
            final(device).blocks() == old(device).blocks(),
            outcome_agrees(symlink_spec(old(device).blocks(), *self, *inode_handler, *inode, parent_inode_ind, it as int), r),
        decreases depth_left(it as int), 0nat,
    {
        let ghost dev = device.blocks();
        if inode.size > BLOCK_SIZE as u64 {
            return Err(FSError::InvalidINode(InvalidINodeKind::SizeGreaterThanAllocatedRegion));
        }
        let block_ind = match self.data_start.checked_add(inode.direct[0]) {
            Some(b) => b,
            None => { return Err(FSError::InvalidInput(InvalidInputKind::BlockIndexOOB)); },
        };
        let mut buf = [0u8; BLOCK_SIZE];
        match device.read_block(block_ind, &mut buf) {
            Err(e) => { return Err(e); },
            Ok(_) => {},
        }
        let size = inode.size as usize;
        let mut target: Vec<u8> = Vec::new();
        let mut k: usize = 0;
        while k < size
            invariant
                size <= BLOCK_SIZE,
                0 <= k <= size,
                target@ == buf@.subrange(0, k as int),
            decreases size - k,
        {
            target.push(buf[k]);
            k = k + 1;
            assert(target@ =~= buf@.subrange(0, k as int));
        }
        let absolute = target.len() > 0 && target[0] == SEPARATOR;
        let from = if absolute { self.root_inode_ind } else { parent_inode_ind };
        let comps = components(target.as_slice());
        assert(comps.deep_view().take(comps@.len() as int) =~= comps.deep_view());
        self.resolve_from(device, &comps, comps.len(), absolute, from, inode_handler, true, it + 1)
    }

    /// Resolves the path made of the first `n` components of `comps` (see
    /// `resolve_spec`) after `it` symbolic links were followed.
    pub fn resolve_from<D: BlockDevice>(&self, device: &mut D, comps: &Vec<Vec<u8>>, n: usize, absolute: bool, src: u32,
        inode_handler: &INodeTableHandler, resolve_final_symlink: bool, it: u32) -> (r: FSResult<ResolutionResult>)
        requires
            old(device).inv(),
            inode_handler.wf(),
            inode_handler.inode_table_start + inode_handler.inode_table_blocks <= old(device).blocks().len(),
            it <= MAX_SYMLINK_DEPTH,
            n <= comps@.len(),
        ensures
            final(device).inv(),
            final(device).blocks() == old(device).blocks(),
            outcome_agrees(resolve_spec(old(device).blocks(), *self, *inode_handler, comps.deep_view().take(n as int), absolute,
                src, resolve_final_symlink, it as int), r),
        decreases depth_left(it as int), 1nat,
    {
        let ghost dev = device.blocks();
        let ghost ih = *inode_handler;
        let cur0 = match inode_handler.read_inode(device, src) {
            Ok(x) => x,
            Err(e) => { return Err(e); },
        };
        let ghost cs = comps.deep_view().take(n as int);
        if n == 0 {
            if absolute {
                let root = self.root_inode_ind;
                let n = match inode_handler.read_inode(device, root) {
                    Ok(n) => n,
                    Err(e) => { return Err(e); },
                };
                return Ok(ResolutionResult {
                    target_inode: n, target_inode_index: root, parent_inode_index: root,
                    dir_entry: DirEntry::free(0), dir_entry_block_index: 0, dir_entry_offset: 0,
                });
            }
            return Ok(ResolutionResult {
                target_inode: cur0, target_inode_index: src, parent_inode_index: src,
                dir_entry: DirEntry::free(0), dir_entry_block_index: 0, dir_entry_offset: 0,
            });
        }
        let mut st = ResolutionResult {
            target_inode: cur0, target_inode_index: src, parent_inode_index: src,
            dir_entry: DirEntry::free(0), dir_entry_block_index: 0, dir_entry_offset: 0,
        };
        let ghost whole = walk_spec(dev, *self, ih, cs, 0, st, resolve_final_symlink, it as int);
        assert(resolve_spec(dev, *self, ih, cs, absolute, src, resolve_final_symlink, it as int) == whole);
        let mut progress: Vec<u8> = Vec::new();
        let mut i: usize = 0;
        while i < n
            invariant
                device.inv(),
                device.blocks() == dev,
                dev == old(device).blocks(),
                ih == *inode_handler,
                ih.wf(),
                ih.inode_table_start + ih.inode_table_blocks <= dev.len(),
                it <= MAX_SYMLINK_DEPTH,
                n == cs.len(),
                n <= comps@.len(),
                cs == comps.deep_view().take(n as int),
                0 <= i <= n,
                whole is Some ==> walk_spec(dev, *self, ih, cs, i as int, st, resolve_final_symlink, it as int) == whole,
                resolve_spec(dev, *self, ih, cs, absolute, src, resolve_final_symlink, it as int) == whole,
            decreases n - i,
        {
            let comp = comps[i].as_slice();
            assert(comp@ =~= cs[i as int]);
            if i > 0 {
                progress.push(SEPARATOR);
            }
            let mut k: usize = 0;
            while k < comp.len()
                invariant
                    0 <= k <= comp@.len(),
                decreases comp@.len() - k,
            {
                progress.push(comp[k]);
                k = k + 1;
            }
            let ghost here = walk_spec(dev, *self, ih, cs, i as int, st, resolve_final_symlink, it as int);
            let ghost sd = search_dir(dev, self.data_start as int, st.target_inode, true, cs[i as int], 0, 0);
            proof {
                if whole is Some {
                    assert(here == whole);
                    assert(dir_on_device(dev, self.data_start as int, st.target_inode));
                }
            }
            let found = match self.find_entry(device, &st.target_inode, comp) {
                Ok(f) => f,
                Err(e) => {
                    proof {
                        if whole is Some {
                            assert(e.is_device_error() || (sd matches Some(Err(end)) && walk_error(end, e)));
                            if let Some(Err(end)) = search_dir(dev, self.data_start as int, st.target_inode, true, cs[i as int], 0, 0) {
                                if walk_error(end, e) {
                                    lemma_walk_code(end, e);
                                }
                            }
                        }
                    }
                    return Err(e);
                },
            };
            let (entry, entry_block, entry_offset) = match found {
                None => {
                    assert(whole is Some ==> sd is None);
                    return Err(FSError::DoesNotExist { path: path_text(&progress) });
                },
                Some(t) => t,
            };
            proof {
                if whole is Some {
                    lemma_entry_at(dev[self.data_start + entry_block], entry_offset as int, entry);
                }
            }
            if entry.inode == INVALID_ADDRESS {
                return Err(FSError::InvalidDirEntry(InvalidDirEntryKind::InvalidINode));
            }
            let inode = match inode_handler.read_inode(device, entry.inode) {
                Ok(x) => x,
                Err(e) => { return Err(e); },
            };
            let is_final = i == n - 1;
            if inode.file_type == FileType::Symlink && (!is_final || resolve_final_symlink) {
                if it >= MAX_SYMLINK_DEPTH {
                    return Err(FSError::MaximumSymlinkDepthReached);
                }
                if inode.size == 0 || inode.blocks == 0 {
                    return Err(FSError::EmptySymlink { path: path_text(&progress) });
                }
                let res = match self.resolve_symlink(device, &inode, st.target_inode_index, inode_handler, it) {
                    Ok(x) => x,
                    Err(e) => { return Err(e); },
                };
                if res.target_inode.file_type != FileType::Directory && !is_final {
                    return Err(FSError::NotADirectory { path: path_text(&progress) });
                }
                st = ResolutionResult {
                    target_inode: res.target_inode,
                    target_inode_index: res.target_inode_index,
                    parent_inode_index: res.parent_inode_index,
                    dir_entry: entry,
                    dir_entry_block_index: res.dir_entry_block_index,
                    dir_entry_offset: res.dir_entry_offset,
                };
            } else if inode.file_type == FileType::Directory || is_final {
                st = ResolutionResult {
                    target_inode: inode,
                    target_inode_index: entry.inode,
                    parent_inode_index: st.target_inode_index,
                    dir_entry: entry,
                    dir_entry_block_index: entry_block,
                    dir_entry_offset: entry_offset,
                };
            } else {
                return Err(FSError::NotADirectory { path: path_text(&progress) });
            }
            i = i + 1;
        }
        Ok(st)
    }

    /// Resolves `path` from directory `src`: follows its components through
    /// the directories, and the symbolic links met on the way (the last
    /// component too when `resolve_final_symlink` is set). A path without
    /// components leads to `src`, or to the root when it is absolute.
    pub fn resolve<D: BlockDevice>(&self, device: &mut D, path: &[u8], src: u32,
        inode_handler: &INodeTableHandler, resolve_final_symlink: bool) -> (r: FSResult<ResolutionResult>)
        requires
            old(device).inv(),
            inode_handler.wf(),
            inode_handler.inode_table_start + inode_handler.inode_table_blocks <= old(device).blocks().len(),
        ensures
            final(device).inv(),
            final(device).blocks() == old(device).blocks(),
            outcome_agrees(resolve_path_spec(old(device).blocks(), *self, *inode_handler, path@, src, resolve_final_symlink), r),
    {
        let comps = components(path);
        assert(comps.deep_view().take(comps@.len() as int) =~= comps.deep_view());
        let absolute = path.len() > 0 && path[0] == SEPARATOR;
        self.resolve_from(device, &comps, comps.len(), absolute, src, inode_handler, resolve_final_symlink, 0)
    }
}

} // verus!
