//! What the resolution of a path reads of a device, and why a device that
//! keeps those parts gives the same resolution.
use vstd::prelude::*;
use crate::fs_utils::{BLOCK_SIZE, INVALID_ADDRESS, FileType};
use crate::fs_error::FSErrorCode;
use super::inode_handler::{INodeTableHandler, inode_at};
use super::directory_handler::{DirectoryHandler, search_dir, search_block, dir_on_device, WalkEnd, lemma_search_dir_block};
use super::resolver::{ResolutionResult, start_at, entry_at, resolve_spec, walk_spec, symlink_spec};
use super::path::{path_components, path_is_absolute};

verus! {

/// `r` with the inode of its target read from `dev`.
pub open spec fn retarget(r: Option<Result<ResolutionResult, FSErrorCode>>, dev: Seq<Seq<u8>>, ih: INodeTableHandler)
    -> Option<Result<ResolutionResult, FSErrorCode>> {
    match r {
        Some(Ok(a)) => Some(Ok(retarget_state(a, dev, ih))),
        other => other,
    }
}

/// `a` with the inode of its target read from `dev`.
pub open spec fn retarget_state(a: ResolutionResult, dev: Seq<Seq<u8>>, ih: INodeTableHandler) -> ResolutionResult {
    ResolutionResult {
        target_inode: inode_at(dev, ih.inode_table_start as int, a.target_inode_index as int),
        target_inode_index: a.target_inode_index,
        parent_inode_index: a.parent_inode_index,
        dir_entry: a.dir_entry,
        dir_entry_block_index: a.dir_entry_block_index,
        dir_entry_offset: a.dir_entry_offset,
    }
}

/// A result whose target is the inode that `dev` holds in the target's slot.
pub open spec fn targeted(r: Option<Result<ResolutionResult, FSErrorCode>>, dev: Seq<Seq<u8>>, ih: INodeTableHandler,
    bad: spec_fn(int) -> bool) -> bool {
    r matches Some(Ok(a)) ==> a.target_inode == inode_at(dev, ih.inode_table_start as int, a.target_inode_index as int)
        && !bad(a.target_inode_index as int) && a.target_inode_index < ih.max_inodes()
}

/// `fin` holds what `dev` holds in every inode slot that is not `bad` and is
/// not `last`, the type of the inode in slot `last`, and every block that is
/// not `bad_block`.
pub open spec fn agrees_outside(dev: Seq<Seq<u8>>, fin: Seq<Seq<u8>>, ih: INodeTableHandler, bad: spec_fn(int) -> bool,
    last: int, bad_block: spec_fn(int) -> bool) -> bool {
    let ts = ih.inode_table_start as int;
    &&& fin.len() == dev.len()
    &&& forall|x: int| 0 <= x < ih.max_inodes() && !bad(x) && x != last ==> #[trigger] inode_at(fin, ts, x) == inode_at(dev, ts, x)
    &&& 0 <= last < ih.max_inodes() ==> inode_at(fin, ts, last).file_type == inode_at(dev, ts, last).file_type
    &&& forall|y: int| 0 <= y < dev.len() && !bad_block(y) ==> #[trigger] fin[y] == dev[y]
}

/// The resolution that `resolve_spec` describes reads no inode slot that is
/// `bad`, reads the slot `last` only for its final target, and reads no block
/// that is `bad_block`.
pub open spec fn resolve_avoids(dev: Seq<Seq<u8>>, dh: DirectoryHandler, ih: INodeTableHandler, comps: Seq<Seq<u8>>,
    absolute: bool, src: u32, resolve_final: bool, it: int, bad: spec_fn(int) -> bool, last: int,
    bad_block: spec_fn(int) -> bool) -> bool
    decreases depth_left(it), 2nat, 0nat,
{
    if src >= ih.max_inodes() {
        true
    } else if comps.len() == 0 {
        if absolute {
            dh.root_inode_ind >= ih.max_inodes() || !bad(dh.root_inode_ind as int)
        } else {
            !bad(src as int)
        }
    } else {
        walk_avoids(dev, dh, ih, comps, 0, start_at(dev, ih, src), resolve_final, it, bad, last, bad_block)
    }
}

/// The walk that `walk_spec` describes reads no inode slot that is `bad`,
/// reads the slot `last` only for its final target, and reads no block that
/// is `bad_block`.
pub open spec fn walk_avoids(dev: Seq<Seq<u8>>, dh: DirectoryHandler, ih: INodeTableHandler, comps: Seq<Seq<u8>>,
    i: int, st: ResolutionResult, resolve_final: bool, it: int, bad: spec_fn(int) -> bool, last: int,
    bad_block: spec_fn(int) -> bool) -> bool
    decreases depth_left(it), 1nat, (if i < comps.len() { comps.len() - i } else { 0 }) as nat,
{
    let ds = dh.data_start as int;
    let dir = st.target_inode;
    if i < 0 || i >= comps.len() {
        true
    } else if bad(st.target_inode_index as int) || st.target_inode_index == last {
        false
    } else if !dir_on_device(dev, ds, dir) {
        true
    } else if !(forall|j: int| 0 <= j < dir.blocks && j < 12 ==> !bad_block(ds + #[trigger] dir.direct@[j])) {
        false
    } else {
        match search_dir(dev, ds, dir, true, comps[i], 0, 0) {
            Some(Ok((blk, off))) => {
                let e = entry_at(dev[ds + blk], off);
                let is_final = i == comps.len() - 1;
                if e.inode == INVALID_ADDRESS || e.inode >= ih.max_inodes() {
                    true
                } else if bad(e.inode as int) {
                    false
                } else {
                    let n = inode_at(dev, ih.inode_table_start as int, e.inode as int);
                    if n.file_type == FileType::Symlink && (!is_final || resolve_final) {
                        if e.inode == last {
                            false
                        } else if it >= 40 || n.size == 0 || n.blocks == 0 {
                            true
                        } else {
                            &&& symlink_avoids(dev, dh, ih, n, st.target_inode_index, it, bad, last, bad_block)
                            &&& match symlink_spec(dev, dh, ih, n, st.target_inode_index, it) {
                                Some(Ok(res)) => {
                                    if res.target_inode.file_type != FileType::Directory && !is_final {
                                        true
                                    } else {
                                        walk_avoids(dev, dh, ih, comps, i + 1, ResolutionResult {
                                            target_inode: res.target_inode,
                                            target_inode_index: res.target_inode_index,
                                            parent_inode_index: res.parent_inode_index,
                                            dir_entry: e,
                                            dir_entry_block_index: res.dir_entry_block_index,
                                            dir_entry_offset: res.dir_entry_offset,
                                        }, resolve_final, it, bad, last, bad_block)
                                    }
                                },
                                _ => true,
                            }
                        }
                    } else if n.file_type == FileType::Directory || is_final {
                        walk_avoids(dev, dh, ih, comps, i + 1, ResolutionResult {
                            target_inode: n,
                            target_inode_index: e.inode,
                            parent_inode_index: st.target_inode_index,
                            dir_entry: e,
                            dir_entry_block_index: blk,
                            dir_entry_offset: off as usize,
                        }, resolve_final, it, bad, last, bad_block)
                    } else {
                        true
                    }
                }
            },
            _ => true,
        }
    }
}

/// Following the symbolic link `n` as `symlink_spec` describes reads no inode
/// slot that is `bad`, reads the slot `last` only for its final target, and
/// reads no block that is `bad_block`.
pub open spec fn symlink_avoids(dev: Seq<Seq<u8>>, dh: DirectoryHandler, ih: INodeTableHandler, n: super::inode::INode,
    parent: u32, it: int, bad: spec_fn(int) -> bool, last: int, bad_block: spec_fn(int) -> bool) -> bool
    decreases depth_left(it), 0nat, 0nat,
{
    let addr = dh.data_start + n.direct@[0];
    if n.size > BLOCK_SIZE || addr > u32::MAX || addr >= dev.len() || it >= 40 {
        true
    } else {
        let target = dev[addr].subrange(0, n.size as int);
        let from = if path_is_absolute(target) { dh.root_inode_ind } else { parent };
        &&& !bad_block(addr)
        &&& resolve_avoids(dev, dh, ih, path_components(target), path_is_absolute(target), from, true, it + 1, bad, last,
            bad_block)
    }
}

/// Remaining symbolic links that may be followed at depth `it`.
pub open spec fn depth_left(it: int) -> nat {
    super::resolver::depth_left(it)
}

/// A directory search reads the same on two devices that agree on the
/// directory's blocks.
proof fn lemma_search_dir_same(dev: Seq<Seq<u8>>, fin: Seq<Seq<u8>>, ds: int, dir: super::inode::INode, name: Seq<u8>, k: int)
    requires
        0 <= k,
        forall|j: int| k <= j < dir.blocks && j < 12 ==> #[trigger] fin[ds + dir.direct@[j]] == dev[ds + dir.direct@[j]],
    ensures
        search_dir(fin, ds, dir, true, name, 0, k) == search_dir(dev, ds, dir, true, name, 0, k),
    decreases 13 - k,
{
    if k < dir.blocks && k < 12 {
        assert(fin[ds + dir.direct@[k]] == dev[ds + dir.direct@[k]]);
        lemma_search_dir_same(dev, fin, ds, dir, name, k + 1);
    }
}

/// A resolution that reads only what `fin` keeps of `dev` gives on `fin`
/// what it gives on `dev`, but for the inode of its target, read from `fin`.
pub proof fn lemma_resolve_frame(dev: Seq<Seq<u8>>, fin: Seq<Seq<u8>>, dh: DirectoryHandler, ih: INodeTableHandler,
    comps: Seq<Seq<u8>>, absolute: bool, src: u32, resolve_final: bool, it: int, bad: spec_fn(int) -> bool, last: int,
    bad_block: spec_fn(int) -> bool)
    requires
        agrees_outside(dev, fin, ih, bad, last, bad_block),
        resolve_avoids(dev, dh, ih, comps, absolute, src, resolve_final, it, bad, last, bad_block),
    ensures
        resolve_spec(fin, dh, ih, comps, absolute, src, resolve_final, it)
            == retarget(resolve_spec(dev, dh, ih, comps, absolute, src, resolve_final, it), fin, ih),
        targeted(resolve_spec(dev, dh, ih, comps, absolute, src, resolve_final, it), dev, ih, bad),
    decreases depth_left(it), 2nat, 0nat,
{
    if src >= ih.max_inodes() {
    } else if comps.len() == 0 {
    } else {
        let st = start_at(dev, ih, src);
        assert(st.target_inode_index == src);
        lemma_walk_frame(dev, fin, dh, ih, comps, 0, st, resolve_final, it, bad, last, bad_block);
        assert(retarget_state(st, fin, ih) == start_at(fin, ih, src));
    }
}

/// A walk that reads only what `fin` keeps of `dev` gives on `fin` what it
/// gives on `dev`, but for the inode of its target, read from `fin`.
pub proof fn lemma_walk_frame(dev: Seq<Seq<u8>>, fin: Seq<Seq<u8>>, dh: DirectoryHandler, ih: INodeTableHandler,
    comps: Seq<Seq<u8>>, i: int, st: ResolutionResult, resolve_final: bool, it: int, bad: spec_fn(int) -> bool, last: int,
    bad_block: spec_fn(int) -> bool)
    requires
        agrees_outside(dev, fin, ih, bad, last, bad_block),
        walk_avoids(dev, dh, ih, comps, i, st, resolve_final, it, bad, last, bad_block),
        st.target_inode == inode_at(dev, ih.inode_table_start as int, st.target_inode_index as int),
        !bad(st.target_inode_index as int),
        st.target_inode_index < ih.max_inodes(),
    ensures
        walk_spec(fin, dh, ih, comps, i, retarget_state(st, fin, ih), resolve_final, it)
            == retarget(walk_spec(dev, dh, ih, comps, i, st, resolve_final, it), fin, ih),
        targeted(walk_spec(dev, dh, ih, comps, i, st, resolve_final, it), dev, ih, bad),
    decreases depth_left(it), 1nat, (if i < comps.len() { comps.len() - i } else { 0 }) as nat,
{
    let ds = dh.data_start as int;
    let ts = ih.inode_table_start as int;
    let dir = st.target_inode;
    if i < 0 || i >= comps.len() {
        assert(retarget_state(retarget_state(st, fin, ih), fin, ih) == retarget_state(st, fin, ih));
    } else {
        assert(retarget_state(st, fin, ih) == st);
        if dir_on_device(dev, ds, dir) {
            assert forall|j: int| 0 <= j < dir.blocks && j < 12 implies #[trigger] fin[ds + dir.direct@[j]] == dev[ds + dir.direct@[j]] by {
                assert(!bad_block(ds + dir.direct@[j]));
            }
            lemma_search_dir_same(dev, fin, ds, dir, comps[i], 0);
            lemma_search_dir_block(dev, ds, dir, true, comps[i], 0, 0);
            match search_dir(dev, ds, dir, true, comps[i], 0, 0) {
                Some(Ok((blk, off))) => {
                    let jb = choose|j: int| 0 <= j < dir.blocks && j < 12 && #[trigger] dir.direct@[j] == blk;
                    assert(!bad_block(ds + dir.direct@[jb]));
                    assert(fin[ds + blk] == dev[ds + blk]);
                    let e = entry_at(dev[ds + blk], off);
                    let is_final = i == comps.len() - 1;
                    if e.inode != INVALID_ADDRESS && e.inode < ih.max_inodes() {
                        let n = inode_at(dev, ts, e.inode as int);
                        let nf = inode_at(fin, ts, e.inode as int);
                        assert(nf.file_type == n.file_type);
                        if n.file_type == FileType::Symlink && (!is_final || resolve_final) {
                            assert(nf == n);
                            if !(it >= 40 || n.size == 0 || n.blocks == 0) {
                                lemma_symlink_frame(dev, fin, dh, ih, n, st.target_inode_index, it, bad, last, bad_block);
                                match symlink_spec(dev, dh, ih, n, st.target_inode_index, it) {
                                    Some(Ok(res)) => {
                                        let resf = retarget_state(res, fin, ih);
                                        assert(resf.target_inode.file_type == res.target_inode.file_type) by {
                                            if res.target_inode_index != last {
                                                assert(inode_at(fin, ts, res.target_inode_index as int)
                                                    == inode_at(dev, ts, res.target_inode_index as int));
                                            }
                                        }
                                        if !(res.target_inode.file_type != FileType::Directory && !is_final) {
                                            let nst = ResolutionResult {
                                                target_inode: res.target_inode,
                                                target_inode_index: res.target_inode_index,
                                                parent_inode_index: res.parent_inode_index,
                                                dir_entry: e,
                                                dir_entry_block_index: res.dir_entry_block_index,
                                                dir_entry_offset: res.dir_entry_offset,
                                            };
                                            lemma_walk_frame(dev, fin, dh, ih, comps, i + 1, nst, resolve_final, it, bad, last,
                                                bad_block);
                                            assert(retarget_state(nst, fin, ih) == ResolutionResult {
                                                target_inode: resf.target_inode,
                                                target_inode_index: resf.target_inode_index,
                                                parent_inode_index: resf.parent_inode_index,
                                                dir_entry: e,
                                                dir_entry_block_index: resf.dir_entry_block_index,
                                                dir_entry_offset: resf.dir_entry_offset,
                                            });
                                        }
                                    },
                                    _ => {},
                                }
                            }
                        } else if n.file_type == FileType::Directory || is_final {
                            let nst = ResolutionResult {
                                target_inode: n,
                                target_inode_index: e.inode,
                                parent_inode_index: st.target_inode_index,
                                dir_entry: e,
                                dir_entry_block_index: blk,
                                dir_entry_offset: off as usize,
                            };
                            lemma_walk_frame(dev, fin, dh, ih, comps, i + 1, nst, resolve_final, it, bad, last, bad_block);
                        }
                    }
                },
                _ => {},
            }
        }
    }
}

/// Following a symbolic link whose resolution reads only what `fin` keeps of
/// `dev` gives on `fin` what it gives on `dev`, but for the inode of its
/// target, read from `fin`.
pub proof fn lemma_symlink_frame(dev: Seq<Seq<u8>>, fin: Seq<Seq<u8>>, dh: DirectoryHandler, ih: INodeTableHandler,
    n: super::inode::INode, parent: u32, it: int, bad: spec_fn(int) -> bool, last: int, bad_block: spec_fn(int) -> bool)
    requires
        agrees_outside(dev, fin, ih, bad, last, bad_block),
        symlink_avoids(dev, dh, ih, n, parent, it, bad, last, bad_block),
    ensures
        symlink_spec(fin, dh, ih, n, parent, it) == retarget(symlink_spec(dev, dh, ih, n, parent, it), fin, ih),
        targeted(symlink_spec(dev, dh, ih, n, parent, it), dev, ih, bad),
    decreases depth_left(it), 0nat, 0nat,
{
    let addr = dh.data_start + n.direct@[0];
    if !(n.size > BLOCK_SIZE || addr > u32::MAX || addr >= dev.len() || it >= 40) {
        assert(fin[addr] == dev[addr]);
        let target = dev[addr].subrange(0, n.size as int);
        let from = if path_is_absolute(target) { dh.root_inode_ind } else { parent };
        lemma_resolve_frame(dev, fin, dh, ih, path_components(target), path_is_absolute(target), from, true, it + 1, bad,
            last, bad_block);
    }
}

} // verus!
