use vstd::prelude::*;
use vstd::bytes::*;
use crate::fs_utils::{BLOCK_SIZE, INVALID_ADDRESS, FileType, file_type_code, overwrite};
use crate::fs_error::{FSError, FSResult, InvalidDirKind, InvalidDirEntryKind, InvalidINodeKind, InvalidInputKind};
use crate::device::block_device::BlockDevice;
use super::inode::INode;
use super::resolver::{entry_at, lemma_entry_at};
use super::directory::{DirEntry, Directory, parsed_entry, entry_bytes, e_parsable, e_rec, e_free, e_name,
    e_name_len, e_inode, e_type, min_rec, lemma_entry_roundtrip, free_entry};

verus! {

/// How the walk over the entries of a directory block ends.
#[derive(PartialEq, Eq, Structural, Clone, Copy, Debug)]
pub enum WalkEnd {
    /// the entries fill the block exactly
    Clean,
    /// the last entry overflows the block
    Overfill,
    /// the last entry has record length zero
    ZeroLength,
    /// the next entry cannot even be read (header or name past the block)
    Unparsable,
    /// the directory has more data blocks than it can address directly
    TooManyBlocks,
}

/// The offsets of the entries of block `b` from `off` on: each entry starts
/// where the previous one's record ends. An entry that overflows the block or
/// has record length zero is the last one.
pub open spec fn walk_offs(b: Seq<u8>, off: int) -> Seq<int>
    decreases 256 - off,
{
    if off < 0 || off >= 256 || !e_parsable(b, off) {
        Seq::empty()
    } else {
        let len = e_rec(b, off) as int;
        if off + len > 256 || len == 0 {
            seq![off]
        } else {
            seq![off] + walk_offs(b, off + len)
        }
    }
}

/// How the walk of `walk_offs(b, off)` ends.
pub open spec fn walk_end(b: Seq<u8>, off: int) -> WalkEnd
    decreases 256 - off,
{
    if off < 0 || off >= 256 {
        WalkEnd::Clean
    } else if !e_parsable(b, off) {
        WalkEnd::Unparsable
    } else {
        let len = e_rec(b, off) as int;
        if off + len > 256 {
            WalkEnd::Overfill
        } else if len == 0 {
            WalkEnd::ZeroLength
        } else {
            walk_end(b, off + len)
        }
    }
}

/// The error reported for a walk that does not end cleanly.
pub open spec fn walk_error(e: WalkEnd, err: FSError) -> bool {
    match e {
        WalkEnd::Clean => false,
        WalkEnd::Overfill => err == FSError::InvalidDir(InvalidDirKind::EntriesOverfillBlock),
        WalkEnd::ZeroLength => err == FSError::InvalidDirEntry(InvalidDirEntryKind::ZeroLength),
        WalkEnd::Unparsable => err == FSError::InvalidDirEntry(InvalidDirEntryKind::Unspecified),
        WalkEnd::TooManyBlocks => err == FSError::InvalidINode(InvalidINodeKind::Unspecified),
    }
}

/// What a directory search looks for: a used entry of a given name, or a free
/// region of at least a given record length.
pub open spec fn query_matches(by_name: bool, name: Seq<u8>, need: int, b: Seq<u8>, off: int) -> bool {
    if by_name {
        !e_free(b, off) && e_name(b, off) == name
    } else {
        e_free(b, off) && e_rec(b, off) >= need
    }
}

/// The index in `offs` of the first entry from `i` on that matches the query
/// (`offs.len()` if there is none).
pub open spec fn first_match(b: Seq<u8>, offs: Seq<int>, by_name: bool, name: Seq<u8>, need: int, i: int) -> int
    decreases offs.len() - i,
{
    if i < 0 || i >= offs.len() {
        offs.len() as int
    } else if query_matches(by_name, name, need, b, offs[i]) {
        i
    } else {
        first_match(b, offs, by_name, name, need, i + 1)
    }
}

/// The result of searching one block: `Some(Ok(off))` for the first matching
/// entry (at offset `off`), `Some(Err(end))` when the walk fails at or before
/// it, `None` when the walk ends cleanly without a match.
pub open spec fn search_block(b: Seq<u8>, by_name: bool, name: Seq<u8>, need: int) -> Option<Result<int, WalkEnd>> {
    let offs = walk_offs(b, 0);
    let end = walk_end(b, 0);
    let m = first_match(b, offs, by_name, name, need, 0);
    if m < offs.len() {
        if m == offs.len() - 1 && (end == WalkEnd::Overfill || end == WalkEnd::ZeroLength) {
            Some(Err(end))
        } else {
            Some(Ok(offs[m]))
        }
    } else if end == WalkEnd::Clean {
        None
    } else {
        Some(Err(end))
    }
}

/// The directory blocks that the handler reads lie on the device.
pub open spec fn dir_on_device(dev: Seq<Seq<u8>>, data_start: int, dir: INode) -> bool {
    forall|k: int| 0 <= k < dir.blocks && k < 12 ==> #[trigger] dir.direct@[k] + data_start < dev.len()
}

/// The result of searching the blocks of `dir` from its `k`-th on:
/// `Some(Ok((block, off)))` for the first match (block relative to the data
/// region), `Some(Err(e))` when `e` is the error reported first, `None` when
/// nothing matches.
pub open spec fn search_dir(dev: Seq<Seq<u8>>, data_start: int, dir: INode, by_name: bool, name: Seq<u8>, need: int, k: int)
    -> Option<Result<(u32, int), WalkEnd>>
    decreases 13 - k,
{
    if k < 0 || k >= dir.blocks {
        None
    } else if k >= 12 {
        Some(Err(WalkEnd::TooManyBlocks))
    } else {
        match search_block(dev[data_start + dir.direct@[k]], by_name, name, need) {
            Some(Ok(off)) => Some(Ok((dir.direct@[k], off))),
            Some(Err(e)) => Some(Err(e)),
            None => search_dir(dev, data_start, dir, by_name, name, need, k + 1),
        }
    }
}

/// A match found by a directory search lies in one of the directory's blocks.
pub proof fn lemma_search_dir_block(dev: Seq<Seq<u8>>, data_start: int, dir: INode, by_name: bool, name: Seq<u8>, need: int, k: int)
    requires
        0 <= k,
    ensures
        search_dir(dev, data_start, dir, by_name, name, need, k) matches Some(Ok((blk, off)))
            ==> exists|i: int| k <= i < dir.blocks && i < 12 && #[trigger] dir.direct@[i] == blk,
    decreases 13 - k,
{
    if k < dir.blocks && k < 12 {
        lemma_search_dir_block(dev, data_start, dir, by_name, name, need, k + 1);
        if search_block(dev[data_start + dir.direct@[k]], by_name, name, need) is Some {
            assert(search_dir(dev, data_start, dir, by_name, name, need, k) matches Some(Ok((blk, off)))
                ==> dir.direct@[k] == blk);
        }
    }
}

/// A match found by a directory search is the first match of the block it
/// lies in.
pub proof fn lemma_search_dir_hit(dev: Seq<Seq<u8>>, data_start: int, dir: INode, by_name: bool, name: Seq<u8>, need: int, k: int)
    requires
        0 <= k,
    ensures
        search_dir(dev, data_start, dir, by_name, name, need, k) matches Some(Ok((blk, off)))
            ==> search_block(dev[data_start + blk], by_name, name, need) == Some(Ok::<int, WalkEnd>(off)),
    decreases 13 - k,
{
    if k < dir.blocks && k < 12 {
        lemma_search_dir_hit(dev, data_start, dir, by_name, name, need, k + 1);
    }
}

/// A directory search that finds nothing found nothing in any block of the
/// directory, and the directory has at most `DIRECT_COUNT` blocks.
pub proof fn lemma_search_dir_none(dev: Seq<Seq<u8>>, data_start: int, dir: INode, by_name: bool, name: Seq<u8>, need: int, k: int)
    requires
        0 <= k,
        search_dir(dev, data_start, dir, by_name, name, need, k) is None,
    ensures
        k < dir.blocks ==> dir.blocks <= 12,
        forall|j: int| k <= j < dir.blocks && j < 12 ==> #[trigger] search_block(dev[data_start + dir.direct@[j]], by_name, name, need) is None,
    decreases 13 - k,
{
    if k < dir.blocks && k < 12 {
        lemma_search_dir_none(dev, data_start, dir, by_name, name, need, k + 1);
    }
}

/// A search whose blocks before the `i`-th find nothing, and whose `i`-th
/// block has a first match at `off`, answers that match.
pub proof fn lemma_search_dir_at(dev: Seq<Seq<u8>>, data_start: int, dir: INode, by_name: bool, name: Seq<u8>, need: int,
    k: int, i: int, off: int)
    requires
        0 <= k <= i,
        i < dir.blocks,
        i < 12,
        forall|j: int| k <= j < i ==> #[trigger] search_block(dev[data_start + dir.direct@[j]], by_name, name, need) is None,
        search_block(dev[data_start + dir.direct@[i]], by_name, name, need) == Some(Ok::<int, WalkEnd>(off)),
    ensures
        search_dir(dev, data_start, dir, by_name, name, need, k) == Some(Ok::<(u32, int), WalkEnd>((dir.direct@[i], off))),
    decreases i - k,
{
    if k < i {
        assert(search_block(dev[data_start + dir.direct@[k]], by_name, name, need) is None);
        lemma_search_dir_at(dev, data_start, dir, by_name, name, need, k + 1, i, off);
    }
}

/// A search whose blocks each find nothing finds nothing.
pub proof fn lemma_search_dir_all_none(dev: Seq<Seq<u8>>, data_start: int, dir: INode, by_name: bool, name: Seq<u8>,
    need: int, k: int)
    requires
        0 <= k,
        dir.blocks <= 12,
        forall|j: int| k <= j < dir.blocks && j < 12 ==> #[trigger] search_block(dev[data_start + dir.direct@[j]], by_name, name, need) is None,
    ensures
        search_dir(dev, data_start, dir, by_name, name, need, k) is None,
    decreases 13 - k,
{
    if k < dir.blocks && k < 12 {
        assert(search_block(dev[data_start + dir.direct@[k]], by_name, name, need) is None);
        lemma_search_dir_all_none(dev, data_start, dir, by_name, name, need, k + 1);
    }
}

/// A block whose walk ends cleanly has no entry with a record length of 65536 or more.
pub proof fn lemma_walk_clean_no_match(b: Seq<u8>)
    ensures
        (search_block(b, false, Seq::empty(), 65536) is None) == (walk_end(b, 0) == WalkEnd::Clean),
        search_block(b, false, Seq::empty(), 65536) == (if walk_end(b, 0) == WalkEnd::Clean {
            None
        } else {
            Some(Err::<int, WalkEnd>(walk_end(b, 0)))
        }),
{
    let offs = walk_offs(b, 0);
    lemma_first_match_none(b, offs, 0);
}

proof fn lemma_first_match_none(b: Seq<u8>, offs: Seq<int>, i: int)
    requires
        0 <= i,
    ensures
        first_match(b, offs, false, Seq::empty(), 65536, i) == offs.len(),
    decreases offs.len() - i,
{
    if i < offs.len() {
        lemma_first_match_none(b, offs, i + 1);
    }
}

/// A new directory block holding `e`, then a free region up to the end.
pub open spec fn grown_block(e: DirEntry) -> Seq<u8> {
    let zeros = Seq::new(256, |i: int| 0u8);
    let with_entry = overwrite(zeros, 0, entry_bytes(e));
    if 256 - e.record_len > 0 {
        overwrite(with_entry, e.record_len as int, entry_bytes(free_entry((256 - e.record_len) as u16)))
    } else {
        with_entry
    }
}

/// The bytes of the free region at `off` of `b`, shrunk by `taken` bytes.
pub open spec fn shrunk_free_bytes(b: Seq<u8>, off: int, taken: int) -> Seq<u8> {
    let rec = (e_rec(b, off) - taken) as u16;
    spec_u32_to_le_bytes(e_inode(b, off))
        + spec_u16_to_le_bytes(rec)
        + spec_u16_to_le_bytes(e_name_len(b, off))
        + seq![file_type_code(e_type(b, off))]
        + e_name(b, off)
        + Seq::new((rec - 9 - e_name_len(b, off)) as nat, |i: int| 0u8)
}

/// The free region at `off` lies inside the block and what remains of it after
/// taking `taken` bytes still holds its own header and name.
pub open spec fn region_fits(b: Seq<u8>, off: int, taken: int) -> bool {
    &&& off + e_rec(b, off) <= 256
    &&& 9 + e_name_len(b, off) <= e_rec(b, off) - taken
}

/// Block `b` after `e` takes the front of the free region at `off`.
pub open spec fn entry_added(b: Seq<u8>, off: int, e: DirEntry) -> Seq<u8> {
    let rest = e_rec(b, off) - e.record_len;
    let mid = if rest > 12 {
        overwrite(b, off + e.record_len, shrunk_free_bytes(b, off, e.record_len as int))
    } else {
        b
    };
    overwrite(mid, off, entry_bytes(e))
}

/// Where the walk from `o` finds the entry that ends at `target`.
#[derive(PartialEq, Eq, Structural, Clone, Copy, Debug)]
pub enum PrevSearch {
    /// `target` is the first entry of the walk
    First,
    /// the entry at this offset ends at `target`
    At(u16),
    /// an entry crosses `target`: it is not the start of an entry
    NotAtStart,
    /// an entry on the way has record length zero
    ZeroLength,
    /// an entry on the way cannot be read
    Unparsable,
}

/// Walks the entries of `b` from `o` looking for the one that ends at `target`.
pub open spec fn find_prev(b: Seq<u8>, o: int, target: int) -> PrevSearch
    decreases target - o,
{
    if o >= target {
        PrevSearch::First
    } else if o < 0 || o >= 256 || !e_parsable(b, o) {
        PrevSearch::Unparsable
    } else {
        let len = e_rec(b, o) as int;
        if o + len > target {
            PrevSearch::NotAtStart
        } else if o + len == target {
            PrevSearch::At(o as u16)
        } else if len == 0 {
            PrevSearch::ZeroLength
        } else {
            find_prev(b, o + len, target)
        }
    }
}

/// The free region that results from freeing the entry at `offset` of `b`,
/// merged with a free predecessor and a free successor, as (start, size);
/// `None` when the block does not allow it.
pub open spec fn freed_region(b: Seq<u8>, offset: int) -> Option<(int, int)> {
    let p = find_prev(b, 0, offset);
    let (start, before) = match p {
        PrevSearch::At(q) => if e_free(b, q as int) { (q as int, e_rec(b, q as int) as int) } else { (offset, 0int) },
        _ => (offset, 0int),
    };
    let len = e_rec(b, offset) as int;
    let next = offset + len;
    let after = if next < 256 && e_parsable(b, next) && e_free(b, next) { e_rec(b, next) as int } else { 0int };
    let size = before + len + after;
    if (p is At || p is First) && e_parsable(b, offset) && (next >= 256 || e_parsable(b, next))
        && size <= u16::MAX && 9 <= size && start + size <= 256 {
        Some((start, size))
    } else {
        None
    }
}

/// Block `b` after freeing the entry at `offset`.
pub open spec fn entry_freed(b: Seq<u8>, offset: int) -> Seq<u8> {
    let (start, size) = freed_region(b, offset).unwrap();
    overwrite(b, start, entry_bytes(free_entry(size as u16)))
}

/// Why a list of entries does not lay out into whole blocks.
#[derive(PartialEq, Eq, Structural, Clone, Copy, Debug)]
pub enum LayoutError {
    /// an entry crosses the end of a block
    Overfill,
    /// the last block is not filled
    Underfill,
}

/// The number of blocks that the entries `es[i..]` fill, starting at offset
/// `off` of a block; an error when they do not fill whole blocks.
pub open spec fn layout(es: Seq<DirEntry>, i: int, off: int) -> Result<int, LayoutError>
    decreases es.len() - i,
{
    if i < 0 || i >= es.len() {
        if off == 0 { Ok(0) } else { Err(LayoutError::Underfill) }
    } else {
        let no = off + es[i].record_len;
        if no > 256 {
            Err(LayoutError::Overfill)
        } else if no == 256 {
            match layout(es, i + 1, 0) {
                Ok(n) => Ok(n + 1),
                Err(e) => Err(e),
            }
        } else {
            layout(es, i + 1, no)
        }
    }
}

/// The encodings of the entries, one after the other.
pub open spec fn entries_bytes(es: Seq<DirEntry>) -> Seq<u8>
    decreases es.len(),
{
    if es.len() == 0 {
        Seq::empty()
    } else {
        entries_bytes(es.drop_last()) + entry_bytes(es.last())
    }
}

/// Block `b` holds what a new directory starts with: "." naming `me`, ".."
/// naming `parent`, each in a record of 12 bytes, then one free region over
/// the remaining 232 bytes.
#[verifier::opaque]
pub open spec fn fresh_dir_block(b: Seq<u8>, me: u32, parent: u32) -> bool {
    &&& b.len() == 256
    &&& e_inode(b, 0) == me && e_rec(b, 0) == 12 && e_type(b, 0) == FileType::Directory
    &&& e_name(b, 0) == seq![46u8]
    &&& e_inode(b, 12) == parent && e_rec(b, 12) == 12 && e_type(b, 12) == FileType::Directory
    &&& e_name(b, 12) == seq![46u8, 46u8]
    &&& e_free(b, 24) && e_rec(b, 24) == 232
}

/// The entries of a new directory make, in bytes, the block of a new
/// directory.
pub proof fn lemma_fresh_dir_block(es: Seq<DirEntry>, me: u32, parent: u32)
    requires
        es.len() == 3,
        es[0].inode == me && es[0].file_type == FileType::Directory
            && es[0].name_view() == seq![46u8] && es[0].record_len == 12,
        es[1].inode == parent && es[1].file_type == FileType::Directory
            && es[1].name_view() == seq![46u8, 46u8] && es[1].record_len == 12,
        es[2].spec_is_free() && es[2].record_len == 232 && es[2].name_len == 0,
        forall|i: int| 0 <= i < 3 ==> #[trigger] es[i].well_formed(),
    ensures
        entries_bytes(es).len() == 256,
        fresh_dir_block(entries_bytes(es).subrange(0, 256), me, parent),
{
    reveal_with_fuel(entries_bytes, 4);
    let e0 = es[0];
    let e1 = es[1];
    let e2 = es[2];
    assert(es.drop_last().drop_last().drop_last() =~= Seq::<DirEntry>::empty());
    assert(es.drop_last().drop_last().last() == e0);
    assert(es.drop_last().last() == e1);
    let b = entries_bytes(es);
    assert(b =~= entry_bytes(e0) + entry_bytes(e1) + entry_bytes(e2));
    let zeros = Seq::new(256, |i: int| 0u8);
    lemma_entry_roundtrip(e0, zeros, 0);
    lemma_entry_roundtrip(e1, zeros, 0);
    lemma_entry_roundtrip(e2, zeros, 0);
    let w = b.subrange(0, 256);
    assert(w =~= b);
    assert(overwrite(w, 0, entry_bytes(e0)) =~= w);
    assert(overwrite(w, 12, entry_bytes(e1)) =~= w);
    assert(overwrite(w, 24, entry_bytes(e2)) =~= w);
    lemma_entry_roundtrip(e0, w, 0);
    lemma_entry_roundtrip(e1, w, 12);
    lemma_entry_roundtrip(e2, w, 24);
    assert(e_name(w, 0) =~= e0.name_view());
    assert(e_name(w, 12) =~= e1.name_view());
    reveal(fresh_dir_block);
}

/// `dev` after writing the first `n` blocks of `bytes` to the data blocks
/// `direct[0..n]` (blocks that lie off the device are left out).
pub open spec fn write_dir_blocks(dev: Seq<Seq<u8>>, data_start: int, direct: Seq<u32>, bytes: Seq<u8>, n: int) -> Seq<Seq<u8>>
    decreases n,
{
    if n <= 0 {
        dev
    } else {
        let d = write_dir_blocks(dev, data_start, direct, bytes, n - 1);
        let addr = data_start + direct[n - 1];
        if addr < d.len() {
            d.update(addr, bytes.subrange(256 * (n - 1), 256 * n))
        } else {
            d
        }
    }
}

/// Writing directory blocks keeps the number of blocks of the device.
proof fn lemma_write_dir_blocks_len(dev: Seq<Seq<u8>>, data_start: int, direct: Seq<u32>, bytes: Seq<u8>, n: int)
    requires
        data_start >= 0,
    ensures
        write_dir_blocks(dev, data_start, direct, bytes, n).len() == dev.len(),
    decreases n,
{
    if n > 0 {
        lemma_write_dir_blocks_len(dev, data_start, direct, bytes, n - 1);
    }
}

/// Writing directory blocks leaves the blocks before the data region alone.
pub proof fn lemma_write_dir_blocks_frame(dev: Seq<Seq<u8>>, data_start: int, direct: Seq<u32>, bytes: Seq<u8>, n: int, k: int)
    requires
        data_start >= 0,
        0 <= k < data_start,
    ensures
        write_dir_blocks(dev, data_start, direct, bytes, n)[k] == dev[k],
        write_dir_blocks(dev, data_start, direct, bytes, n).len() == dev.len(),
    decreases n,
{
    lemma_write_dir_blocks_len(dev, data_start, direct, bytes, n);
    if n > 0 {
        lemma_write_dir_blocks_frame(dev, data_start, direct, bytes, n - 1, k);
        lemma_write_dir_blocks_len(dev, data_start, direct, bytes, n - 1);
    }
}

/// Writing directory blocks leaves every other block of the device as it was.
pub proof fn lemma_write_dir_blocks_other(dev: Seq<Seq<u8>>, data_start: int, direct: Seq<u32>, bytes: Seq<u8>, n: int, x: int)
    requires
        data_start >= 0,
        0 <= x < dev.len(),
        n <= direct.len(),
        forall|j: int| 0 <= j < n ==> data_start + #[trigger] direct[j] != x,
    ensures
        write_dir_blocks(dev, data_start, direct, bytes, n)[x] == dev[x],
    decreases n,
{
    if n > 0 {
        lemma_write_dir_blocks_other(dev, data_start, direct, bytes, n - 1, x);
        lemma_write_dir_blocks_len(dev, data_start, direct, bytes, n - 1);
        assert(data_start + direct[n - 1] != x);
    }
}

/// The entries left to lay out fill at least one more block (none when
/// nothing is left).
proof fn lemma_layout_pos(es: Seq<DirEntry>, i: int, off: int)
    requires
        0 <= i,
        0 <= off,
        forall|k: int| 0 <= k < es.len() ==> (#[trigger] es[k]).well_formed(),
        layout(es, i, off) is Ok,
    ensures
        layout(es, i, off)->Ok_0 >= (if off > 0 || i < es.len() { 1int } else { 0int }),
    decreases es.len() - i,
{
    if i < es.len() {
        let no = off + es[i].record_len;
        assert(es[i].well_formed());
        if no < 256 {
            lemma_layout_pos(es, i + 1, no);
        } else if no == 256 {
            lemma_layout_pos(es, i + 1, 0);
        }
    }
}

/// The encodings of the first `j` entries are a prefix of the encodings of all.
proof fn lemma_entries_bytes_prefix(es: Seq<DirEntry>, j: int)
    requires
        0 <= j <= es.len(),
    ensures
        entries_bytes(es.take(j)).len() <= entries_bytes(es).len(),
        entries_bytes(es).subrange(0, entries_bytes(es.take(j)).len() as int) == entries_bytes(es.take(j)),
    decreases es.len(),
{
    if j == es.len() {
        assert(es.take(j) =~= es);
        assert(entries_bytes(es).subrange(0, entries_bytes(es).len() as int) =~= entries_bytes(es));
    } else {
        let d = es.drop_last();
        assert(d.take(j) =~= es.take(j));
        lemma_entries_bytes_prefix(d, j);
        let p = entries_bytes(es.take(j));
        assert(entries_bytes(es) == entries_bytes(d) + entry_bytes(es.last()));
        assert(entries_bytes(es).subrange(0, p.len() as int) =~= entries_bytes(d).subrange(0, p.len() as int));
    }
}

/// Adding the next entry to a prefix appends its encoding.
proof fn lemma_entries_bytes_take(es: Seq<DirEntry>, i: int)
    requires
        0 <= i < es.len(),
    ensures
        entries_bytes(es.take(i + 1)) == entries_bytes(es.take(i)) + entry_bytes(es[i]),
{
    assert(es.take(i + 1).drop_last() =~= es.take(i));
    assert(es.take(i + 1).last() == es[i]);
}

/// Handles the data blocks of directories (which need placement of entries
/// inside blocks).
pub struct DirectoryHandler {
    pub data_start: u32,
    pub root_inode_ind: u32,
}

/// Whether the entry at `off` of `buf` can be read.
fn entry_parsable(buf: &[u8; BLOCK_SIZE], off: usize) -> (r: bool)
    requires
        off < BLOCK_SIZE,
    ensures
        r == e_parsable(buf@, off as int),
{
    if off + 9 > BLOCK_SIZE {
        return false;
    }
    let name_len = crate::fs_utils::read_u16(buf.as_slice(), off + 6);
    name_len <= 64 && off + 9 + name_len as usize <= BLOCK_SIZE
}

/// Whether the parsed entry `e` matches the query.
fn entry_matches(e: &DirEntry, by_name: bool, name: &[u8], need: u16, Ghost(b): Ghost<Seq<u8>>, Ghost(off): Ghost<int>) -> (r: bool)
    requires
        parsed_entry(b, off, *e),
        e_parsable(b, off),
        e.name_len <= 64,
    ensures
        r == query_matches(by_name, name@, need as int, b, off),
{
    if by_name {
        if e.is_free() {
            return false;
        }
        if e.name_len as usize != name.len() {
            assert(e_name(b, off).len() != name@.len());
            return false;
        }
        let mut i: usize = 0;
        while i < name.len()
            invariant
                0 <= i <= name@.len(),
                name@.len() == e.name_len,
                e.name_len <= 64,
                parsed_entry(b, off, *e),
                e_parsable(b, off),
                by_name,
                !e_free(b, off),
                forall|k: int| 0 <= k < i ==> name@[k] == e.name@[k],
            decreases name@.len() - i,
        {
            if e.name[i] != name[i] {
                assert(e.name@[i as int] == e_name(b, off)[i as int]);
                assert(e_name(b, off)[i as int] != name@[i as int]);
                assert(e_name(b, off) != name@);
                return false;
            }
            i = i + 1;
        }
        assert forall|k: int| 0 <= k < name@.len() implies e_name(b, off)[k] == name@[k] by {
            assert(e.name@[k] == e_name(b, off)[k]);
        }
        assert(e_name(b, off) =~= name@);
        true
    } else {
        e.is_free() && e.record_len >= need
    }
}

/// The entries of block `b` met by the walk from `off` on, as (block, offset)
/// pairs: all of them, or only the used ones.
pub open spec fn walk_items(b: Seq<u8>, off: int, include_free: bool) -> Seq<(Seq<u8>, int)>
    decreases 256 - off,
{
    if off < 0 || off >= 256 || !e_parsable(b, off) {
        Seq::empty()
    } else {
        let len = e_rec(b, off) as int;
        let here = if include_free || !e_free(b, off) { seq![(b, off)] } else { Seq::empty() };
        if off + len > 256 || len == 0 {
            here
        } else {
            here + walk_items(b, off + len, include_free)
        }
    }
}

/// The entries of the blocks of `dir` from its `k`-th block on, in order.
pub open spec fn dir_items(dev: Seq<Seq<u8>>, data_start: int, dir: INode, include_free: bool, k: int) -> Seq<(Seq<u8>, int)>
    decreases 12 - k,
{
    if k < 0 || k >= dir.blocks || k >= 12 {
        Seq::empty()
    } else {
        walk_items(dev[data_start + dir.direct@[k]], 0, include_free) + dir_items(dev, data_start, dir, include_free, k + 1)
    }
}

/// The entries met by a walk can be read.
pub proof fn lemma_walk_items_parsable(b: Seq<u8>, off: int, include_free: bool)
    ensures
        forall|i: int| 0 <= i < walk_items(b, off, include_free).len() ==> {
            let it = #[trigger] walk_items(b, off, include_free)[i];
            it.0 == b && e_parsable(b, it.1)
        },
    decreases 256 - off,
{
    if off < 0 || off >= 256 || !e_parsable(b, off) {
    } else {
        let len = e_rec(b, off) as int;
        let here = if include_free || !e_free(b, off) { seq![(b, off)] } else { Seq::<(Seq<u8>, int)>::empty() };
        if !(off + len > 256 || len == 0) {
            lemma_walk_items_parsable(b, off + len, include_free);
            let rest = walk_items(b, off + len, include_free);
            assert forall|i: int| 0 <= i < walk_items(b, off, include_free).len() implies {
                let it = #[trigger] walk_items(b, off, include_free)[i];
                it.0 == b && e_parsable(b, it.1)
            } by {
                if i >= here.len() {
                    assert(walk_items(b, off, include_free)[i] == rest[i - here.len()]);
                }
            }
        }
    }
}

/// The entries of a directory can be read where they lie.
pub proof fn lemma_dir_items_parsable(dev: Seq<Seq<u8>>, data_start: int, dir: INode, include_free: bool, k: int)
    ensures
        forall|i: int| 0 <= i < dir_items(dev, data_start, dir, include_free, k).len() ==> {
            let it = #[trigger] dir_items(dev, data_start, dir, include_free, k)[i];
            e_parsable(it.0, it.1)
        },
    decreases 12 - k,
{
    if k < 0 || k >= dir.blocks || k >= 12 {
    } else {
        let w = walk_items(dev[data_start + dir.direct@[k]], 0, include_free);
        lemma_walk_items_parsable(dev[data_start + dir.direct@[k]], 0, include_free);
        lemma_dir_items_parsable(dev, data_start, dir, include_free, k + 1);
        let rest = dir_items(dev, data_start, dir, include_free, k + 1);
        assert forall|i: int| 0 <= i < dir_items(dev, data_start, dir, include_free, k).len() implies {
            let it = #[trigger] dir_items(dev, data_start, dir, include_free, k)[i];
            e_parsable(it.0, it.1)
        } by {
            if i < w.len() {
                assert(dir_items(dev, data_start, dir, include_free, k)[i] == w[i]);
            } else {
                assert(dir_items(dev, data_start, dir, include_free, k)[i] == rest[i - w.len()]);
            }
        }
    }
}

/// Every block of `dir` walks cleanly (and `dir` has at most 12 blocks).
pub open spec fn dir_clean(dev: Seq<Seq<u8>>, data_start: int, dir: INode) -> bool {
    search_dir(dev, data_start, dir, false, Seq::empty(), 65536, 0) is None
}

/// `callback` answered `ans` when handed the entry at offset `off` of block
/// `b`, with `blk`, the block's index in the data region.
pub open spec fn answered<F: Fn(DirEntry, u32, usize) -> bool>(callback: F, b: Seq<u8>, blk: u32, off: int, ans: bool) -> bool {
    callback.ensures((entry_at(b, off), blk, off as usize), ans)
}

/// `callback` answered `false` for every entry of the walk of block `b`.
pub open spec fn declined<F: Fn(DirEntry, u32, usize) -> bool>(callback: F, b: Seq<u8>, blk: u32) -> bool {
    forall|i: int| 0 <= i < walk_offs(b, 0).len() ==> answered(callback, b, blk, #[trigger] walk_offs(b, 0)[i], false)
}

/// The entry at offset `off` of block `b` lies inside the block and has a
/// record length other than zero.
pub open spec fn entry_fits(b: Seq<u8>, off: int) -> bool {
    e_rec(b, off) > 0 && off + e_rec(b, off) <= BLOCK_SIZE
}

/// `callback` answered `true` for the `j`-th entry of the walk of block `b`,
/// and `false` for every entry before it.
pub open spec fn accepted_at<F: Fn(DirEntry, u32, usize) -> bool>(callback: F, b: Seq<u8>, blk: u32, j: int) -> bool {
    &&& 0 <= j < walk_offs(b, 0).len()
    &&& answered(callback, b, blk, walk_offs(b, 0)[j], true)
    &&& forall|i: int| 0 <= i < j ==> answered(callback, b, blk, #[trigger] walk_offs(b, 0)[i], false)
}

/// The `k`-th block of directory `dir` walks cleanly and `callback` answered
/// `false` for each of its entries.
pub open spec fn block_declined<F: Fn(DirEntry, u32, usize) -> bool>(callback: F, dev: Seq<Seq<u8>>, ds: int, dir: INode,
    k: int) -> bool {
    let b = dev[ds + dir.direct@[k]];
    walk_end(b, 0) == WalkEnd::Clean && declined(callback, b, dir.direct@[k])
}

/// How a walk of directory `dir` that hands its entries to `callback` ends
/// without an error: `callback` answered `true` for an entry of its `k`-th
/// block after declining all before, or declined every entry of every block.
pub open spec fn iterated<F: Fn(DirEntry, u32, usize) -> bool>(callback: F, dev: Seq<Seq<u8>>, ds: int, dir: INode) -> bool {
    ||| dir.blocks <= 12 && forall|k: int| 0 <= k < dir.blocks ==> #[trigger] block_declined(callback, dev, ds, dir, k)
    ||| exists|k: int, j: int| 0 <= k < dir.blocks && k < 12
        && (forall|m: int| 0 <= m < k ==> #[trigger] block_declined(callback, dev, ds, dir, m))
        && #[trigger] accepted_at(callback, dev[ds + dir.direct@[k]], dir.direct@[k], j)
        && entry_fits(dev[ds + dir.direct@[k]], walk_offs(dev[ds + dir.direct@[k]], 0)[j])
}

impl DirectoryHandler {
    pub fn new(data_start: u32, root_inode_ind: u32) -> (r: Self)
        ensures
            r.data_start == data_start,
            r.root_inode_ind == root_inode_ind,
    {
        DirectoryHandler { data_start, root_inode_ind }
    }

    /// Reads the `k`-th block of directory `dir`.
    fn read_dir_block<D: BlockDevice>(&self, device: &mut D, dir: &INode, k: u32, buf: &mut [u8; BLOCK_SIZE]) -> (r: FSResult<()>)
        requires
            old(device).inv(),
            k < 12,
        ensures
            final(device).inv(),
            final(device).blocks() == old(device).blocks(),
            match r {
                Ok(_) => self.data_start + dir.direct@[k as int] < old(device).blocks().len()
                    ==> final(buf)@ == old(device).blocks()[self.data_start + dir.direct@[k as int]],
                Err(e) => e.is_device_error(),
            },
    {
        let addr = match self.data_start.checked_add(dir.direct[k as usize]) {
            Some(a) => a,
            None => { return Err(FSError::InvalidInput(InvalidInputKind::BlockIndexOOB)); },
        };
        device.read_block(addr, buf)
    }

    /// Searches the entries of directory `dir`, block after block, for the
    /// first one that matches the query.
    fn search_dir_exec<D: BlockDevice>(&self, device: &mut D, dir: &INode, by_name: bool, name: &[u8], need: u16)
        -> (r: FSResult<Option<(DirEntry, u32, usize)>>)
        requires
            old(device).inv(),
        ensures
            final(device).inv(),
            final(device).blocks() == old(device).blocks(),
            ({
                let dev = old(device).blocks();
                let s = search_dir(dev, self.data_start as int, *dir, by_name, name@, need as int, 0);
                match r {
                    Ok(Some((e, blk, off))) => dir_on_device(dev, self.data_start as int, *dir) ==> {
                        &&& s == Some(Ok::<(u32, int), WalkEnd>((blk, off as int)))
                        &&& parsed_entry(dev[self.data_start + blk], off as int, e)
                        &&& e_parsable(dev[self.data_start + blk], off as int)
                        &&& off < BLOCK_SIZE
                    },
                    Ok(None) => dir_on_device(dev, self.data_start as int, *dir) ==> s is None,
                    Err(err) => dir_on_device(dev, self.data_start as int, *dir) ==> (err.is_device_error() || (s matches Some(Err(end)) && walk_error(end, err))),
                }
            }),
    {
        let ghost dev = device.blocks();
        let ghost ds = self.data_start as int;
        let mut buf = [0u8; BLOCK_SIZE];
        let mut k: u32 = 0;
        while k < dir.blocks
            invariant
                device.inv(),
                device.blocks() == dev,
                dev == old(device).blocks(),
                ds == self.data_start,
                0 <= k <= dir.blocks,
                k <= 12,
                dir_on_device(dev, ds, *dir) ==> search_dir(dev, ds, *dir, by_name, name@, need as int, 0) == search_dir(dev, ds, *dir, by_name, name@, need as int, k as int),
            decreases dir.blocks - k,
        {
            if k >= 12 {
                return Err(FSError::InvalidINode(InvalidINodeKind::Unspecified));
            }
            match self.read_dir_block(device, dir, k, &mut buf) {
                Err(e) => { return Err(e); },
                Ok(_) => {},
            }
            match Self::search_block_exec(&buf, by_name, name, need) {
                Ok(Some((e, off))) => {
                    return Ok(Some((e, dir.direct[k as usize], off)));
                },
                Ok(None) => {},
                Err(e) => {
                    proof {
                        if !(dir.direct@[k as int] + ds < dev.len()) {
                            assert(!dir_on_device(dev, ds, *dir));
                        }
                    }
                    return Err(e);
                },
            }
            k = k + 1;
        }
        Ok(None)
    }

    /// Finds the used entry named `name` in directory `dir_inode`; returns it
    /// with the block (relative to the data region) and the offset where it lies.
    pub fn find_entry<D: BlockDevice>(&self, device: &mut D, dir_inode: &INode, name: &[u8])
        -> (r: FSResult<Option<(DirEntry, u32, usize)>>)
        requires
            old(device).inv(),
        ensures
            final(device).inv(),
            final(device).blocks() == old(device).blocks(),
            ({
                let dev = old(device).blocks();
                let s = search_dir(dev, self.data_start as int, *dir_inode, true, name@, 0, 0);
                match r {
                    Ok(Some((e, blk, off))) => dir_on_device(dev, self.data_start as int, *dir_inode) ==> {
                        &&& s == Some(Ok::<(u32, int), WalkEnd>((blk, off as int)))
                        &&& parsed_entry(dev[self.data_start + blk], off as int, e)
                        &&& e_parsable(dev[self.data_start + blk], off as int)
                        &&& off < BLOCK_SIZE
                    },
                    Ok(None) => dir_on_device(dev, self.data_start as int, *dir_inode) ==> s is None,
                    Err(err) => dir_on_device(dev, self.data_start as int, *dir_inode) ==> (err.is_device_error() || (s matches Some(Err(end)) && walk_error(end, err))),
                }
            }),
    {
        self.search_dir_exec(device, dir_inode, true, name, 0)
    }

    /// Whether `to_insert` fits in directory `dir` without another data block:
    /// the first free region that can hold it and still leave a minimal free
    /// region, as its block (relative to the data region) and offset.
    pub fn can_fit<D: BlockDevice>(&self, device: &mut D, dir: &INode, to_insert: &DirEntry) -> (r: FSResult<Option<(u32, u16)>>)
        requires
            old(device).inv(),
            to_insert.record_len + 12 <= u16::MAX,
        ensures
            final(device).inv(),
            final(device).blocks() == old(device).blocks(),
            ({
                let dev = old(device).blocks();
                let s = search_dir(dev, self.data_start as int, *dir, false, Seq::empty(), to_insert.record_len + 12, 0);
                match r {
                    Ok(Some((blk, off))) => dir_on_device(dev, self.data_start as int, *dir) ==>
                        s == Some(Ok::<(u32, int), WalkEnd>((blk, off as int))),
                    Ok(None) => dir_on_device(dev, self.data_start as int, *dir) ==> s is None,
                    Err(err) => dir_on_device(dev, self.data_start as int, *dir) ==> (err.is_device_error() || (s matches Some(Err(end)) && walk_error(end, err))),
                }
            }),
    {
        let need = to_insert.record_len + DirEntry::min_free_size();
        let empty: [u8; 0] = [];
        assert(empty@ =~= Seq::<u8>::empty());
        match self.search_dir_exec(device, dir, false, empty.as_slice(), need) {
            Ok(Some((_e, blk, off))) => Ok(Some((blk, off as u16))),
            Ok(None) => Ok(None),
            Err(e) => Err(e),
        }
    }

    /// Appends the entries of one directory block to `out`.
    fn collect_block(buf: &[u8; BLOCK_SIZE], include_free: bool, out: &mut Vec<DirEntry>) -> (r: FSResult<()>)
        ensures
            ({
                let items = walk_items(buf@, 0, include_free);
                match r {
                    Ok(_) => {
                        &&& walk_end(buf@, 0) == WalkEnd::Clean
                        &&& final(out)@.len() == old(out)@.len() + items.len()
                        &&& forall|i: int| 0 <= i < old(out)@.len() ==> #[trigger] final(out)@[i] == old(out)@[i]
                        &&& forall|i: int| 0 <= i < items.len() ==> parsed_entry(#[trigger] items[i].0, items[i].1, final(out)@[old(out)@.len() + i])
                    },
                    Err(err) => walk_end(buf@, 0) != WalkEnd::Clean && walk_error(walk_end(buf@, 0), err),
                }
            }),
    {
        let ghost b = buf@;
        let ghost all = walk_items(b, 0, include_free);
        let ghost base = out@;
        let mut off: usize = 0;
        let ghost mut i: int = 0;
        while off < BLOCK_SIZE
            invariant
                0 <= i <= all.len(),
                b == buf@,
                all == walk_items(b, 0, include_free),
                base == old(out)@,
                walk_items(b, off as int, include_free) == all.subrange(i, all.len() as int),
                walk_end(b, off as int) == walk_end(b, 0),
                out@.len() == base.len() + i,
                forall|k: int| 0 <= k < base.len() ==> #[trigger] out@[k] == base[k],
                forall|k: int| 0 <= k < i ==> parsed_entry(#[trigger] all[k].0, all[k].1, out@[base.len() + k]),
            decreases BLOCK_SIZE - off,
        {
            if !entry_parsable(buf, off) {
                return Err(FSError::InvalidDirEntry(InvalidDirEntryKind::Unspecified));
            }
            let entry = DirEntry::deserialize(buf.as_slice(), off);
            let len = entry.record_len as usize;
            if off + len > BLOCK_SIZE {
                return Err(FSError::InvalidDir(InvalidDirKind::EntriesOverfillBlock));
            }
            if len == 0 {
                return Err(FSError::InvalidDirEntry(InvalidDirEntryKind::ZeroLength));
            }
            let ghost n = all.len() as int;
            let ghost w = walk_items(b, off + len, include_free);
            let keep = include_free || !entry.is_free();
            proof {
                assert(e_rec(b, off as int) == len);
                let here = if keep { seq![(b, off as int)] } else { Seq::<(Seq<u8>, int)>::empty() };
                assert(walk_items(b, off as int, include_free) == here + w);
                assert(walk_end(b, off as int) == walk_end(b, off + len));
                assert(all.subrange(i, n).len() == here.len() + w.len());
                if keep {
                    assert(all.subrange(i, n)[0] == (b, off as int));
                    assert(all[i] == (b, off as int));
                }
                assert forall|k: int| 0 <= k < w.len() implies #[trigger] w[k] == all[i + here.len() + k] by {
                    assert(all.subrange(i, n)[here.len() + k] == all[i + here.len() + k]);
                    assert((here + w)[here.len() + k] == w[k]);
                }
                assert(w =~= all.subrange(i + here.len(), n));
            }
            if keep {
                out.push(entry);
                proof {
                    i = i + 1;
                }
            }
            off = off + len;
        }
        proof {
            assert(walk_items(b, off as int, include_free) =~= Seq::<(Seq<u8>, int)>::empty());
            assert(i == all.len());
        }
        Ok(())
    }

    /// The entries of directory `dir`, in order: all of them, or only the used ones.
    pub fn get_entries<D: BlockDevice>(&self, device: &mut D, dir: &INode, include_free: bool) -> (r: FSResult<Vec<DirEntry>>)
        requires
            old(device).inv(),
        ensures
            final(device).inv(),
            final(device).blocks() == old(device).blocks(),
            ({
                let dev = old(device).blocks();
                let items = dir_items(dev, self.data_start as int, *dir, include_free, 0);
                dir_on_device(dev, self.data_start as int, *dir) ==> match r {
                    Ok(v) => {
                        &&& dir_clean(dev, self.data_start as int, *dir)
                        &&& v@.len() == items.len()
                        &&& forall|i: int| 0 <= i < items.len() ==> parsed_entry(#[trigger] items[i].0, items[i].1, v@[i])
                    },
                    Err(err) => err.is_device_error()
                        || (search_dir(dev, self.data_start as int, *dir, false, Seq::empty(), 65536, 0) matches Some(Err(end))
                            && walk_error(end, err)),
                }
            }),
    {
        let ghost dev = device.blocks();
        let ghost ds = self.data_start as int;
        let mut entries: Vec<DirEntry> = Vec::new();
        let mut buf = [0u8; BLOCK_SIZE];
        let mut k: u32 = 0;
        while k < dir.blocks
            invariant
                device.inv(),
                device.blocks() == dev,
                dev == old(device).blocks(),
                ds == self.data_start,
                0 <= k <= dir.blocks,
                k <= 12,
                dir_on_device(dev, ds, *dir) ==> {
                    &&& search_dir(dev, ds, *dir, false, Seq::empty(), 65536, 0) == search_dir(dev, ds, *dir, false, Seq::empty(), 65536, k as int)
                    &&& dir_items(dev, ds, *dir, include_free, 0).len() == entries@.len() + dir_items(dev, ds, *dir, include_free, k as int).len()
                    &&& forall|i: int| 0 <= i < entries@.len() ==> parsed_entry(#[trigger] dir_items(dev, ds, *dir, include_free, 0)[i].0,
                            dir_items(dev, ds, *dir, include_free, 0)[i].1, entries@[i])
                    &&& forall|i: int| 0 <= i < dir_items(dev, ds, *dir, include_free, k as int).len() ==>
                            #[trigger] dir_items(dev, ds, *dir, include_free, k as int)[i] == dir_items(dev, ds, *dir, include_free, 0)[entries@.len() + i]
                },
            decreases dir.blocks - k,
        {
            if k >= 12 {
                return Err(FSError::InvalidINode(InvalidINodeKind::Unspecified));
            }
            match self.read_dir_block(device, dir, k, &mut buf) {
                Err(e) => { return Err(e); },
                Ok(_) => {},
            }
            let ghost before = entries@;
            match Self::collect_block(&buf, include_free, &mut entries) {
                Err(e) => {
                    proof {
                        if dir_on_device(dev, ds, *dir) {
                            lemma_walk_clean_no_match(buf@);
                            assert(buf@ == dev[ds + dir.direct@[k as int]]);
                            assert(search_block(buf@, false, Seq::empty(), 65536) == Some(Err::<int, WalkEnd>(walk_end(buf@, 0))));
                            assert(search_dir(dev, ds, *dir, false, Seq::empty(), 65536, k as int) == Some(Err::<(u32, int), WalkEnd>(walk_end(buf@, 0))));
                        }
                    }
                    return Err(e);
                },
                Ok(_) => {},
            }
            proof {
                if dir_on_device(dev, ds, *dir) {
                    lemma_walk_clean_no_match(buf@);
                    let all = dir_items(dev, ds, *dir, include_free, 0);
                    let here = walk_items(buf@, 0, include_free);
                    let rest = dir_items(dev, ds, *dir, include_free, k + 1);
                    assert(dir_items(dev, ds, *dir, include_free, k as int) == here + rest);
                    assert forall|i: int| 0 <= i < entries@.len() implies parsed_entry(#[trigger] all[i].0, all[i].1, entries@[i]) by {
                        if i >= before.len() {
                            let j = i - before.len();
                            assert(dir_items(dev, ds, *dir, include_free, k as int)[j] == all[before.len() + j]);
                            assert((here + rest)[j] == here[j]);
                        }
                    }
                    assert forall|i: int| 0 <= i < rest.len() implies #[trigger] rest[i] == all[entries@.len() + i] by {
                        assert(dir_items(dev, ds, *dir, include_free, k as int)[here.len() + i] == all[before.len() + here.len() + i]);
                        assert((here + rest)[here.len() + i] == rest[i]);
                    }
                }
            }
            k = k + 1;
        }
        Ok(entries)
    }

    /// Hands the entries of `buf` to `callback`, one after the other, with
    /// the data block `block` and their offset, until it answers `true`
    /// (`Ok(true)`). An entry that cannot be used to go on (it cannot be
    /// read, overflows the block or has record length zero) ends the walk with
    /// an error, after `callback` saw it when it could be read.
    fn visit_block<F: Fn(DirEntry, u32, usize) -> bool>(buf: &[u8; BLOCK_SIZE], block: u32, callback: &F) -> (r: FSResult<bool>)
        requires
            forall|e: DirEntry, b: u32, o: usize| callback.requires((e, b, o)),
        ensures
            match r {
                Ok(true) => exists|j: int| accepted_at(*callback, buf@, block, j)
                    && entry_fits(buf@, walk_offs(buf@, 0)[j]),
                Ok(false) => walk_end(buf@, 0) == WalkEnd::Clean && declined(*callback, buf@, block),
                Err(err) => walk_end(buf@, 0) != WalkEnd::Clean && walk_error(walk_end(buf@, 0), err),
            },
    {
        let ghost b = buf@;
        let ghost mut seen: Seq<int> = Seq::empty();
        let mut off: usize = 0;
        while off < BLOCK_SIZE
            invariant
                b == buf@,
                walk_end(b, off as int) == walk_end(b, 0),
                forall|e: DirEntry, bl: u32, o: usize| callback.requires((e, bl, o)),
                off <= BLOCK_SIZE,
                walk_offs(b, 0) == seen + walk_offs(b, off as int),
                forall|i: int| 0 <= i < seen.len() ==> answered(*callback, b, block, #[trigger] seen[i], false),
            decreases BLOCK_SIZE - off,
        {
            if !entry_parsable(buf, off) {
                return Err(FSError::InvalidDirEntry(InvalidDirEntryKind::Unspecified));
            }
            let entry = DirEntry::deserialize(buf.as_slice(), off);
            let len = entry.record_len as usize;
            assert(e_rec(b, off as int) == len);
            let stop = callback(entry, block, off);
            proof {
                lemma_entry_at(b, off as int, entry);
                assert(answered(*callback, b, block, off as int, stop));
            }
            if off + len > BLOCK_SIZE {
                return Err(FSError::InvalidDir(InvalidDirKind::EntriesOverfillBlock));
            }
            if len == 0 {
                return Err(FSError::InvalidDirEntry(InvalidDirEntryKind::ZeroLength));
            }
            let ghost rest = walk_offs(b, (off + len) as int);
            assert(walk_offs(b, off as int) == seq![off as int] + rest);
            if stop {
                assert(walk_offs(b, 0)[seen.len() as int] == off as int);
                assert forall|i: int| 0 <= i < seen.len() implies answered(*callback, b, block, #[trigger] walk_offs(b, 0)[i], false) by {
                    assert(walk_offs(b, 0)[i] == seen[i]);
                }
                assert(accepted_at(*callback, b, block, seen.len() as int));
                assert(entry_fits(b, walk_offs(b, 0)[seen.len() as int]));
                return Ok(true);
            }
            proof {
                assert(walk_offs(b, 0) =~= seen.push(off as int) + rest);
                seen = seen.push(off as int);
            }
            off = off + len;
        }
        assert(walk_offs(b, off as int) =~= Seq::<int>::empty());
        assert(walk_offs(b, 0) =~= seen);
        Ok(false)
    }

    /// Hands the entries of directory `dir_inode` to `callback`, block after
    /// block, with the data block that holds each and its offset there, until
    /// `callback` answers `true`. A malformed block ends the walk with the
    /// error of `get_entries`.
    pub fn iterate<D: BlockDevice, F: Fn(DirEntry, u32, usize) -> bool>(&self, device: &mut D, dir_inode: &INode, callback: F) -> (r: FSResult<()>)
        requires
            old(device).inv(),
            forall|e: DirEntry, b: u32, o: usize| callback.requires((e, b, o)),
        ensures
            final(device).inv(),
            final(device).blocks() == old(device).blocks(),
            ({
                let dev = old(device).blocks();
                dir_on_device(dev, self.data_start as int, *dir_inode) ==> (r matches Err(err) ==> err.is_device_error()
                    || (search_dir(dev, self.data_start as int, *dir_inode, false, Seq::empty(), 65536, 0) matches Some(Err(end))
                        && walk_error(end, err)))
            }),
            r is Ok && dir_on_device(old(device).blocks(), self.data_start as int, *dir_inode)
                ==> iterated(callback, old(device).blocks(), self.data_start as int, *dir_inode),
    {
        let ghost dev = device.blocks();
        let ghost ds = self.data_start as int;
        let mut buf = [0u8; BLOCK_SIZE];
        let mut k: u32 = 0;
        while k < dir_inode.blocks
            invariant
                device.inv(),
                device.blocks() == dev,
                dev == old(device).blocks(),
                ds == self.data_start,
                0 <= k <= dir_inode.blocks,
                forall|e: DirEntry, b: u32, o: usize| callback.requires((e, b, o)),
                dir_on_device(dev, ds, *dir_inode) ==> search_dir(dev, ds, *dir_inode, false, Seq::empty(), 65536, 0)
                    == search_dir(dev, ds, *dir_inode, false, Seq::empty(), 65536, k as int),
                dir_on_device(dev, ds, *dir_inode) ==> forall|m: int| 0 <= m < k ==> #[trigger] block_declined(callback, dev, ds, *dir_inode, m),
                k <= 12,
            decreases dir_inode.blocks - k,
        {
            if k >= 12 {
                return Err(FSError::InvalidINode(InvalidINodeKind::Unspecified));
            }
            match self.read_dir_block(device, dir_inode, k, &mut buf) {
                Err(e) => { return Err(e); },
                Ok(_) => {},
            }
            let res = Self::visit_block(&buf, dir_inode.direct[k as usize], &callback);
            proof {
                if dir_on_device(dev, ds, *dir_inode) {
                    lemma_walk_clean_no_match(buf@);
                    assert(buf@ == dev[ds + dir_inode.direct@[k as int]]);
                }
            }
            match res {
                Err(e) => { return Err(e); },
                Ok(true) => {
                    proof {
                        if dir_on_device(dev, ds, *dir_inode) {
                            let j = choose|j: int| accepted_at(callback, buf@, dir_inode.direct@[k as int], j)
                                && entry_fits(buf@, walk_offs(buf@, 0)[j]);
                            assert(accepted_at(callback, dev[ds + dir_inode.direct@[k as int]], dir_inode.direct@[k as int], j));
                        }
                    }
                    return Ok(());
                },
                Ok(false) => {},
            }
            k = k + 1;
        }
        Ok(())
    }

    /// Hands the entries of data block `block_ind` to `callback`, with
    /// `block_ind` and their offset, until it answers `true`. Unlike
    /// `iterate`, an entry that overflows the block ends the walk without an
    /// error; one that cannot be read or has record length zero ends it with
    /// one.
    pub fn iterate_block_unchecked<D: BlockDevice, F: Fn(DirEntry, u32, usize) -> bool>(&self, device: &mut D, block_ind: u32, callback: F) -> (r: FSResult<()>)
        requires
            old(device).inv(),
            block_ind + self.data_start <= u32::MAX,
            forall|e: DirEntry, b: u32, o: usize| callback.requires((e, b, o)),
        ensures
            final(device).inv(),
            final(device).blocks() == old(device).blocks(),
            ({
                let dev = old(device).blocks();
                block_ind + self.data_start < dev.len() ==> (r matches Err(err) ==> err.is_device_error()
                    || ({
                        let end = walk_end(dev[block_ind + self.data_start], 0);
                        (end == WalkEnd::Unparsable || end == WalkEnd::ZeroLength) && walk_error(end, err)
                    }))
            }),
            ({
                let dev = old(device).blocks();
                let b = dev[block_ind + self.data_start];
                r is Ok && block_ind + self.data_start < dev.len() ==> (exists|j: int| accepted_at(callback, b, block_ind, j))
                    || ((walk_end(b, 0) == WalkEnd::Clean || walk_end(b, 0) == WalkEnd::Overfill) && declined(callback, b, block_ind))
            }),
    {
        let ghost dev = device.blocks();
        let mut buf = [0u8; BLOCK_SIZE];
        match device.read_block(block_ind + self.data_start, &mut buf) {
            Err(e) => { return Err(e); },
            Ok(_) => {},
        }
        let ghost b = buf@;
        let ghost mut seen: Seq<int> = Seq::empty();
        let mut off: usize = 0;
        while off < BLOCK_SIZE
            invariant
                device.inv(),
                device.blocks() == dev,
                dev == old(device).blocks(),
                block_ind + self.data_start < dev.len() ==> b == dev[block_ind + self.data_start],
                b == buf@,
                walk_end(b, off as int) == walk_end(b, 0),
                forall|e: DirEntry, bl: u32, o: usize| callback.requires((e, bl, o)),
                off <= BLOCK_SIZE,
                walk_offs(b, 0) == seen + walk_offs(b, off as int),
                forall|i: int| 0 <= i < seen.len() ==> answered(callback, b, block_ind, #[trigger] seen[i], false),
            decreases BLOCK_SIZE - off,
        {
            if !entry_parsable(&buf, off) {
                return Err(FSError::InvalidDirEntry(InvalidDirEntryKind::Unspecified));
            }
            let entry = DirEntry::deserialize(buf.as_slice(), off);
            let len = entry.record_len as usize;
            assert(e_rec(b, off as int) == len);
            let stop = callback(entry, block_ind, off);
            proof {
                lemma_entry_at(b, off as int, entry);
                assert(answered(callback, b, block_ind, off as int, stop));
                if off + len > BLOCK_SIZE || len == 0 {
                    assert(walk_offs(b, off as int) == seq![off as int]);
                } else {
                    assert(walk_offs(b, off as int) == seq![off as int] + walk_offs(b, (off + len) as int));
                }
                assert(walk_offs(b, 0)[seen.len() as int] == off as int);
                assert forall|i: int| 0 <= i < seen.len() implies answered(callback, b, block_ind, #[trigger] walk_offs(b, 0)[i], false) by {
                    assert(walk_offs(b, 0)[i] == seen[i]);
                }
            }
            if stop {
                assert(accepted_at(callback, b, block_ind, seen.len() as int));
                return Ok(());
            }
            if off + len > BLOCK_SIZE {
                // the last entry runs past the block: the walk ends here
                assert(walk_offs(b, 0) =~= seen.push(off as int));
                return Ok(());
            }
            if len == 0 {
                return Err(FSError::InvalidDirEntry(InvalidDirEntryKind::ZeroLength));
            }
            proof {
                assert(walk_offs(b, 0) =~= seen.push(off as int) + walk_offs(b, (off + len) as int));
                seen = seen.push(off as int);
            }
            off = off + len;
        }
        assert(walk_offs(b, off as int) =~= Seq::<int>::empty());
        assert(walk_offs(b, 0) =~= seen);
        Ok(())
    }

    /// Writes `buf` to block `block` of the data region.
    fn write_data_block<D: BlockDevice>(&self, device: &mut D, block: u32, buf: &[u8; BLOCK_SIZE]) -> (r: FSResult<()>)
        requires
            old(device).inv(),
        ensures
            final(device).inv(),
            match r {
                Ok(_) => final(device).blocks() == (if self.data_start + block < old(device).blocks().len() {
                    old(device).blocks().update(self.data_start + block, buf@)
                } else {
                    old(device).blocks()
                }),
                Err(e) => e.is_device_error() && final(device).blocks() == old(device).blocks(),
            },
    {
        let addr = match self.data_start.checked_add(block) {
            Some(a) => a,
            None => { return Err(FSError::InvalidInput(InvalidInputKind::BlockIndexOOB)); },
        };
        device.write_block(addr, buf)
    }

    /// Reads block `block` of the data region into `buf`.
    fn read_data_block<D: BlockDevice>(&self, device: &mut D, block: u32, buf: &mut [u8; BLOCK_SIZE]) -> (r: FSResult<()>)
        requires
            old(device).inv(),
        ensures
            final(device).inv(),
            final(device).blocks() == old(device).blocks(),
            match r {
                Ok(_) => self.data_start + block < old(device).blocks().len()
                    ==> final(buf)@ == old(device).blocks()[self.data_start + block],
                Err(e) => e.is_device_error(),
            },
    {
        let addr = match self.data_start.checked_add(block) {
            Some(a) => a,
            None => { return Err(FSError::InvalidInput(InvalidInputKind::BlockIndexOOB)); },
        };
        device.read_block(addr, buf)
    }

    /// Writes, as data block `block`, a new directory block that holds `entry`
    /// followed by a free region filling the rest of the block. The directory
    /// inode itself is not changed.
    pub fn add_entry_grow<D: BlockDevice>(&self, device: &mut D, _dir: &INode, entry: &DirEntry, block: u32) -> (r: FSResult<()>)
        requires
            old(device).inv(),
            entry.well_formed(),
            entry.record_len == BLOCK_SIZE || entry.record_len <= BLOCK_SIZE - 9,
        ensures
            final(device).inv(),
            match r {
                Ok(_) => final(device).blocks() == (if self.data_start + block < old(device).blocks().len() {
                    old(device).blocks().update(self.data_start + block, grown_block(*entry))
                } else {
                    old(device).blocks()
                }),
                Err(e) => e.is_device_error() && final(device).blocks() == old(device).blocks(),
            },
    {
        let mut buf = [0u8; BLOCK_SIZE];
        let ghost zeros = buf@;
        entry.serialize(&mut buf, 0);
        if BLOCK_SIZE as u16 - entry.record_len > 0 {
            let free = DirEntry::free(BLOCK_SIZE as u16 - entry.record_len);
            free.serialize(&mut buf, entry.record_len as usize);
        }
        assert(zeros =~= Seq::new(256, |i: int| 0u8));
        self.write_data_block(device, block, &buf)
    }

    /// Adds `entry` to data block `block` of a directory by taking the front of
    /// the free region at `free_region_offset`; the rest of the region stays
    /// free (when it is larger than a minimal free region).
    pub fn add_entry_here<D: BlockDevice>(&self, device: &mut D, _dir: &INode, entry: &mut DirEntry, block: u32, free_region_offset: u16)
        -> (r: FSResult<()>)
        requires
            old(device).inv(),
            old(entry).well_formed(),
            old(entry).record_len + 12 <= u16::MAX,
        ensures
            final(device).inv(),
            *final(entry) == *old(entry),
            final(device).blocks().len() == old(device).blocks().len(),
            forall|k: int| 0 <= k < old(device).blocks().len() && k != self.data_start + block
                ==> #[trigger] final(device).blocks()[k] == old(device).blocks()[k],
            ({
                let dev = old(device).blocks();
                let addr = self.data_start + block;
                let b = dev[addr];
                let off = free_region_offset as int;
                let e = *old(entry);
                addr < dev.len() ==> match r {
                    Ok(_) => {
                        &&& e_parsable(b, off)
                        &&& e_free(b, off)
                        &&& e_rec(b, off) >= e.record_len + 12
                        &&& region_fits(b, off, e.record_len as int)
                        &&& final(device).blocks() == dev.update(addr, entry_added(b, off, e))
                    },
                    Err(FSError::DirFreeRegionTooSmall) =>
                        e_parsable(b, off) && e_rec(b, off) < e.record_len + 12 && final(device).blocks() == dev,
                    Err(FSError::DirEntryNotFree) =>
                        e_parsable(b, off) && e_rec(b, off) >= e.record_len + 12 && !e_free(b, off) && final(device).blocks() == dev,
                    Err(FSError::InvalidDirEntry(InvalidDirEntryKind::Unspecified)) => !e_parsable(b, off) && final(device).blocks() == dev,
                    Err(FSError::InvalidDir(InvalidDirKind::Unspecified)) => e_parsable(b, off) && e_free(b, off)
                        && e_rec(b, off) >= e.record_len + 12 && !region_fits(b, off, e.record_len as int) && final(device).blocks() == dev,
                    Err(err) => err.is_device_error() && final(device).blocks() == dev,
                }
            }),
    {
        let mut buf = [0u8; BLOCK_SIZE];
        match self.read_data_block(device, block, &mut buf) {
            Err(e) => { return Err(e); },
            Ok(_) => {},
        }
        let off = free_region_offset as usize;
        if off >= BLOCK_SIZE || !entry_parsable(&buf, off) {
            return Err(FSError::InvalidDirEntry(InvalidDirEntryKind::Unspecified));
        }
        let mut free_region = DirEntry::deserialize(buf.as_slice(), off);
        if free_region.record_len < entry.record_len + DirEntry::min_free_size() {
            return Err(FSError::DirFreeRegionTooSmall);
        }
        if !free_region.is_free() {
            return Err(FSError::DirEntryNotFree);
        }
        // the free region must lie in the block, and what remains of it must
        // still hold its own header and name
        if off + free_region.record_len as usize > BLOCK_SIZE
            || 9 + free_region.name_len as usize > (free_region.record_len - entry.record_len) as usize {
            return Err(FSError::InvalidDir(InvalidDirKind::Unspecified));
        }
        let ghost b = buf@;
        free_region.record_len = free_region.record_len - entry.record_len;
        proof {
            assert(free_region.name@.take(free_region.name_len as int) =~= e_name(b, off as int));
            assert(entry_bytes(free_region) =~= shrunk_free_bytes(b, off as int, entry.record_len as int));
        }
        if free_region.record_len > DirEntry::min_free_size() {
            free_region.serialize(&mut buf, off + entry.record_len as usize);
        }
        entry.serialize(&mut buf, off);
        self.write_data_block(device, block, &buf)
    }

    /// Marks the entry at `offset` of data block `block` as free, merging it
    /// with a free predecessor and a free successor. Returns the record length
    /// of the freed entry.
    pub fn free_region<D: BlockDevice>(&self, device: &mut D, _dir: &INode, block: u32, offset: u16) -> (r: FSResult<u16>)
        requires
            old(device).inv(),
        ensures
            final(device).inv(),
            final(device).blocks().len() == old(device).blocks().len(),
            forall|k: int| 0 <= k < old(device).blocks().len() && k != self.data_start + block
                ==> #[trigger] final(device).blocks()[k] == old(device).blocks()[k],
            r matches Err(e) ==> e.is_device_error() || e is InvalidDirEntry || e is InvalidDir || e is InvalidInput,
            ({
                let dev = old(device).blocks();
                let addr = self.data_start + block;
                let b = dev[addr];
                addr < dev.len() ==> match r {
                    Ok(len) => {
                        &&& freed_region(b, offset as int) is Some
                        &&& len == e_rec(b, offset as int)
                        &&& final(device).blocks() == dev.update(addr, entry_freed(b, offset as int))
                    },
                    Err(FSError::InvalidInput(InvalidInputKind::OffsetNotAtDirEntryStart)) =>
                        find_prev(b, 0, offset as int) == PrevSearch::NotAtStart && final(device).blocks() == dev,
                    Err(err) => (err.is_device_error() || freed_region(b, offset as int) is None) && final(device).blocks() == dev,
                }
            }),
    {
        let mut buf = [0u8; BLOCK_SIZE];
        match self.read_data_block(device, block, &mut buf) {
            Err(e) => { return Err(e); },
            Ok(_) => {},
        }
        let ghost b = buf@;
        let ghost dev = device.blocks();
        let ghost addr = self.data_start + block;
        let mut free_region_size: u32 = 0;
        let mut free_region_start: u16 = offset;

        // find the previous entry
        let mut prev_offset: u16 = 0;
        let mut prev_entry: Option<DirEntry> = None;
        while prev_offset < offset && prev_entry.is_none()
            invariant
                b == buf@,
                device.inv(),
                device.blocks() == dev,
                dev == old(device).blocks(),
                addr == self.data_start + block,
                addr < dev.len() ==> b == dev[addr],
                prev_entry is None ==> (prev_offset < offset ==> find_prev(b, 0, offset as int) == find_prev(b, prev_offset as int, offset as int)),
                prev_entry is None ==> (prev_offset >= offset ==> prev_offset == 0),
                prev_entry matches Some(e) ==> find_prev(b, 0, offset as int) == PrevSearch::At(prev_offset)
                    && parsed_entry(b, prev_offset as int, e) && e_parsable(b, prev_offset as int),
            decreases offset - prev_offset + (if prev_entry is None { 1int } else { 0int }),
        {
            if prev_offset as usize >= BLOCK_SIZE || !entry_parsable(&buf, prev_offset as usize) {
                return Err(FSError::InvalidDirEntry(InvalidDirEntryKind::Unspecified));
            }
            let parsed = DirEntry::deserialize(buf.as_slice(), prev_offset as usize);
            let end = prev_offset as u32 + parsed.record_len as u32;
            if end > offset as u32 {
                return Err(FSError::InvalidInput(InvalidInputKind::OffsetNotAtDirEntryStart));
            }
            if end == offset as u32 {
                prev_entry = Some(parsed);
            } else {
                if parsed.record_len == 0 {
                    return Err(FSError::InvalidDirEntry(InvalidDirEntryKind::ZeroLength));
                }
                prev_offset = end as u16;
            }
        }
        let ghost p = find_prev(b, 0, offset as int);
        assert(p is At || p is First);
        match prev_entry {
            Some(e) => {
                if e.is_free() {
                    free_region_size = free_region_size + e.record_len as u32;
                    free_region_start = prev_offset;
                }
            },
            None => {},
        }

        // the entry to free
        if offset as usize >= BLOCK_SIZE || !entry_parsable(&buf, offset as usize) {
            return Err(FSError::InvalidDirEntry(InvalidDirEntryKind::Unspecified));
        }
        let to_free = DirEntry::deserialize(buf.as_slice(), offset as usize);
        free_region_size = free_region_size + to_free.record_len as u32;

        // the next entry
        let next_offset = offset as usize + to_free.record_len as usize;
        if next_offset < BLOCK_SIZE {
            if !entry_parsable(&buf, next_offset) {
                return Err(FSError::InvalidDirEntry(InvalidDirEntryKind::Unspecified));
            }
            let next_entry = DirEntry::deserialize(buf.as_slice(), next_offset);
            if next_entry.is_free() {
                free_region_size = free_region_size + next_entry.record_len as u32;
            }
        }

        if free_region_size > u16::MAX as u32 || free_region_size < 9
            || free_region_start as u32 + free_region_size > BLOCK_SIZE as u32 {
            return Err(FSError::InvalidDir(InvalidDirKind::Unspecified));
        }
        let free_entry = DirEntry::free(free_region_size as u16);
        free_entry.serialize(&mut buf, free_region_start as usize);
        match self.write_data_block(device, block, &buf) {
            Err(e) => { return Err(e); },
            Ok(_) => {},
        }
        Ok(to_free.record_len)
    }

    /// Writes the entries of `directory`, in order, to the data blocks of
    /// `inode`. The entries must fill whole blocks: an entry may not cross the
    /// end of a block and the last block must be full.
    pub fn write_directory_with_inode<D: BlockDevice>(&self, device: &mut D, directory: &Directory, inode: &INode) -> (r: FSResult<()>)
        requires
            old(device).inv(),
            forall|i: int| 0 <= i < directory.entries@.len() ==> (#[trigger] directory.entries@[i]).well_formed(),
            layout(directory.entries@, 0, 0) matches Ok(n) ==> n <= 12,
        ensures
            final(device).inv(),
            final(device).blocks().len() == old(device).blocks().len(),
            ({
                let es = directory.entries@;
                match r {
                    Ok(_) => layout(es, 0, 0) matches Ok(n) && final(device).blocks()
                        == write_dir_blocks(old(device).blocks(), self.data_start as int, inode.direct@, entries_bytes(es), n),
                    Err(FSError::InvalidInput(InvalidInputKind::DirEntriesOverfillBlock)) =>
                        layout(es, 0, 0) == Err::<int, LayoutError>(LayoutError::Overfill) && final(device).blocks() == old(device).blocks(),
                    Err(FSError::InvalidInput(InvalidInputKind::DirEntriesUnderfillBlock)) =>
                        layout(es, 0, 0) == Err::<int, LayoutError>(LayoutError::Underfill) && final(device).blocks() == old(device).blocks(),
                    Err(e) => e.is_device_error() && layout(es, 0, 0) is Ok,
                }
            }),
            old(device).reliable() && (layout(directory.entries@, 0, 0) matches Ok(n)
                && forall|k: int| 0 <= k < n ==> self.data_start + #[trigger] inode.direct@[k] < old(device).blocks().len())
                ==> r is Ok && final(device).reliable(),
    {
        let ghost es = directory.entries@;
        // first pass: check the layout
        let mut offset: usize = 0;
        let mut data_block_dst: usize = 0;
        let mut i: usize = 0;
        while i < directory.entries.len()
            invariant
                es == directory.entries@,
                0 <= i <= es.len(),
                0 <= offset < 256,
                layout(es, 0, 0) == (match layout(es, i as int, offset as int) {
                    Ok(n) => Ok::<int, LayoutError>(n + data_block_dst),
                    Err(e) => Err(e),
                }),
                data_block_dst <= i,
                device.inv(),
                device.blocks() == old(device).blocks(),
            decreases es.len() - i,
        {
            let record_len = directory.entries[i].record_len as usize;
            if offset + record_len > BLOCK_SIZE {
                return Err(FSError::InvalidInput(InvalidInputKind::DirEntriesOverfillBlock));
            }
            offset = offset + record_len;
            if offset == BLOCK_SIZE {
                data_block_dst = data_block_dst + 1;
                offset = 0;
            }
            i = i + 1;
        }
        if offset != 0 {
            return Err(FSError::InvalidInput(InvalidInputKind::DirEntriesUnderfillBlock));
        }
        let ghost nb = data_block_dst as int;
        assert(layout(es, 0, 0) == Ok::<int, LayoutError>(nb));

        // second pass: write the blocks
        let ghost dev0 = device.blocks();
        let ghost good = old(device).reliable()
            && forall|k: int| 0 <= k < nb ==> self.data_start + #[trigger] inode.direct@[k] < dev0.len();
        let ghost all = entries_bytes(es);
        let mut buf = [0u8; BLOCK_SIZE];
        let mut offset: usize = 0;
        let mut data_block_dst: usize = 0;
        let mut i: usize = 0;
        while i < directory.entries.len()
            invariant
                es == directory.entries@,
                forall|k: int| 0 <= k < es.len() ==> (#[trigger] es[k]).well_formed(),
                0 <= i <= es.len(),
                0 <= offset < 256,
                all == entries_bytes(es),
                layout(es, 0, 0) == Ok::<int, LayoutError>(nb),
                nb <= 12,
                layout(es, i as int, offset as int) == Ok::<int, LayoutError>(nb - data_block_dst),
                entries_bytes(es.take(i as int)).len() == 256 * data_block_dst + offset,
                256 * data_block_dst + offset <= all.len(),
                buf@.subrange(0, offset as int) == all.subrange(256 * data_block_dst, 256 * data_block_dst + offset),
                device.inv(),
                device.blocks() == write_dir_blocks(dev0, self.data_start as int, inode.direct@, all, data_block_dst as int),
                dev0 == old(device).blocks(),
                good == (old(device).reliable()
                    && forall|k: int| 0 <= k < nb ==> self.data_start + #[trigger] inode.direct@[k] < dev0.len()),
                good ==> device.reliable(),
            decreases es.len() - i,
        {
            let e = &directory.entries[i];
            let record_len = e.record_len as usize;
            proof {
                lemma_write_dir_blocks_len(dev0, self.data_start as int, inode.direct@, all, data_block_dst as int);
            }
            let ghost prev = offset as int;
            let ghost prev_buf = buf@;
            proof {
                lemma_layout_pos(es, i as int, offset as int);
                lemma_entries_bytes_take(es, i as int);
                lemma_entries_bytes_prefix(es, i as int);
                lemma_entries_bytes_prefix(es, i + 1);
                lemma_entry_roundtrip(es[i as int], buf@, offset as int);
                assert(offset + record_len <= 256);
            }
            e.serialize(&mut buf, offset);
            offset = offset + record_len;
            proof {
                let pre = entries_bytes(es.take(i as int));
                let base = 256 * data_block_dst;
                assert(all.subrange(0, base + offset) == pre + entry_bytes(es[i as int]));
                assert forall|k: int| 0 <= k < offset implies #[trigger] buf@[k] == all[base + k] by {
                    if k < prev {
                        assert(buf@[k] == prev_buf[k]);
                        assert(prev_buf.subrange(0, prev)[k] == all.subrange(base, base + prev)[k]);
                    } else {
                        assert(buf@[k] == entry_bytes(es[i as int])[k - prev]);
                        assert(all.subrange(0, base + offset)[base + k] == all[base + k]);
                        assert((pre + entry_bytes(es[i as int]))[base + k] == entry_bytes(es[i as int])[k - prev]);
                    }
                }
            }
            assert(buf@.subrange(0, offset as int) =~= all.subrange(256 * data_block_dst, 256 * data_block_dst + offset));
            if offset == BLOCK_SIZE {
                proof {
                    lemma_write_dir_blocks_len(dev0, self.data_start as int, inode.direct@, all, data_block_dst as int);
                    device.lemma_inv_well_sized();
                    if good {
                        assert(self.data_start + inode.direct@[data_block_dst as int] < dev0.len());
                    }
                }
                let addr = match self.data_start.checked_add(inode.direct[data_block_dst]) {
                    Some(a) => a,
                    None => { return Err(FSError::InvalidInput(InvalidInputKind::BlockIndexOOB)); },
                };
                match device.write_block(addr, &buf) {
                    Err(e) => { return Err(e); },
                    Ok(_) => {},
                }
                assert(buf@ =~= buf@.subrange(0, 256));
                buf = [0u8; BLOCK_SIZE];
                offset = 0;
                data_block_dst = data_block_dst + 1;
            }
            i = i + 1;
        }
        proof {
            lemma_write_dir_blocks_len(dev0, self.data_start as int, inode.direct@, all, data_block_dst as int);
        }
        Ok(())
    }

    /// Searches the entries of one directory block, in order.
    fn search_block_exec(buf: &[u8; BLOCK_SIZE], by_name: bool, name: &[u8], need: u16) -> (r: FSResult<Option<(DirEntry, usize)>>)
        ensures
            match r {
                Ok(Some((e, off))) => search_block(buf@, by_name, name@, need as int) == Some(Ok::<int, WalkEnd>(off as int))
                    && parsed_entry(buf@, off as int, e) && e_parsable(buf@, off as int) && off < BLOCK_SIZE,
                Ok(None) => search_block(buf@, by_name, name@, need as int) is None,
                Err(err) => search_block(buf@, by_name, name@, need as int) matches Some(Err(end)) && walk_error(end, err),
            },
    {
        let ghost b = buf@;
        let ghost all = walk_offs(b, 0);
        let mut off: usize = 0;
        let ghost mut i: int = 0;
        while off < BLOCK_SIZE
            invariant
                0 <= off,
                0 <= i <= all.len(),
                b == buf@,
                all == walk_offs(b, 0),
                walk_offs(b, off as int) == all.subrange(i, all.len() as int),
                walk_end(b, off as int) == walk_end(b, 0),
                first_match(b, all, by_name, name@, need as int, 0) == first_match(b, all, by_name, name@, need as int, i),
                off < BLOCK_SIZE ==> i < all.len() || !e_parsable(b, off as int),
            decreases BLOCK_SIZE - off,
        {
            if !entry_parsable(buf, off) {
                proof {
                    assert(walk_end(b, off as int) == WalkEnd::Unparsable);
                    assert(walk_offs(b, off as int) =~= Seq::<int>::empty());
                    assert(i == all.len());
                    assert(first_match(b, all, by_name, name@, need as int, i) == all.len());
                }
                return Err(FSError::InvalidDirEntry(InvalidDirEntryKind::Unspecified));
            }
            let entry = DirEntry::deserialize(buf.as_slice(), off);
            let len = entry.record_len as usize;
            let hit = entry_matches(&entry, by_name, name, need, Ghost(b), Ghost(off as int));
            let ghost n = all.len() as int;
            proof {
                assert(e_rec(b, off as int) == len);
                assert(walk_offs(b, off as int)[0] == off);
                assert(all.subrange(i, n)[0] == all[i]);
                assert(all[i] == off);
                assert(hit == query_matches(by_name, name@, need as int, b, all[i]));
            }
            if off + len > BLOCK_SIZE {
                proof {
                    assert(walk_offs(b, off as int) =~= seq![off as int]);
                    assert(all.subrange(i, n).len() == 1);
                    assert(i == n - 1);
                    assert(walk_end(b, off as int) == WalkEnd::Overfill);
                    if !hit {
                        assert(first_match(b, all, by_name, name@, need as int, i + 1) == n);
                    }
                }
                return Err(FSError::InvalidDir(InvalidDirKind::EntriesOverfillBlock));
            }
            if len == 0 {
                proof {
                    assert(walk_offs(b, off as int) =~= seq![off as int]);
                    assert(all.subrange(i, n).len() == 1);
                    assert(i == n - 1);
                    assert(walk_end(b, off as int) == WalkEnd::ZeroLength);
                    if !hit {
                        assert(first_match(b, all, by_name, name@, need as int, i + 1) == n);
                    }
                }
                return Err(FSError::InvalidDirEntry(InvalidDirEntryKind::ZeroLength));
            }
            let ghost w = walk_offs(b, off + len);
            proof {
                assert(walk_offs(b, off as int) == seq![off as int] + w);
                assert(walk_end(b, off as int) == walk_end(b, off + len));
                assert(all.subrange(i, n).len() == 1 + w.len());
                assert forall|k: int| 0 <= k < w.len() implies #[trigger] w[k] == all[i + 1 + k] by {
                    assert(all.subrange(i, n)[k + 1] == all[i + 1 + k]);
                    assert((seq![off as int] + w)[k + 1] == w[k]);
                }
                assert(w =~= all.subrange(i + 1, n));
            }
            if hit {
                proof {
                    assert(first_match(b, all, by_name, name@, need as int, i) == i);
                    if i == n - 1 {
                        assert(w.len() == 0);
                        if off + len < 256 {
                            assert(!e_parsable(b, off + len));
                            assert(walk_end(b, off + len) == WalkEnd::Unparsable);
                        } else {
                            assert(walk_end(b, off + len) == WalkEnd::Clean);
                        }
                    }
                }
                return Ok(Some((entry, off)));
            }
            proof {
                i = i + 1;
            }
            off = off + len;
        }
        proof {
            assert(walk_offs(b, off as int) =~= Seq::<int>::empty());
            assert(i == all.len());
            assert(walk_end(b, off as int) == WalkEnd::Clean);
        }
        Ok(None)
    }
}

} // verus!
