//! Properties that relate several operations of the filesystem.
use vstd::prelude::*;
use crate::fs_utils::INVALID_ADDRESS;
use crate::formats::v1::bitmap_allocator::{BitmapAllocator, bit_set, with_bits, lemma_with_bits, count_set, spec_min,
    only_first_set, lemma_count_only_first, free_in, lemma_free_in_contains, lemma_free_scan_bounds};
use crate::formats::v1::integrity::metadata_errors;
use crate::formats::v1::integrity_checker_errors::V1IntegrityError;
use crate::formats::v1::format::{format_superblock, format_layout, can_format, geometry, fits_device, bitmap_span,
    file_byte, read_len};
use crate::formats::v1::inode::INode;
use crate::formats::v1::directory::{DirEntry, parsed_entry, e_parsable, entry_bytes, lemma_entry_roundtrip};
use crate::formats::v1::directory_handler::{grown_block, entry_added, region_fits, shrunk_free_bytes, walk_offs,
    walk_end, WalkEnd, first_match, query_matches, search_block, find_prev, PrevSearch, freed_region, entry_freed};
use crate::formats::v1::directory::{e_rec, e_name_len, e_name, e_inode, e_type, e_free, free_entry, min_rec};
use crate::fs_utils::{overwrite, FileType};
use crate::fs_error::FSErrorCode;
use crate::device::cached_device::lru_next;
use crate::device::block_device::well_sized;
use crate::formats::v1::format::{FormatV1, created, placed_at, bitmaps_covered, stored_name, sat_add, deleted};
use crate::formats::v1::path::path_components;
use crate::formats::v1::inode_handler::inode_at;
use crate::formats::v1::directory_handler::{dir_items, walk_items};
use crate::formats::v1::directory_handler::{dir_on_device, search_dir, lemma_search_dir_none, lemma_search_dir_at,
    dir_clean, lemma_search_dir_block, lemma_search_dir_hit, lemma_walk_clean_no_match, lemma_search_dir_all_none};
use crate::formats::v1::resolver::{entry_at, lemma_entry_at, ResolutionResult};
use crate::formats::v1::footprint::{resolve_avoids, agrees_outside, retarget_state, lemma_resolve_frame};
use crate::formats::v1::path::path_is_absolute;

verus! {

/// The entries of the blocks of a directory from its `k`-th block on are the
/// tail of the entries of all its blocks.
proof fn lemma_dir_items_suffix(dev: Seq<Seq<u8>>, ds: int, dir: INode, inc: bool, k: int)
    requires
        0 <= k,
    ensures
        dir_items(dev, ds, dir, inc, 0).len() >= dir_items(dev, ds, dir, inc, k).len(),
        dir_items(dev, ds, dir, inc, 0).subrange(
            dir_items(dev, ds, dir, inc, 0).len() - dir_items(dev, ds, dir, inc, k).len(),
            dir_items(dev, ds, dir, inc, 0).len() as int) == dir_items(dev, ds, dir, inc, k),
    decreases k,
{
    let all = dir_items(dev, ds, dir, inc, 0);
    if k == 0 {
        assert(all.subrange(0, all.len() as int) =~= all);
    } else {
        lemma_dir_items_suffix(dev, ds, dir, inc, k - 1);
        let prev = dir_items(dev, ds, dir, inc, k - 1);
        let cur = dir_items(dev, ds, dir, inc, k);
        if k - 1 < dir.blocks && k - 1 < 12 {
            let w = walk_items(dev[ds + dir.direct@[k - 1]], 0, inc);
            assert(prev == w + cur);
            assert(all.subrange(all.len() - cur.len(), all.len() as int) =~= cur) by {
                assert forall|j: int| 0 <= j < cur.len() implies
                    all.subrange(all.len() - cur.len(), all.len() as int)[j] == cur[j] by {
                    assert(all.subrange(all.len() - prev.len(), all.len() as int)[w.len() + j] == prev[w.len() + j]);
                }
            }
        } else {
            assert(cur =~= Seq::<(Seq<u8>, int)>::empty());
            assert(all.subrange(all.len() as int, all.len() as int) =~= cur);
        }
    }
}

/// The listing of a directory holds the entries of every one of its data
/// blocks (at most 12 direct blocks), block after block: the entries of the
/// `k`-th block come, in order, right before those of the blocks after it.
pub proof fn law_dir_items_every_block(dev: Seq<Seq<u8>>, ds: int, dir: INode, inc: bool, k: int)
    requires
        0 <= k < dir.blocks,
        k < 12,
    ensures
        ({
            let all = dir_items(dev, ds, dir, inc, 0);
            let w = walk_items(dev[ds + dir.direct@[k]], 0, inc);
            let at = all.len() - dir_items(dev, ds, dir, inc, k).len();
            &&& 0 <= at && at + w.len() <= all.len()
            &&& forall|j: int| 0 <= j < w.len() ==> #[trigger] all[at + j] == w[j]
            &&& forall|j: int| 0 <= j < w.len() ==> all.contains(#[trigger] w[j])
        }),
{
    lemma_dir_items_suffix(dev, ds, dir, inc, k);
    let all = dir_items(dev, ds, dir, inc, 0);
    let cur = dir_items(dev, ds, dir, inc, k);
    let w = walk_items(dev[ds + dir.direct@[k]], 0, inc);
    let at = all.len() - cur.len();
    assert(cur == w + dir_items(dev, ds, dir, inc, k + 1));
    assert forall|j: int| 0 <= j < w.len() implies #[trigger] all[at + j] == w[j] by {
        assert(all.subrange(at, all.len() as int)[j] == cur[j]);
    }
    assert forall|j: int| 0 <= j < w.len() implies all.contains(#[trigger] w[j]) by {
        assert(all[at + j] == w[j]);
    }
}

/// The search order of `find_free` visits every free index that the bitmap
/// maps in its own blocks, each of them once: so `find_free` returns fewer
/// indices than asked only when fewer are free.
pub proof fn law_free_scan_complete(a: BitmapAllocator, dev: Seq<Seq<u8>>, i: int)
    requires
        a.wf(),
        0 <= i < a.scan_end(),
        !bit_set(dev, a.start_block() as int, i),
    ensures
        a.free_scan(dev).contains(i as u32),
        a.free_scan(dev).no_duplicates(),
{
    let start = a.start_block() as int;
    let p1 = free_in(dev, start, a.scan_start(), a.scan_end());
    let p2 = free_in(dev, start, 0, spec_min(a.scan_start(), a.scan_end()));
    lemma_free_scan_bounds(a, dev);
    assert(a.free_scan(dev) == p1 + p2);
    if i >= a.scan_start() {
        lemma_free_in_contains(dev, start, a.scan_start(), a.scan_end(), i);
        let k = choose|k: int| 0 <= k < p1.len() && p1[k] == i as u32;
        assert(a.free_scan(dev)[k] == i as u32);
    } else {
        lemma_free_in_contains(dev, start, 0, spec_min(a.scan_start(), a.scan_end()), i);
        let k = choose|k: int| 0 <= k < p2.len() && p2[k] == i as u32;
        assert(a.free_scan(dev)[p1.len() + k] == i as u32);
    }
}

/// After `allocate` marks the indices `idx`, each of them is allocated; after
/// `deallocate` frees them, none is; every other index keeps its state.
pub proof fn law_allocate_deallocate(a: BitmapAllocator, dev: Seq<Seq<u8>>, idx: Seq<u32>, k: u32, value: bool)
    requires
        a.wf(),
        a.on_device(dev),
        forall|m: int| 0 <= m < idx.len() ==> #[trigger] idx[m] < a.spec_max_index(),
        k < a.spec_max_index(),
    ensures
        bit_set(with_bits(dev, a.start_block() as int, idx, value), a.start_block() as int, k as int)
            == (if idx.contains(k) { value } else { bit_set(dev, a.start_block() as int, k as int) }),
{
    let start = a.start_block() as int;
    assert forall|m: int| 0 <= m < idx.len() implies start + #[trigger] idx[m] / 2048 < dev.len() by {
        assert(idx[m] / 2048 <= a.spec_max_index() / 2048);
    }
    assert(start + k / 2048 < dev.len()) by {
        assert(k / 2048 <= a.spec_max_index() / 2048);
    }
    lemma_with_bits(dev, start, idx, value, k as int);
}

/// The layout that `format` chooses for a device it can format is one that
/// `mount` accepts, and it lies on that device.
pub proof fn law_format_layout(blocks: int)
    requires
        can_format(blocks),
    ensures
        geometry(format_superblock(blocks)),
        fits_device(format_superblock(blocks), blocks),
        format_superblock(blocks).free_inodes == format_superblock(blocks).inode_table_blocks * 2 - 1,
        format_superblock(blocks).free_data == blocks - format_superblock(blocks).data_start - 1,
{
    let (ib, bb, t) = format_layout(blocks);
    let sb = format_superblock(blocks);
    assert(t >= 1);
    assert(ib >= 1);
    assert(bb >= 1);
    assert(t * 2 / 2048 <= t) by (nonlinear_arith)
        requires
            t >= 0;
    assert(bitmap_span(ib, t * 2) <= blocks - 1);
    assert((blocks - (1 + ib + bb + t)) / 2048 + 1 <= bb) by (nonlinear_arith)
        requires
            bb == blocks / 2048 + if blocks % 2048 == 0 { 0int } else { 1int },
            1 + ib + bb + t < blocks,
            ib >= 1,
            t >= 1;
}

/// Reading a file where it was just written gives back the bytes written:
/// `write` leaves byte `offset + j` of the file equal to `buf[j]` for its
/// first `written` bytes, and `read` returns byte `offset + j` of the file in
/// `out[j]` for its first `got` bytes.
pub proof fn law_read_after_write(dev: Seq<Seq<u8>>, data_start: int, n: INode, offset: int, buf: Seq<u8>,
    written: int, out: Seq<u8>, got: int)
    requires
        forall|j: int| 0 <= j < written ==> #[trigger] file_byte(dev, data_start, n, offset + j) == buf[j],
        forall|j: int| 0 <= j < got ==> #[trigger] out[j] == file_byte(dev, data_start, n, offset + j),
    ensures
        forall|j: int| 0 <= j < written && j < got ==> #[trigger] out[j] == buf[j],
{
    assert forall|j: int| 0 <= j < written && j < got implies #[trigger] out[j] == buf[j] by {
        assert(out[j] == file_byte(dev, data_start, n, offset + j));
        assert(file_byte(dev, data_start, n, offset + j) == buf[j]);
    }
}

/// A read of `want` bytes at `offset` of a file of `size` bytes gets them all
/// when they lie before the end of the file (as after a write of as many
/// bytes there).
pub proof fn law_read_len_within(want: int, offset: int, size: int)
    requires
        0 <= want,
        offset + want <= size,
    ensures
        read_len(want, offset, size) == want,
{
}

/// Using a block in a cache of capacity `size` (at least 2) that holds the
/// blocks `o`, each once and at most `size` of them: the block becomes the
/// most recently used, the cache still holds each block once and at most
/// `size` of them, and a block leaves only when the cache was full and the
/// block used was not in it, and then it is the least recently used one.
pub proof fn law_lru(o: Seq<u32>, block: u32, size: int)
    requires
        o.no_duplicates(),
        o.len() <= size,
        size >= 2,
    ensures
        lru_next(o, block, size).last() == block,
        lru_next(o, block, size).no_duplicates(),
        lru_next(o, block, size).len() <= size,
        forall|x: u32| #[trigger] o.contains(x) && x != block && !(o.len() >= size && !o.contains(block) && x == o[0])
            ==> lru_next(o, block, size).contains(x),
        !o.contains(block) && o.len() >= size ==> !lru_next(o, block, size).contains(o[0]),
{
    let r = lru_next(o, block, size);
    let n = o.len() as int;
    if o.contains(block) {
        let i = o.index_of(block);
        assert(o[i] == block);
        assert(r.len() == n);
        assert forall|a: int, b: int| 0 <= a < b < n implies r[a] != r[b] by {
            let x = if a < i { a } else if a < n - 1 { a + 1 } else { i };
            let y = if b < i { b } else if b < n - 1 { b + 1 } else { i };
            assert(r[a] == o[x]);
            assert(r[b] == o[y]);
        }
        assert forall|x: u32| #[trigger] o.contains(x) && x != block implies r.contains(x) by {
            let p = choose|p: int| 0 <= p < n && o[p] == x;
            if p < i {
                assert(r[p] == x);
            } else {
                assert(p != i);
                assert(r[p - 1] == x);
            }
        }
    } else if n >= size {
        assert forall|a: int, b: int| 0 <= a < b < n implies r[a] != r[b] by {
            if b == n - 1 {
                assert(o.contains(o[a + 1]));
            }
        }
        assert forall|x: u32| #[trigger] o.contains(x) && x != block && x != o[0] implies r.contains(x) by {
            let p = choose|p: int| 0 <= p < n && o[p] == x;
            assert(p != 0);
            assert(r[p - 1] == x);
        }
        if r.contains(o[0]) {
            let q = choose|q: int| 0 <= q < r.len() && r[q] == o[0];
            if q < n - 1 {
                assert(o[q + 1] == o[0]);
            }
        }
    } else {
        assert forall|a: int, b: int| 0 <= a < b < n + 1 implies r[a] != r[b] by {
            if b == n {
                assert(o.contains(o[a]));
            }
        }
        assert forall|x: u32| #[trigger] o.contains(x) && x != block implies r.contains(x) by {
            let p = choose|p: int| 0 <= p < n && o[p] == x;
            assert(r[p] == x);
        }
    }
}

/// An entry added in a free region can be read back where it was put.
pub proof fn law_added_entry_readable(b: Seq<u8>, off: int, e: DirEntry)
    requires
        e.well_formed(),
        0 <= off,
        off + e.record_len <= b.len(),
        b.len() == 256,
        e_parsable(b, off),
        region_fits(b, off, e.record_len as int),
    ensures
        e_parsable(entry_added(b, off, e), off),
        parsed_entry(entry_added(b, off, e), off, e),
{
    let rest = e_rec(b, off) - e.record_len;
    let sh = shrunk_free_bytes(b, off, e.record_len as int);
    if rest > 12 {
        vstd::bytes::lemma_auto_spec_u32_to_from_le_bytes();
        vstd::bytes::lemma_auto_spec_u16_to_from_le_bytes();
        assert(sh.len() == rest);
    }
    let mid = if rest > 12 { overwrite(b, off + e.record_len, sh) } else { b };
    assert(mid.len() == b.len());
    lemma_entry_roundtrip(e, mid, off);
}

/// An entry written to a new directory block can be read back at its start.
pub proof fn law_grown_entry_readable(e: DirEntry)
    requires
        e.well_formed(),
        e.record_len == 256 || e.record_len <= 247,
    ensures
        e_parsable(grown_block(e), 0),
        parsed_entry(grown_block(e), 0, e),
{
    let zeros = Seq::new(256, |i: int| 0u8);
    lemma_entry_roundtrip(e, zeros, 0);
    let w = overwrite(zeros, 0, entry_bytes(e));
    let rec = e.record_len as int;
    if 256 - rec > 0 {
        let f = free_entry((256 - rec) as u16);
        lemma_entry_roundtrip(f, w, rec);
        let g = grown_block(e);
        assert(g.subrange(0, rec) =~= w.subrange(0, rec));
        assert(g.len() == 256);
        assert(g.subrange(0, 4) =~= w.subrange(0, 4));
        assert(g.subrange(4, 6) =~= w.subrange(4, 6));
        assert(g.subrange(6, 8) =~= w.subrange(6, 8));
        assert(g[8] == w[8]);
        assert(g.subrange(9, 9 + e.name_len) =~= w.subrange(9, 9 + e.name_len));
    }
}

/// The entries met by the walk of block `b` from `o` on, before offset
/// `target`, hold their name inside their record.
pub open spec fn names_inside_before(b: Seq<u8>, o: int, target: int) -> bool
    decreases 256 - o,
{
    if o < 0 || o >= 256 || o >= target || !e_parsable(b, o) {
        true
    } else {
        let len = e_rec(b, o) as int;
        &&& 9 + e_name_len(b, o) <= len
        &&& (o + len > 256 || len == 0 || names_inside_before(b, o + len, target))
    }
}

/// The offsets of a walk from `o` are not smaller than `o`.
proof fn lemma_walk_offs_from(b: Seq<u8>, o: int, x: int)
    requires
        walk_offs(b, o).contains(x),
    ensures
        o <= x,
    decreases 256 - o,
{
    if 0 <= o < 256 && e_parsable(b, o) {
        let len = e_rec(b, o) as int;
        if !(o + len > 256 || len == 0) && x != o {
            let w = walk_offs(b, o + len);
            let i = choose|i: int| 0 <= i < walk_offs(b, o).len() && walk_offs(b, o)[i] == x;
            assert(walk_offs(b, o) == seq![o] + w);
            assert(w[i - 1] == x);
            lemma_walk_offs_from(b, o + len, x);
        }
    }
}

/// The first match in `x` followed by `w`, from position `i + 1`, is one
/// past the first match in `w` from `i`.
proof fn lemma_first_match_shift(b: Seq<u8>, x: int, w: Seq<int>, by_name: bool, name: Seq<u8>, need: int, i: int)
    requires
        0 <= i,
    ensures
        first_match(b, seq![x] + w, by_name, name, need, i + 1) == first_match(b, w, by_name, name, need, i) + 1,
    decreases w.len() - i,
{
    let s = seq![x] + w;
    if i < w.len() {
        assert(s[i + 1] == w[i]);
        lemma_first_match_shift(b, x, w, by_name, name, need, i + 1);
    }
}

/// The entry at `o` reads the same in two blocks that agree before `lim`,
/// when its header, and its name where said, lie before `lim`.
proof fn lemma_entry_before(b: Seq<u8>, c: Seq<u8>, o: int, lim: int)
    requires
        b.len() == 256,
        c.len() == 256,
        0 <= o,
        o + 9 <= lim <= 256,
        forall|p: int| 0 <= p < lim ==> #[trigger] c[p] == b[p],
    ensures
        e_rec(c, o) == e_rec(b, o),
        e_name_len(c, o) == e_name_len(b, o),
        e_inode(c, o) == e_inode(b, o),
        e_type(c, o) == e_type(b, o),
        o + 9 + e_name_len(b, o) <= lim ==> e_name(c, o) == e_name(b, o) && e_parsable(c, o) == e_parsable(b, o),
{
    assert(c.subrange(o, o + 4) =~= b.subrange(o, o + 4));
    assert(c.subrange(o + 4, o + 6) =~= b.subrange(o + 4, o + 6));
    assert(c.subrange(o + 6, o + 8) =~= b.subrange(o + 6, o + 8));
    assert(c[o + 8] == b[o + 8]);
    if o + 9 + e_name_len(b, o) <= lim {
        assert(e_name(c, o) =~= e_name(b, o));
    }
}

/// The walk of `c` from `o` meets `target` after entries that match no
/// query by `name`, when `c` agrees with `b` before `target`, the walk of `b`
/// from `o` meets `target` after entries that hold their names inside their
/// records and are not named `name`, and the entry of `c` at `target` is in
/// use, named `name`, and followed inside the block.
proof fn lemma_found_at(b: Seq<u8>, c: Seq<u8>, o: int, target: int, name: Seq<u8>)
    requires
        b.len() == 256,
        c.len() == 256,
        forall|p: int| 0 <= p < target ==> #[trigger] c[p] == b[p],
        walk_offs(b, o).contains(target),
        names_inside_before(b, o, target),
        forall|p: int| #[trigger] walk_offs(b, o).contains(p) && p < target ==> !query_matches(true, name, 0, b, p),
        e_parsable(c, target),
        query_matches(true, name, 0, c, target),
        0 < e_rec(c, target),
        target + e_rec(c, target) < 256,
    ensures
        ({
            let w = walk_offs(c, o);
            let j = first_match(c, w, true, name, 0, 0);
            &&& 0 <= j < w.len()
            &&& w[j] == target
            &&& (j < w.len() - 1 || walk_end(c, o) == WalkEnd::Unparsable)
            &&& walk_end(c, o) == walk_end(c, target)
        }),
    decreases 256 - o,
{
    lemma_walk_offs_from(b, o, target);
    assert(walk_offs(b, o).len() > 0);
    if o == target {
        let len = e_rec(c, o) as int;
        let rest = walk_offs(c, o + len);
        let w = walk_offs(c, o);
        assert(w == seq![o] + rest);
        assert(w[0] == o);
        assert(first_match(c, w, true, name, 0, 0) == 0);
        assert(walk_end(c, o) == walk_end(c, o + len));
        if rest.len() == 0 {
            assert(!e_parsable(c, o + len));
            assert(walk_end(c, o + len) == WalkEnd::Unparsable);
        }
    } else {
        let len = e_rec(b, o) as int;
        assert(0 <= o < 256 && e_parsable(b, o));
        assert(!(o + len > 256 || len == 0)) by {
            if o + len > 256 || len == 0 {
                assert(walk_offs(b, o) == seq![o]);
            }
        }
        let wb = walk_offs(b, o + len);
        assert(walk_offs(b, o) == seq![o] + wb);
        let i = choose|i: int| 0 <= i < walk_offs(b, o).len() && walk_offs(b, o)[i] == target;
        assert(wb[i - 1] == target);
        assert(wb.contains(target));
        lemma_walk_offs_from(b, o + len, target);
        assert(9 + e_name_len(b, o) <= len);
        lemma_entry_before(b, c, o, target);
        assert(walk_offs(b, o)[0] == o);
        assert(walk_offs(b, o).contains(o));
        assert(!query_matches(true, name, 0, b, o));
        assert(!query_matches(true, name, 0, c, o));
        assert forall|p: int| #[trigger] wb.contains(p) && p < target implies !query_matches(true, name, 0, b, p) by {
            let k = choose|k: int| 0 <= k < wb.len() && wb[k] == p;
            assert(walk_offs(b, o)[k + 1] == p);
            assert(walk_offs(b, o).contains(p));
        }
        lemma_found_at(b, c, o + len, target, name);
        let wc = walk_offs(c, o + len);
        assert(e_parsable(c, o));
        assert(e_rec(c, o) == len);
        assert(walk_offs(c, o) == seq![o] + wc);
        assert(walk_end(c, o) == walk_end(c, o + len));
        lemma_first_match_shift(c, o, wc, true, name, 0, 0);
        let j = first_match(c, wc, true, name, 0, 0);
        assert(first_match(c, walk_offs(c, o), true, name, 0, 0) == j + 1);
        assert(walk_offs(c, o)[j + 1] == wc[j]);
    }
}

/// A first match is a position of the walk, or its length.
proof fn lemma_first_match_range(b: Seq<u8>, offs: Seq<int>, by_name: bool, name: Seq<u8>, need: int, i: int)
    requires
        0 <= i,
    ensures
        first_match(b, offs, by_name, name, need, i) == offs.len()
            || i <= first_match(b, offs, by_name, name, need, i) < offs.len(),
    decreases offs.len() - i,
{
    if i < offs.len() {
        lemma_first_match_range(b, offs, by_name, name, need, i + 1);
    }
}

/// A first match inside the walk matches.
proof fn lemma_first_match_hits(b: Seq<u8>, offs: Seq<int>, by_name: bool, name: Seq<u8>, need: int, i: int)
    requires
        0 <= i,
    ensures
        first_match(b, offs, by_name, name, need, i) < offs.len()
            ==> query_matches(by_name, name, need, b, offs[first_match(b, offs, by_name, name, need, i)]),
    decreases offs.len() - i,
{
    if i < offs.len() {
        lemma_first_match_hits(b, offs, by_name, name, need, i + 1);
    }
}

/// The first match of a search by name in a walk where nothing before `j`
/// matches and `j` does.
proof fn lemma_first_match_at(b: Seq<u8>, offs: Seq<int>, name: Seq<u8>, i: int, j: int)
    requires
        0 <= i <= j < offs.len(),
        forall|k: int| i <= k < j ==> !query_matches(true, name, 0, b, #[trigger] offs[k]),
        query_matches(true, name, 0, b, offs[j]),
    ensures
        first_match(b, offs, true, name, 0, i) == j,
    decreases j - i,
{
    if i < j {
        lemma_first_match_at(b, offs, name, i + 1, j);
    }
}

/// A search by name finds nothing at an offset where none of the walk
/// matches.
proof fn lemma_no_match(b: Seq<u8>, offs: Seq<int>, name: Seq<u8>, i: int, k: int)
    requires
        0 <= i <= k < offs.len(),
        first_match(b, offs, true, name, 0, i) == offs.len(),
    ensures
        !query_matches(true, name, 0, b, offs[k]),
    decreases k - i,
{
    if i < k {
        lemma_no_match(b, offs, name, i + 1, k);
    }
}

/// A name that a directory block does not hold, added in one of its free
/// regions, is then found where it was put: when the walk of the block meets
/// the free region (as `can_fit` finds it) after entries that hold their
/// names inside their records, a search by that name of the block after
/// `add_entry_here` answers the offset of the new entry.
pub proof fn law_added_entry_found(b: Seq<u8>, off: int, e: DirEntry, need: int)
    requires
        b.len() == 256,
        e.well_formed(),
        e.inode != INVALID_ADDRESS,
        search_block(b, false, Seq::empty(), need) == Some(Ok::<int, WalkEnd>(off)),
        search_block(b, true, e.name_view(), 0) is None,
        names_inside_before(b, 0, off),
        e_parsable(b, off),
        e_rec(b, off) >= e.record_len + 12,
        region_fits(b, off, e.record_len as int),
    ensures
        search_block(entry_added(b, off, e), true, e.name_view(), 0) == Some(Ok::<int, WalkEnd>(off)),
{
    let c = entry_added(b, off, e);
    let name = e.name_view();
    let offs = walk_offs(b, 0);
    let m = first_match(b, offs, false, Seq::<u8>::empty(), need, 0);
    lemma_first_match_range(b, offs, false, Seq::<u8>::empty(), need, 0);
    lemma_first_match_range(b, offs, true, e.name_view(), 0, 0);
    assert(m < offs.len() && offs[m] == off);
    assert(offs.contains(off));
    lemma_walk_offs_from(b, 0, off);
    law_added_entry_readable(b, off, e);
    // the bytes before the new entry are those of `b`
    let rest = e_rec(b, off) - e.record_len;
    let sh = shrunk_free_bytes(b, off, e.record_len as int);
    if rest > 12 {
        vstd::bytes::lemma_auto_spec_u32_to_from_le_bytes();
        vstd::bytes::lemma_auto_spec_u16_to_from_le_bytes();
        assert(sh.len() == rest);
    }
    let mid = if rest > 12 { overwrite(b, off + e.record_len, sh) } else { b };
    assert(mid.len() == 256);
    lemma_entry_roundtrip(e, mid, off);
    assert(c.len() == 256);
    assert forall|p: int| 0 <= p < off implies #[trigger] c[p] == b[p] by {
        assert(c[p] == mid[p]);
    }
    // nothing before it matches
    let fm = first_match(b, offs, true, name, 0, 0);
    assert(fm == offs.len());
    assert forall|p: int| #[trigger] offs.contains(p) && p < off implies !query_matches(true, name, 0, b, p) by {
        let k = choose|k: int| 0 <= k < offs.len() && offs[k] == p;
        lemma_no_match(b, offs, name, 0, k);
    }
    // the new entry matches
    assert(e_name(c, off) =~= name);
    assert(query_matches(true, name, 0, c, off));
    lemma_found_at(b, c, 0, off, name);
}

/// A name written to a new directory block is found at its start.
pub proof fn law_grown_entry_found(e: DirEntry)
    requires
        e.well_formed(),
        e.inode != INVALID_ADDRESS,
        e.record_len <= 247,
    ensures
        search_block(grown_block(e), true, e.name_view(), 0) == Some(Ok::<int, WalkEnd>(0)),
{
    let g = grown_block(e);
    law_grown_entry_readable(e);
    let rec = e.record_len as int;
    let f = free_entry((256 - rec) as u16);
    let zeros = Seq::new(256, |i: int| 0u8);
    let w = overwrite(zeros, 0, entry_bytes(e));
    lemma_entry_roundtrip(e, zeros, 0);
    lemma_entry_roundtrip(f, w, rec);
    assert(g.len() == 256);
    assert(e_rec(g, rec) == 256 - rec);
    assert(e_parsable(g, rec));
    let offs = walk_offs(g, 0);
    assert(walk_offs(g, 256) =~= Seq::<int>::empty());
    assert(walk_offs(g, rec) =~= seq![rec]);
    assert(offs == seq![0] + seq![rec]);
    assert(e_name(g, 0) =~= e.name_view());
    assert(query_matches(true, e.name_view(), 0, g, 0));
    assert(first_match(g, offs, true, e.name_view(), 0, 0) == 0);
}


/// The walk from an offset that a walk from `o` meets stays inside that walk
/// and ends as it does.
proof fn lemma_walk_sub(b: Seq<u8>, o: int, x: int)
    requires
        walk_offs(b, o).contains(x),
    ensures
        forall|p: int| #[trigger] walk_offs(b, x).contains(p) ==> walk_offs(b, o).contains(p),
        walk_end(b, x) == walk_end(b, o),
    decreases 256 - o,
{
    if x != o {
        let len = e_rec(b, o) as int;
        assert(0 <= o < 256 && e_parsable(b, o));
        assert(!(o + len > 256 || len == 0)) by {
            if o + len > 256 || len == 0 {
                assert(walk_offs(b, o) == seq![o]);
            }
        }
        let w = walk_offs(b, o + len);
        assert(walk_offs(b, o) == seq![o] + w);
        let i = choose|i: int| 0 <= i < walk_offs(b, o).len() && walk_offs(b, o)[i] == x;
        assert(w[i - 1] == x);
        lemma_walk_sub(b, o + len, x);
        assert forall|p: int| #[trigger] walk_offs(b, x).contains(p) implies walk_offs(b, o).contains(p) by {
            assert(w.contains(p));
            let j = choose|j: int| 0 <= j < w.len() && w[j] == p;
            assert(walk_offs(b, o)[j + 1] == p);
        }
    }
}

/// The entry at `p` reads the same in two blocks that agree from `o` on.
proof fn lemma_entry_from(b: Seq<u8>, c: Seq<u8>, o: int, p: int)
    requires
        b.len() == 256,
        c.len() == 256,
        0 <= o <= p,
        forall|x: int| o <= x < 256 ==> #[trigger] c[x] == b[x],
    ensures
        e_parsable(c, p) == e_parsable(b, p),
        p + 9 <= 256 ==> {
            &&& e_rec(c, p) == e_rec(b, p)
            &&& e_name_len(c, p) == e_name_len(b, p)
            &&& e_inode(c, p) == e_inode(b, p)
            &&& e_type(c, p) == e_type(b, p)
        },
        e_parsable(b, p) ==> e_name(c, p) == e_name(b, p),
{
    if p + 9 <= 256 {
        assert(c.subrange(p, p + 4) =~= b.subrange(p, p + 4));
        assert(c.subrange(p + 4, p + 6) =~= b.subrange(p + 4, p + 6));
        assert(c.subrange(p + 6, p + 8) =~= b.subrange(p + 6, p + 8));
        assert(c[p + 8] == b[p + 8]);
        if p + 9 + e_name_len(b, p) <= 256 {
            assert(e_name(c, p) =~= e_name(b, p));
        }
    }
}

/// Two blocks that agree from `o` on walk alike from `o`, and their entries
/// there answer a search by name alike.
proof fn lemma_walk_suffix_same(b: Seq<u8>, c: Seq<u8>, o: int, name: Seq<u8>)
    requires
        b.len() == 256,
        c.len() == 256,
        0 <= o,
        forall|x: int| o <= x < 256 ==> #[trigger] c[x] == b[x],
    ensures
        walk_offs(c, o) == walk_offs(b, o),
        walk_end(c, o) == walk_end(b, o),
        forall|p: int| #[trigger] walk_offs(b, o).contains(p) ==> query_matches(true, name, 0, c, p) == query_matches(true, name, 0, b, p),
    decreases 256 - o,
{
    if o < 256 {
        lemma_entry_from(b, c, o, o);
        if e_parsable(b, o) {
            let len = e_rec(b, o) as int;
            if !(o + len > 256 || len == 0) {
                assert forall|x: int| o + len <= x < 256 implies #[trigger] c[x] == b[x] by {}
                lemma_walk_suffix_same(b, c, o + len, name);
                assert forall|p: int| #[trigger] walk_offs(b, o).contains(p) implies query_matches(true, name, 0, c, p)
                    == query_matches(true, name, 0, b, p) by {
                    if p != o {
                        let w = walk_offs(b, o + len);
                        assert(walk_offs(b, o) == seq![o] + w);
                        let j = choose|j: int| 0 <= j < walk_offs(b, o).len() && walk_offs(b, o)[j] == p;
                        assert(w[j - 1] == p);
                        assert(w.contains(p));
                    }
                }
            }
        }
    }
}

/// Where a search for the entry that ends at `target` finds one, that entry
/// is on the walk and ends there.
proof fn lemma_find_prev_walk(b: Seq<u8>, o: int, target: int)
    ensures
        find_prev(b, o, target) matches PrevSearch::At(q) ==> walk_offs(b, o).contains(q as int) && e_parsable(b, q as int)
            && q + e_rec(b, q as int) == target,
        find_prev(b, o, target) is First ==> o >= target,
    decreases target - o,
{
    if o < target && 0 <= o < 256 && e_parsable(b, o) {
        let len = e_rec(b, o) as int;
        if o + len == target {
            assert(walk_offs(b, o)[0] == o);
        } else if o + len < target && len != 0 {
            lemma_find_prev_walk(b, o + len, target);
            if find_prev(b, o + len, target) is At {
                let q = find_prev(b, o + len, target)->At_0;
                assert(walk_offs(b, o + len).len() > 0);
                assert(o + len < 256);
                let w = walk_offs(b, o + len);
                assert(walk_offs(b, o) == seq![o] + w);
                let j = choose|j: int| 0 <= j < w.len() && w[j] == q as int;
                assert(walk_offs(b, o)[j + 1] == q as int);
            }
        }
    }
}

/// A search by name from `o` in `c` finds nothing and ends cleanly, when
/// `c` agrees with `b` before `start`, the walk of `b` from `o` meets `start`
/// after entries that hold their names inside their records and are not
/// named `name`, and the search in `c` from `start` finds nothing and ends
/// cleanly.
proof fn lemma_freed_prefix(b: Seq<u8>, c: Seq<u8>, o: int, start: int, name: Seq<u8>)
    requires
        b.len() == 256,
        c.len() == 256,
        forall|p: int| 0 <= p < start ==> #[trigger] c[p] == b[p],
        start < 256,
        walk_offs(b, o).contains(start),
        names_inside_before(b, o, start),
        forall|p: int| #[trigger] walk_offs(b, o).contains(p) && p < start ==> !query_matches(true, name, 0, b, p),
        first_match(c, walk_offs(c, start), true, name, 0, 0) == walk_offs(c, start).len(),
        walk_end(c, start) == WalkEnd::Clean,
    ensures
        first_match(c, walk_offs(c, o), true, name, 0, 0) == walk_offs(c, o).len(),
        walk_end(c, o) == WalkEnd::Clean,
    decreases 256 - o,
{
    lemma_walk_offs_from(b, o, start);
    if o != start {
        let len = e_rec(b, o) as int;
        assert(0 <= o < 256 && e_parsable(b, o));
        assert(!(o + len > 256 || len == 0)) by {
            if o + len > 256 || len == 0 {
                assert(walk_offs(b, o) == seq![o]);
            }
        }
        let wb = walk_offs(b, o + len);
        assert(walk_offs(b, o) == seq![o] + wb);
        let i = choose|i: int| 0 <= i < walk_offs(b, o).len() && walk_offs(b, o)[i] == start;
        assert(wb[i - 1] == start);
        assert(wb.contains(start));
        lemma_walk_offs_from(b, o + len, start);
        assert(9 + e_name_len(b, o) <= len);
        lemma_entry_before(b, c, o, start);
        assert(walk_offs(b, o)[0] == o);
        assert(walk_offs(b, o).contains(o));
        assert(!query_matches(true, name, 0, c, o));
        assert forall|p: int| #[trigger] wb.contains(p) && p < start implies !query_matches(true, name, 0, b, p) by {
            let k = choose|k: int| 0 <= k < wb.len() && wb[k] == p;
            assert(walk_offs(b, o)[k + 1] == p);
            assert(walk_offs(b, o).contains(p));
        }
        lemma_freed_prefix(b, c, o + len, start, name);
        let wc = walk_offs(c, o + len);
        assert(walk_offs(c, o) == seq![o] + wc);
        lemma_first_match_shift(c, o, wc, true, name, 0, 0);
    }
}

/// A name that a directory block holds once is no longer found after its
/// entry is freed: when the walk of the block ends cleanly, its entries hold
/// their names inside their records and the entry at `off` is the only one
/// named `name`, a search by that name of the block after `free_region`
/// finds nothing.
pub proof fn law_freed_entry_gone(b: Seq<u8>, off: int, name: Seq<u8>)
    requires
        b.len() == 256,
        walk_end(b, 0) == WalkEnd::Clean,
        names_inside_before(b, 0, 256),
        search_block(b, true, name, 0) == Some(Ok::<int, WalkEnd>(off)),
        forall|p: int| #[trigger] walk_offs(b, 0).contains(p) && p != off ==> !query_matches(true, name, 0, b, p),
        freed_region(b, off) is Some,
    ensures
        search_block(entry_freed(b, off), true, name, 0) is None,
{
    let (start, size) = freed_region(b, off)->Some_0;
    let f = free_entry(size as u16);
    let c = entry_freed(b, off);
    let offs = walk_offs(b, 0);
    lemma_first_match_range(b, offs, true, name, 0, 0);
    assert(offs.contains(off));
    lemma_walk_offs_from(b, 0, off);
    // the freed region as written
    lemma_entry_roundtrip(f, b, start);
    assert(c.len() == 256);
    assert(e_parsable(c, start) && e_rec(c, start) == size && e_free(c, start));
    assert forall|p: int| 0 <= p < start implies #[trigger] c[p] == b[p] by {}
    assert forall|x: int| start + size <= x < 256 implies #[trigger] c[x] == b[x] by {}
    // the walk of `b` meets the start of the region
    lemma_find_prev_walk(b, 0, off);
    assert(offs.contains(start));
    lemma_walk_sub(b, 0, off);
    let len = e_rec(b, off) as int;
    let next = off + len;
    assert(!(next > 256 || len == 0)) by {
        if next > 256 || len == 0 {
            assert(walk_end(b, off) != WalkEnd::Clean);
        }
    }
    assert(walk_offs(b, off) == seq![off] + walk_offs(b, next));
    assert(walk_end(b, off) == walk_end(b, next));
    // the walk of `b` after the region
    let end = start + size;
    assert(end == 256 || offs.contains(end)) by {
        if next < 256 {
            assert(e_parsable(b, next)) by {
                if !e_parsable(b, next) {
                    assert(walk_end(b, next) == WalkEnd::Unparsable);
                }
            }
            assert(walk_offs(b, off)[1] == next);
            assert(walk_offs(b, off).contains(next));
            assert(offs.contains(next));
            if e_free(b, next) {
                lemma_walk_sub(b, 0, next);
                let ln = e_rec(b, next) as int;
                assert(!(next + ln > 256 || ln == 0)) by {
                    if next + ln > 256 || ln == 0 {
                        assert(walk_end(b, next) != WalkEnd::Clean);
                    }
                }
                assert(end == next + ln);
                if end < 256 {
                    assert(e_parsable(b, end)) by {
                        if !e_parsable(b, end) {
                            assert(walk_end(b, end) == WalkEnd::Unparsable);
                        }
                    }
                    assert(walk_offs(b, next) == seq![next] + walk_offs(b, end));
                    assert(walk_offs(b, next)[1] == end);
                    assert(walk_offs(b, next).contains(end));
                }
            } else {
                assert(end == next);
            }
        } else {
            assert(end == 256);
        }
    }
    // nothing after the region matches, and its walk ends cleanly
    lemma_walk_suffix_same(b, c, end, name);
    if end < 256 {
        lemma_walk_sub(b, 0, end);
        lemma_walk_offs_from(b, 0, end);
        assert forall|k: int| 0 <= k < walk_offs(c, end).len() implies
            !query_matches(true, name, 0, c, #[trigger] walk_offs(c, end)[k]) by {
            let p = walk_offs(b, end)[k];
            assert(walk_offs(b, end).contains(p));
            lemma_walk_offs_from(b, end, p);
            assert(offs.contains(p));
        }
    } else {
        assert(walk_offs(c, end) =~= Seq::<int>::empty());
    }
    lemma_no_match_all(c, walk_offs(c, end), name, 0);
    // nor at the region itself
    let wc = walk_offs(c, end);
    assert(walk_offs(c, start) == seq![start] + wc);
    lemma_first_match_shift(c, start, wc, true, name, 0, 0);
    assert(!query_matches(true, name, 0, c, start));
    // nor before it
    lemma_names_inside_shorter(b, 0, 256, start);
    assert forall|p: int| #[trigger] offs.contains(p) && p < start implies !query_matches(true, name, 0, b, p) by {}
    lemma_freed_prefix(b, c, 0, start, name);
}

/// A walk whose entries none matches has no first match.
proof fn lemma_no_match_all(c: Seq<u8>, w: Seq<int>, name: Seq<u8>, i: int)
    requires
        0 <= i,
        forall|k: int| 0 <= k < w.len() ==> !query_matches(true, name, 0, c, #[trigger] w[k]),
    ensures
        first_match(c, w, true, name, 0, i) == w.len(),
    decreases w.len() - i,
{
    if i < w.len() {
        lemma_no_match_all(c, w, name, i + 1);
    }
}

/// The blocks of directory `dir` lie on the device, are distinct, are marked
/// in use in the block bitmap and hold their entries' names inside their
/// records, and none of its entries is named `name`.
pub open spec fn fresh_name_in(dev: Seq<Seq<u8>>, sb: crate::formats::v1::superblock::Superblock, dir: INode, name: Seq<u8>) -> bool {
    let ds = sb.data_start as int;
    let bb = sb.block_bitmap_start as int;
    &&& dir_on_device(dev, ds, dir)
    &&& search_dir(dev, ds, dir, true, name, 0, 0) is None
    &&& forall|j: int| 0 <= j < dir.blocks && j < 12 ==> bit_set(dev, bb, #[trigger] dir.direct@[j] as int)
        && names_inside_before(dev[ds + dir.direct@[j]], 0, 256)
    &&& forall|j1: int, j2: int| 0 <= j1 < j2 < dir.blocks && j2 < 12 ==> #[trigger] dir.direct@[j1] != #[trigger] dir.direct@[j2]
}

/// The walk facts up to offset `t1` hold up to any offset before it.
proof fn lemma_names_inside_shorter(b: Seq<u8>, o: int, t1: int, t2: int)
    requires
        names_inside_before(b, o, t1),
        t2 <= t1,
    ensures
        names_inside_before(b, o, t2),
    decreases 256 - o,
{
    if !(o < 0 || o >= 256 || o >= t2 || !e_parsable(b, o)) {
        let len = e_rec(b, o) as int;
        if !(o + len > 256 || len == 0) {
            lemma_names_inside_shorter(b, o + len, t1, t2);
        }
    }
}

/// The entry that a creation placed in a directory that held no entry of its
/// name is the first match of a search by that name.
proof fn lemma_created_search(dev: Seq<Seq<u8>>, fin: Seq<Seq<u8>>, sb: crate::formats::v1::superblock::Superblock,
    pin: INode, d: INode, name: Seq<u8>, i: int, off: int, e: DirEntry)
    requires
        well_sized(dev),
        fin.len() == dev.len(),
        sb.total_blocks <= dev.len(),
        sb.data_start <= sb.total_blocks,
        bitmaps_covered(sb),
        fresh_name_in(dev, sb, pin, name),
        e.name_view() == name,
        e.well_formed(),
        e.inode != INVALID_ADDRESS,
        placed_at(dev, fin, sb, d, pin, i, off, e),
        d.blocks == pin.blocks || (d.blocks == pin.blocks + 1 && pin.blocks < 12
            && d.direct@[pin.blocks as int] < sb.total_blocks - sb.data_start
            && !bit_set(dev, sb.block_bitmap_start as int, d.direct@[pin.blocks as int] as int)),
        forall|j: int| 0 <= j < pin.blocks && j < 12 ==> #[trigger] d.direct@[j] == pin.direct@[j],
    ensures
        dir_on_device(fin, sb.data_start as int, d),
        search_dir(fin, sb.data_start as int, d, true, name, 0, 0)
            == Some(Ok::<(u32, int), WalkEnd>((d.direct@[i], off))),
        entry_at(fin[sb.data_start + d.direct@[i]], off) == e,
{
    let ds = sb.data_start as int;
    let bb = sb.block_bitmap_start as int;
    let a = ds + d.direct@[i];
    assert forall|kk: int| 0 <= kk < d.blocks && kk < 12 implies #[trigger] d.direct@[kk] + ds < fin.len() by {
        if kk < pin.blocks {
            assert(d.direct@[kk] == pin.direct@[kk]);
        }
    }
    // the blocks before the entry's find nothing
    lemma_search_dir_none(dev, ds, pin, true, name, 0, 0);
    assert forall|j: int| 0 <= j < i implies #[trigger] search_block(fin[ds + d.direct@[j]], true, name, 0) is None by {
        assert(j < pin.blocks);
        assert(d.direct@[j] == pin.direct@[j]);
        assert(bit_set(dev, bb, pin.direct@[j] as int));
        if i < pin.blocks {
            assert(d.direct@[i] == pin.direct@[i]);
        }
        assert(ds + d.direct@[j] != a);
        assert(fin[ds + d.direct@[j]] == dev[ds + pin.direct@[j]]);
    }
    // the entry's block finds it
    if i < pin.blocks {
        let b = dev[a];
        assert(d.direct@[i] == pin.direct@[i]);
        assert(bit_set(dev, bb, pin.direct@[i] as int));
        assert(search_block(b, true, name, 0) is None);
        lemma_names_inside_shorter(b, 0, 256, off);
        law_added_entry_found(b, off, e, e.record_len + 12);
        law_added_entry_readable(b, off, e);
    } else {
        law_grown_entry_found(e);
        law_grown_entry_readable(e);
    }
    lemma_search_dir_at(fin, ds, d, true, name, 0, 0, i, off);
    lemma_entry_at(fin[a], off, e);
}

/// The inode slots that a resolution may not read: those not marked in use
/// in the inode bitmap, and slot `skip`.
pub open spec fn unused_slot(dev: Seq<Seq<u8>>, sb: crate::formats::v1::superblock::Superblock, skip: int) -> spec_fn(int) -> bool {
    |x: int| !bit_set(dev, sb.inode_bitmap_start as int, x) || x == skip
}

/// The blocks that a resolution may not read: those outside the data region
/// or not marked in use in the block bitmap, and the blocks of `dir`.
pub open spec fn unused_or_of(dev: Seq<Seq<u8>>, sb: crate::formats::v1::superblock::Superblock, dir: INode) -> spec_fn(int) -> bool {
    |y: int| !(sb.data_start <= y && bit_set(dev, sb.block_bitmap_start as int, y - sb.data_start))
        || exists|j: int| 0 <= j < dir.blocks && j < 12 && y == sb.data_start + #[trigger] dir.direct@[j]
}

/// The resolution of the directory that holds the entry named by `path`
/// reads only inodes marked in use, other than the one in slot `skip`, reads
/// the slot of that directory only for its target, and reads only data
/// blocks marked in use that are not blocks of that directory.
#[verifier::opaque]
pub open spec fn parent_reads_in_use(fs: FormatV1, dev: Seq<Seq<u8>>, path: Seq<u8>, skip: int) -> bool {
    fs.parent_spec(dev, path) matches Some(Ok(p)) && resolve_avoids(dev, fs.directory_handler, fs.inode_handler,
        path_components(path).drop_last(), path_is_absolute(path), fs.superblock.root_inode, true, 0,
        unused_slot(dev, fs.superblock, skip), p.target_inode_index as int, unused_or_of(dev, fs.superblock, p.target_inode))
}

/// The directory that the parent resolution gives is the inode held in its
/// slot.
proof fn lemma_parent_targeted(fs: FormatV1, dev: Seq<Seq<u8>>, path: Seq<u8>, skip: int, p: ResolutionResult)
    requires
        parent_reads_in_use(fs, dev, path, skip),
        fs.parent_spec(dev, path) == Some(Ok::<ResolutionResult, FSErrorCode>(p)),
    ensures
        p.target_inode == inode_at(dev, fs.inode_handler.inode_table_start as int, p.target_inode_index as int),
        p.target_inode_index < fs.inode_handler.max_inodes(),
{
    reveal(parent_reads_in_use);
    lemma_resolve_frame(dev, dev, fs.directory_handler, fs.inode_handler, path_components(path).drop_last(),
        path_is_absolute(path), fs.superblock.root_inode, true, 0, unused_slot(dev, fs.superblock, skip),
        p.target_inode_index as int, unused_or_of(dev, fs.superblock, p.target_inode));
}

/// What the resolution of the parent of `path` gives on `fin`, when `fin`
/// keeps what that resolution reads of `dev`: the same directory, with its
/// inode read from `fin`.
proof fn lemma_parent_kept(fs: FormatV1, dev: Seq<Seq<u8>>, fs2: FormatV1, fin: Seq<Seq<u8>>, path: Seq<u8>, skip: int,
    p: ResolutionResult)
    requires
        fs.wf(),
        fs2.wf(),
        fs2.same_layout(&fs),
        parent_reads_in_use(fs, dev, path, skip),
        fs.parent_spec(dev, path) == Some(Ok::<ResolutionResult, FSErrorCode>(p)),
        agrees_outside(dev, fin, fs.inode_handler, unused_slot(dev, fs.superblock, skip), p.target_inode_index as int,
            unused_or_of(dev, fs.superblock, p.target_inode)),
        inode_at(fin, fs.superblock.inode_table_start as int, p.target_inode_index as int).file_type == FileType::Directory,
    ensures
        fs2.parent_spec(fin, path) == Some(Ok::<ResolutionResult, FSErrorCode>(retarget_state(p, fin, fs.inode_handler))),
{
    reveal(parent_reads_in_use);
    lemma_resolve_frame(dev, fin, fs.directory_handler, fs.inode_handler, path_components(path).drop_last(),
        path_is_absolute(path), fs.superblock.root_inode, true, 0, unused_slot(dev, fs.superblock, skip),
        p.target_inode_index as int, unused_or_of(dev, fs.superblock, p.target_inode));
}

/// A creation keeps, outside the directory's blocks and what is not in use,
/// what the device held.
proof fn lemma_created_agrees(dev: Seq<Seq<u8>>, fin: Seq<Seq<u8>>, fs: FormatV1, pi: u32, pin: INode, k: u32,
    t: FileType, name: Seq<u8>, i: int, off: int, e: DirEntry)
    requires
        fs.wf(),
        fin.len() == dev.len(),
        bitmaps_covered(fs.superblock),
        !bit_set(dev, fs.superblock.inode_bitmap_start as int, k as int),
        pin == inode_at(dev, fs.superblock.inode_table_start as int, pi as int),
        pi < fs.inode_handler.max_inodes(),
        created(dev, fin, fs.superblock, pi, pin, k, t, name),
        placed_at(dev, fin, fs.superblock, inode_at(fin, fs.superblock.inode_table_start as int, pi as int), pin, i, off, e),
    ensures
        agrees_outside(dev, fin, fs.inode_handler, unused_slot(dev, fs.superblock, -1), pi as int,
            unused_or_of(dev, fs.superblock, pin)),
{
    let sb = fs.superblock;
    let ds = sb.data_start as int;
    let ts = sb.inode_table_start as int;
    let d = inode_at(fin, ts, pi as int);
    let bad = unused_slot(dev, sb, -1);
    let bad_block = unused_or_of(dev, sb, pin);
    let a = ds + d.direct@[i];
    assert forall|y: int| 0 <= y < dev.len() && !bad_block(y) implies #[trigger] fin[y] == dev[y] by {
        if i < pin.blocks {
            assert(d.direct@[i] == pin.direct@[i]);
            assert(!(y == ds + pin.direct@[i]));
        }
        assert(y != a);
    }
    assert forall|x: int| 0 <= x < fs.inode_handler.max_inodes() && !bad(x) && x != pi as int
        implies #[trigger] inode_at(fin, ts, x) == inode_at(dev, ts, x) by {
        assert(x != k);
    }
}

/// A name created in a directory that held no entry of that name is then
/// found there: after `create_file` has placed the entry of the new inode `k`
/// for `path` (as `created` says), when the resolution of the directory reads
/// only what is marked in use, on a layout whose bitmaps cover their
/// indices, `file_exists` answers that the path exists with the type
/// created, and `delete_file` finds the new inode.
pub proof fn law_created_found(fs: FormatV1, dev: Seq<Seq<u8>>, fs2: FormatV1, fin: Seq<Seq<u8>>, path: Seq<u8>, k: u32,
    t: FileType)
    requires
        fs.wf(),
        fs2.wf(),
        fs2.same_layout(&fs),
        well_sized(dev),
        fin.len() == dev.len(),
        fs.superblock.total_blocks <= dev.len(),
        bitmaps_covered(fs.superblock),
        path_components(path).last().len() <= 64,
        !bit_set(dev, fs.superblock.inode_bitmap_start as int, k as int),
        parent_reads_in_use(fs, dev, path, -1),
        fs.parent_spec(dev, path) matches Some(Ok(p))
            && fresh_name_in(dev, fs.superblock, p.target_inode, path_components(path).last())
            && created(dev, fin, fs.superblock, p.target_inode_index, p.target_inode, k, t, path_components(path).last()),
    ensures
        fs2.exists_spec(fin, path) == Some(Ok::<(bool, Option<FileType>), FSErrorCode>((true, Some(t)))),
        fs2.delete_spec(fin, path, t) matches Some(Ok(x)) && x.0.inode == k,
{
    let sb = fs.superblock;
    let ts = sb.inode_table_start as int;
    let name = path_components(path).last();
    let p = fs.parent_spec(dev, path)->Some_0->Ok_0;
    let pin = p.target_inode;
    let pi = p.target_inode_index;
    let d = inode_at(fin, ts, pi as int);
    let (i, off, e) = choose|i: int, off: int, e: DirEntry| {
        &&& e.inode == k && e.file_type == t && e.name_view() == stored_name(name) && e.well_formed()
        &&& #[trigger] placed_at(dev, fin, sb, d, pin, i, off, e)
    };
    assert(e.name_view() == name);
    lemma_created_search(dev, fin, sb, pin, d, name, i, off, e);
    lemma_parent_targeted(fs, dev, path, -1, p);
    lemma_created_agrees(dev, fin, fs, pi, pin, k, t, name, i, off, e);
    lemma_parent_kept(fs, dev, fs2, fin, path, -1, p);
    assert(retarget_state(p, fin, fs.inode_handler).target_inode == d);
}

/// Creating a file or directory in a directory where its entry fits and no
/// entry had its name (as in `law_created_found`), then deleting it, gives
/// back the free inodes and the
/// free data blocks: `create_file` takes one inode and the new file's blocks
/// (none for a file, one for a directory), and `delete_file` frees them.
pub proof fn law_create_delete_counts(fs0: FormatV1, dev0: Seq<Seq<u8>>, fs1: FormatV1, dev1: Seq<Seq<u8>>, fs2: FormatV1,
    path: Seq<u8>, t: FileType)
    requires
        fs0.wf(),
        fs1.wf(),
        fs1.same_layout(&fs0),
        well_sized(dev0),
        dev1.len() == dev0.len(),
        fs0.superblock.total_blocks <= dev0.len(),
        bitmaps_covered(fs0.superblock),
        path_components(path).last().len() <= 64,
        parent_reads_in_use(fs0, dev0, path, -1),
        t == FileType::File || t == FileType::Directory,
        fs0.parent_spec(dev0, path) matches Some(Ok(p)) && ({
            let sb = fs0.superblock;
            let ds = sb.data_start as int;
            let ts = sb.inode_table_start as int;
            let name = path_components(path).last();
            let k = fs0.inode_allocator.free_scan(dev0)[0];
            let used = if t == FileType::Directory { 1int } else { 0int };
            let fits = search_dir(dev0, ds, p.target_inode, false, Seq::empty(), min_rec(name.len() as int) + 12, 0);
            &&& fresh_name_in(dev0, sb, p.target_inode, name)
            &&& bit_set(dev0, sb.inode_bitmap_start as int, p.target_inode_index as int)
            &&& fits is Some
            // what `create_file` ensures when it succeeds
            &&& fs1.superblock.free_inodes == sb.free_inodes - 1
            &&& sb.free_data - fs1.superblock.free_data == used + if fits is None { 1int } else { 0int }
            &&& !bit_set(dev0, sb.inode_bitmap_start as int, k as int)
            &&& created(dev0, dev1, sb, p.target_inode_index, p.target_inode, k, t, name)
            &&& p.target_inode_index != k ==> inode_at(dev1, ts, k as int).links == 1
                && inode_at(dev1, ts, k as int).blocks == used
            // what `delete_file` ensures when it succeeds
            &&& (fs1.delete_spec(dev1, path, t) matches Some(Ok(x)) ==> (inode_at(dev1, ts, x.0.inode as int).links <= 1
                ==> fs2.superblock.free_inodes == sat_add(fs1.superblock.free_inodes, 1)
                && fs2.superblock.free_data == sat_add(fs1.superblock.free_data, inode_at(dev1, ts, x.0.inode as int).blocks)))
        }),
    ensures
        fs2.superblock.free_inodes == fs0.superblock.free_inodes,
        fs2.superblock.free_data == fs0.superblock.free_data,
{
    let sb = fs0.superblock;
    let p = fs0.parent_spec(dev0, path)->Some_0->Ok_0;
    let k = fs0.inode_allocator.free_scan(dev0)[0];
    law_created_found(fs0, dev0, fs1, dev1, path, k, t);
    assert(p.target_inode_index != k);
}

/// The entry at offset `p` of the `j`-th block of directory `dir` is on the
/// walk of that block, in use, and named `name`.
pub open spec fn named_at(dev: Seq<Seq<u8>>, ds: int, dir: INode, name: Seq<u8>, j: int, p: int) -> bool {
    &&& 0 <= j < dir.blocks && j < 12
    &&& walk_offs(dev[ds + dir.direct@[j]], 0).contains(p)
    &&& query_matches(true, name, 0, dev[ds + dir.direct@[j]], p)
}

/// The blocks of directory `dir` lie on the device, are distinct, walk
/// cleanly and hold their entries' names inside their records, and at most
/// one of its entries is named `name`.
pub open spec fn held_once_in(dev: Seq<Seq<u8>>, sb: crate::formats::v1::superblock::Superblock, dir: INode, name: Seq<u8>) -> bool {
    let ds = sb.data_start as int;
    &&& dir_on_device(dev, ds, dir)
    &&& dir_clean(dev, ds, dir)
    &&& forall|j: int| 0 <= j < dir.blocks && j < 12 ==> names_inside_before(#[trigger] dev[ds + dir.direct@[j]], 0, 256)
    &&& forall|j1: int, j2: int| 0 <= j1 < j2 < dir.blocks && j2 < 12 ==> #[trigger] dir.direct@[j1] != #[trigger] dir.direct@[j2]
    &&& forall|j1: int, p1: int, j2: int, p2: int| #[trigger] named_at(dev, ds, dir, name, j1, p1)
        && #[trigger] named_at(dev, ds, dir, name, j2, p2) ==> j1 == j2 && p1 == p2
}

/// A block whose walk ends cleanly and none of whose entries is named `name`
/// finds nothing by that name.
proof fn lemma_block_no_name(b: Seq<u8>, name: Seq<u8>)
    requires
        walk_end(b, 0) == WalkEnd::Clean,
        forall|p: int| #[trigger] walk_offs(b, 0).contains(p) ==> !query_matches(true, name, 0, b, p),
    ensures
        search_block(b, true, name, 0) is None,
{
    let w = walk_offs(b, 0);
    assert forall|k: int| 0 <= k < w.len() implies !query_matches(true, name, 0, b, #[trigger] w[k]) by {
        assert(w.contains(w[k]));
    }
    lemma_no_match_all(b, w, name, 0);
}

/// After the entry at `off` of block `blk` of a directory that holds one
/// entry named `name` is freed (as `deleted` says), no block of the
/// directory finds that name.
proof fn lemma_deleted_search(dev: Seq<Seq<u8>>, fin: Seq<Seq<u8>>, sb: crate::formats::v1::superblock::Superblock,
    pin: INode, d: INode, name: Seq<u8>, k: u32, n: INode, blk: u32, off: int, pi: u32)
    requires
        well_sized(dev),
        fin.len() == dev.len(),
        bitmaps_covered(sb),
        held_once_in(dev, sb, pin, name),
        search_dir(dev, sb.data_start as int, pin, true, name, 0, 0) == Some(Ok::<(u32, int), WalkEnd>((blk, off))),
        deleted(dev, fin, sb, k, n, blk, off, pi, pin),
        d == inode_at(fin, sb.inode_table_start as int, pi as int),
    ensures
        dir_on_device(fin, sb.data_start as int, d),
        search_dir(fin, sb.data_start as int, d, true, name, 0, 0) is None,
{
    let ds = sb.data_start as int;
    let addr = ds + blk;
    assert(d.direct@ == pin.direct@ && d.blocks == pin.blocks);
    // where the entry was found
    lemma_search_dir_block(dev, ds, pin, true, name, 0, 0);
    lemma_search_dir_hit(dev, ds, pin, true, name, 0, 0);
    let i = choose|i: int| 0 <= i < pin.blocks && i < 12 && #[trigger] pin.direct@[i] == blk;
    lemma_search_dir_none(dev, ds, pin, false, Seq::empty(), 65536, 0);
    assert(addr < dev.len());
    let b = dev[addr];
    assert(b == dev[ds + pin.direct@[i]]);
    lemma_walk_clean_no_match(b);
    let offs = walk_offs(b, 0);
    lemma_first_match_range(b, offs, true, name, 0, 0);
    lemma_first_match_hits(b, offs, true, name, 0, 0);
    assert(offs.contains(off));
    assert(named_at(dev, ds, pin, name, i, off));
    // every block of the directory finds nothing
    assert forall|j: int| 0 <= j < d.blocks && j < 12 implies #[trigger] search_block(fin[ds + d.direct@[j]], true, name, 0) is None by {
        let bj = dev[ds + pin.direct@[j]];
        lemma_walk_clean_no_match(bj);
        if j == i {
            assert forall|q: int| #[trigger] walk_offs(b, 0).contains(q) && q != off implies !query_matches(true, name, 0, b, q) by {
                if query_matches(true, name, 0, b, q) {
                    assert(named_at(dev, ds, pin, name, i, q));
                }
            }
            law_freed_entry_gone(b, off, name);
        } else {
            assert(pin.direct@[j] != blk) by {
                if j < i {
                    assert(pin.direct@[j] != pin.direct@[i]);
                } else {
                    assert(pin.direct@[i] != pin.direct@[j]);
                }
            }
            assert(fin[ds + d.direct@[j]] == bj);
            assert forall|q: int| #[trigger] walk_offs(bj, 0).contains(q) implies !query_matches(true, name, 0, bj, q) by {
                if query_matches(true, name, 0, bj, q) {
                    assert(named_at(dev, ds, pin, name, j, q));
                }
            }
            lemma_block_no_name(bj, name);
        }
    }
    lemma_search_dir_all_none(fin, ds, d, true, name, 0, 0);
}

/// A deletion keeps, outside the directory's blocks, the deleted inode and
/// what is not in use, what the device held.
proof fn lemma_deleted_agrees(dev: Seq<Seq<u8>>, fin: Seq<Seq<u8>>, fs: FormatV1, pi: u32, pin: INode, k: u32, n: INode,
    blk: u32, off: int)
    requires
        fs.wf(),
        fin.len() == dev.len(),
        bitmaps_covered(fs.superblock),
        pin == inode_at(dev, fs.superblock.inode_table_start as int, pi as int),
        exists|i: int| 0 <= i < pin.blocks && i < 12 && #[trigger] pin.direct@[i] == blk,
        deleted(dev, fin, fs.superblock, k, n, blk, off, pi, pin),
    ensures
        agrees_outside(dev, fin, fs.inode_handler, unused_slot(dev, fs.superblock, k as int), pi as int,
            unused_or_of(dev, fs.superblock, pin)),
{
    let sb = fs.superblock;
    let ds = sb.data_start as int;
    let ts = sb.inode_table_start as int;
    let bad = unused_slot(dev, sb, k as int);
    let bad_block = unused_or_of(dev, sb, pin);
    let i = choose|i: int| 0 <= i < pin.blocks && i < 12 && #[trigger] pin.direct@[i] == blk;
    assert forall|y: int| 0 <= y < dev.len() && !bad_block(y) implies #[trigger] fin[y] == dev[y] by {
        assert(!(y == ds + pin.direct@[i]));
    }
    assert forall|x: int| 0 <= x < fs.inode_handler.max_inodes() && !bad(x) && x != pi as int
        implies #[trigger] inode_at(fin, ts, x) == inode_at(dev, ts, x) by {
        assert(x != k);
    }
}

/// A name held once in a directory is no longer found after its entry is
/// deleted: after `delete_file` has freed the entry found for `path` (as
/// `deleted` says), in a directory whose blocks walk cleanly and hold one
/// entry of that name at most, when the resolution of the directory reads
/// only what is marked in use and not the deleted inode, on a layout whose
/// bitmaps cover their indices, `file_exists` answers that the path does not
/// exist.
pub proof fn law_deleted_gone(fs: FormatV1, dev: Seq<Seq<u8>>, fs2: FormatV1, fin: Seq<Seq<u8>>, path: Seq<u8>, t: FileType)
    requires
        fs.wf(),
        fs2.wf(),
        fs2.same_layout(&fs),
        well_sized(dev),
        fin.len() == dev.len(),
        fs.superblock.total_blocks <= dev.len(),
        bitmaps_covered(fs.superblock),
        fs.entry_spec(dev, path) matches Some(Ok((p, _)))
            && held_once_in(dev, fs.superblock, p.target_inode, path_components(path).last())
            && (fs.delete_spec(dev, path, t) matches Some(Ok(x))
            && parent_reads_in_use(fs, dev, path, x.0.inode as int)
            && deleted(dev, fin, fs.superblock, x.0.inode, inode_at(dev, fs.superblock.inode_table_start as int, x.0.inode as int),
                x.1, x.2, p.target_inode_index, p.target_inode)),
    ensures
        fs2.exists_spec(fin, path) == Some(Ok::<(bool, Option<FileType>), FSErrorCode>((false, None))),
{
    let sb = fs.superblock;
    let ds = sb.data_start as int;
    let ts = sb.inode_table_start as int;
    let name = path_components(path).last();
    let p = fs.parent_spec(dev, path)->Some_0->Ok_0;
    let pin = p.target_inode;
    let pi = p.target_inode_index;
    let x = fs.delete_spec(dev, path, t)->Some_0->Ok_0;
    let k = x.0.inode;
    let n = inode_at(dev, ts, k as int);
    let d = inode_at(fin, ts, pi as int);
    assert(search_dir(dev, ds, pin, true, name, 0, 0) == Some(Ok::<(u32, int), WalkEnd>((x.1, x.2))));
    lemma_search_dir_block(dev, ds, pin, true, name, 0, 0);
    lemma_deleted_search(dev, fin, sb, pin, d, name, k, n, x.1, x.2, pi);
    lemma_parent_targeted(fs, dev, path, k as int, p);
    lemma_deleted_agrees(dev, fin, fs, pi, pin, k, n, x.1, x.2);
    lemma_parent_kept(fs, dev, fs2, fin, path, k as int, p);
    assert(retarget_state(p, fin, fs.inode_handler).target_inode == d);
}

/// A freshly formatted filesystem keeps its free counters in agreement with
/// its bitmaps: `format` marks only the root directory's inode and data block
/// as used, so `check_integrity` reports no inconsistent counter.
pub proof fn law_format_counts(fs: FormatV1, dev: Seq<Seq<u8>>)
    requires
        fs.wf(),
        can_format(dev.len() as int),
        fs.superblock == format_superblock(dev.len() as int),
        only_first_set(dev, fs.superblock.inode_bitmap_start as int, fs.superblock.inode_bitmap_blocks as int),
        only_first_set(dev, fs.superblock.block_bitmap_start as int, fs.superblock.block_bitmap_blocks as int),
    ensures
        ({
            let ia = fs.inode_allocator;
            let ba = fs.block_allocator;
            let inodes = count_set(dev, ia.start_block() as int, 0, spec_min(ia.bitmap_blocks() * 2048, ia.spec_max_index() as int));
            let blocks = count_set(dev, ba.start_block() as int, 0, spec_min(ba.bitmap_blocks() * 2048, ba.spec_max_index() as int));
            &&& inodes == 1 && blocks == 1
            &&& metadata_errors(fs, inodes as int, blocks as int) == Seq::<V1IntegrityError>::empty()
        }),
{
    let sb = fs.superblock;
    law_format_layout(dev.len() as int);
    let ia = fs.inode_allocator;
    let ba = fs.block_allocator;
    assert(sb.inode_table_blocks >= 1);
    assert(sb.inode_bitmap_blocks >= 1);
    assert(sb.block_bitmap_blocks >= 1);
    lemma_count_only_first(dev, sb.inode_bitmap_start as int, sb.inode_bitmap_blocks as int,
        spec_min(ia.bitmap_blocks() * 2048, ia.spec_max_index() as int));
    lemma_count_only_first(dev, sb.block_bitmap_start as int, sb.block_bitmap_blocks as int,
        spec_min(ba.bitmap_blocks() * 2048, ba.spec_max_index() as int));
    assert(metadata_errors(fs, 1, 1) =~= Seq::<V1IntegrityError>::empty());
}

} // verus!
