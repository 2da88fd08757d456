use vstd::prelude::*;
use crate::fs_utils::{BLOCK_SIZE, INVALID_ADDRESS};
use crate::fs_error::{FSError, FSResult, StorageFullKind};
use crate::device::block_device::{BlockDevice, device_result};

verus! {

/// Number of bits held by one bitmap block.
pub const BITS_PER_BLOCK: u32 = 2048;

/// Whether bit `i` of the bitmap that starts at block `start` of `dev` is set.
pub open spec fn bit_set(dev: Seq<Seq<u8>>, start: int, i: int) -> bool {
    (dev[start + i / 2048][(i / 8) % 256] >> ((i % 8) as u8)) & 1u8 == 1u8
}

/// The indices in `[lo, hi)` whose bit is clear, in increasing order.
pub open spec fn free_in(dev: Seq<Seq<u8>>, start: int, lo: int, hi: int) -> Seq<u32>
    decreases hi - lo,
{
    if hi <= lo {
        Seq::empty()
    } else if bit_set(dev, start, hi - 1) {
        free_in(dev, start, lo, hi - 1)
    } else {
        free_in(dev, start, lo, hi - 1).push((hi - 1) as u32)
    }
}

/// The number of indices in `[lo, hi)` whose bit is set.
pub open spec fn count_set(dev: Seq<Seq<u8>>, start: int, lo: int, hi: int) -> nat
    decreases hi - lo,
{
    if hi <= lo {
        0
    } else if bit_set(dev, start, hi - 1) {
        count_set(dev, start, lo, hi - 1) + 1
    } else {
        count_set(dev, start, lo, hi - 1)
    }
}

/// The first `n` elements of `s` (all of them if there are fewer).
pub open spec fn first_n(s: Seq<u32>, n: int) -> Seq<u32> {
    if s.len() <= n { s } else { s.take(n) }
}

pub open spec fn spec_min(a: int, b: int) -> int {
    if a <= b { a } else { b }
}

/// `dev` after setting (`value`) or clearing bit `i` of the bitmap at `start`.
pub open spec fn with_bit(dev: Seq<Seq<u8>>, start: int, i: int, value: bool) -> Seq<Seq<u8>> {
    let blk = start + i / 2048;
    let byte = (i / 8) % 256;
    let old_b = dev[blk][byte];
    let mask = (1u8 << ((i % 8) as u8));
    let new_b = if value { old_b | mask } else { old_b & !mask };
    dev.update(blk, dev[blk].update(byte, new_b))
}

/// `dev` after setting or clearing, one after the other, the bits of `idx`.
pub open spec fn with_bits(dev: Seq<Seq<u8>>, start: int, idx: Seq<u32>, value: bool) -> Seq<Seq<u8>>
    decreases idx.len(),
{
    if idx.len() == 0 {
        dev
    } else {
        with_bit(with_bits(dev, start, idx.drop_last(), value), start, idx.last() as int, value)
    }
}

/// The block indices of the device that hold bit `i` of the bitmap at `start`.
pub open spec fn bitmap_block_of(start: int, i: int) -> int {
    start + i / 2048
}

pub proof fn lemma_free_in_concat(dev: Seq<Seq<u8>>, start: int, lo: int, mid: int, hi: int)
    requires
        lo <= mid <= hi,
    ensures
        free_in(dev, start, lo, hi) == free_in(dev, start, lo, mid) + free_in(dev, start, mid, hi),
    decreases hi - mid,
{
    if hi == mid {
        assert(free_in(dev, start, mid, hi) =~= Seq::<u32>::empty());
        assert(free_in(dev, start, lo, mid) + free_in(dev, start, mid, hi) =~= free_in(dev, start, lo, mid));
    } else {
        lemma_free_in_concat(dev, start, lo, mid, hi - 1);
        if bit_set(dev, start, hi - 1) {
        } else {
            assert(free_in(dev, start, lo, hi) =~= free_in(dev, start, lo, mid) + free_in(dev, start, mid, hi));
        }
    }
}

pub proof fn lemma_count_set_concat(dev: Seq<Seq<u8>>, start: int, lo: int, mid: int, hi: int)
    requires
        lo <= mid <= hi,
    ensures
        count_set(dev, start, lo, hi) == count_set(dev, start, lo, mid) + count_set(dev, start, mid, hi),
    decreases hi - mid,
{
    if hi > mid {
        lemma_count_set_concat(dev, start, lo, mid, hi - 1);
    }
}

pub proof fn lemma_free_in_bounds(dev: Seq<Seq<u8>>, start: int, lo: int, hi: int)
    requires
        0 <= lo,
        hi <= u32::MAX + 1,
    ensures
        forall|k: int| 0 <= k < free_in(dev, start, lo, hi).len() ==>
            lo <= #[trigger] free_in(dev, start, lo, hi)[k] < hi
            && !bit_set(dev, start, free_in(dev, start, lo, hi)[k] as int),
        forall|k1: int, k2: int| 0 <= k1 < k2 < free_in(dev, start, lo, hi).len() ==>
            #[trigger] free_in(dev, start, lo, hi)[k1] < #[trigger] free_in(dev, start, lo, hi)[k2],
        free_in(dev, start, lo, hi).len() <= if hi <= lo { 0 } else { hi - lo },
    decreases hi - lo,
{
    if hi > lo {
        lemma_free_in_bounds(dev, start, lo, hi - 1);
    }
}

/// Every clear bit of `[lo, hi)` is among the free indices of that range.
pub proof fn lemma_free_in_contains(dev: Seq<Seq<u8>>, start: int, lo: int, hi: int, i: int)
    requires
        0 <= lo <= i < hi,
        hi <= u32::MAX + 1,
        !bit_set(dev, start, i),
    ensures
        free_in(dev, start, lo, hi).contains(i as u32),
    decreases hi - lo,
{
    if i == hi - 1 {
        let f = free_in(dev, start, lo, hi);
        assert(f[f.len() - 1] == i as u32);
    } else {
        lemma_free_in_contains(dev, start, lo, hi - 1, i);
        let g = free_in(dev, start, lo, hi - 1);
        let k = choose|k: int| 0 <= k < g.len() && g[k] == i as u32;
        assert(free_in(dev, start, lo, hi)[k] == i as u32);
    }
}

pub proof fn lemma_first_n_extend(a: Seq<u32>, b: Seq<u32>, n: int)
    requires
        0 <= n <= a.len(),
    ensures
        first_n(a + b, n) == first_n(a, n),
{
    assert((a + b).take(n) =~= a.take(n));
    if a.len() == n {
        assert(a.take(n) =~= a);
    }
}

pub proof fn lemma_free_in_empty(dev: Seq<Seq<u8>>, start: int, lo: int, hi: int)
    requires
        forall|k: int| lo <= k < hi ==> bit_set(dev, start, k),
    ensures
        free_in(dev, start, lo, hi) == Seq::<u32>::empty(),
    decreases hi - lo,
{
    if hi > lo {
        lemma_free_in_empty(dev, start, lo, hi - 1);
    }
}

pub proof fn lemma_count_set_full(dev: Seq<Seq<u8>>, start: int, lo: int, hi: int)
    requires
        forall|k: int| lo <= k < hi ==> !bit_set(dev, start, k),
    ensures
        count_set(dev, start, lo, hi) == 0,
    decreases hi - lo,
{
    if hi > lo {
        lemma_count_set_full(dev, start, lo, hi - 1);
    }
}

/// Splits an index into its bitmap block, byte and bit.
pub proof fn lemma_index_parts(blk: int, j: int, pos: int)
    requires
        0 <= blk,
        0 <= j < 256,
        0 <= pos < 8,
    ensures
        ((j + blk * 256) * 8 + pos) / 2048 == blk,
        (((j + blk * 256) * 8 + pos) / 8) % 256 == j,
        ((j + blk * 256) * 8 + pos) % 8 == pos,
        (j + blk * 256) * 8 + pos == blk * 2048 + j * 8 + pos,
{
    let i = (j + blk * 256) * 8 + pos;
    assert(i == blk * 2048 + j * 8 + pos) by (nonlinear_arith)
        requires i == (j + blk * 256) * 8 + pos;
    assert(i / 8 == j + blk * 256) by (nonlinear_arith)
        requires i == (j + blk * 256) * 8 + pos, 0 <= pos < 8, 0 <= j, 0 <= blk;
    assert(i % 8 == pos) by (nonlinear_arith)
        requires i == (j + blk * 256) * 8 + pos, 0 <= pos < 8, 0 <= j, 0 <= blk;
    assert((j + blk * 256) % 256 == j) by (nonlinear_arith)
        requires 0 <= j < 256, 0 <= blk;
    vstd::arithmetic::div_mod::lemma_div_denominator(i, 8, 256);
    assert((j + blk * 256) / 256 == blk) by (nonlinear_arith)
        requires 0 <= j < 256, 0 <= blk;
}

proof fn lemma_byte_bits(b: u8, p: u8)
    requires
        p < 8,
    ensures
        (b >> p) >> 1u8 == b >> ((p + 1) as u8),
        (b >> p) & 1u8 == 0u8 || (b >> p) & 1u8 == 1u8,
        b == 0xFFu8 ==> (b >> p) & 1u8 == 1u8,
        b == 0u8 ==> (b >> p) & 1u8 == 0u8,
{
    assert((b >> p) >> 1u8 == b >> ((p + 1) as u8)) by (bit_vector)
        requires p < 8;
    assert((b >> p) & 1u8 == 0u8 || (b >> p) & 1u8 == 1u8) by (bit_vector);
    assert(b == 0xFFu8 ==> (b >> p) & 1u8 == 1u8) by (bit_vector)
        requires p < 8;
    assert(b == 0u8 ==> (b >> p) & 1u8 == 0u8) by (bit_vector);
}

/// Scans the 8 bits of byte `b`, whose first bit has index `offset`: pushes
/// the clear ones below `max_index` onto `res`, stopping when `res` holds
/// `num` indices or an index reaches `max_index`.
fn scan_byte(
    b: u8,
    offset: u32,
    max_index: u32,
    num: usize,
    res: &mut Vec<u32>,
    Ghost(dev): Ghost<Seq<Seq<u8>>>,
    Ghost(start): Ghost<int>,
) -> (stop: bool)
    requires
        offset % 8 == 0,
        offset + 8 <= u32::MAX + 1,
        old(res)@.len() < num,
        forall|p: int| 0 <= p < 8 ==> (#[trigger] bit_set(dev, start, offset + p) <==> (b >> (p as u8)) & 1u8 == 1u8),
    ensures
        final(res)@ == first_n(old(res)@ + free_in(dev, start, offset as int, spec_min(offset + 8, max_index as int)), num as int),
        !stop ==> offset + 8 <= max_index && final(res)@.len() < num,
        stop ==> final(res)@.len() == num || max_index < offset + 8,
{
    let ghost hi = spec_min(offset + 8, max_index as int);
    let mut el: u8 = b;
    let mut pos: u8 = 0;
    assert(b >> 0u8 == b) by (bit_vector);
    while pos < 8
        invariant
            0 <= pos <= 8,
            offset % 8 == 0,
            offset + 8 <= u32::MAX + 1,
            hi == spec_min(offset + 8, max_index as int),
            el == b >> pos,
            pos == 0 || offset + pos <= max_index,
            res@ == old(res)@ + free_in(dev, start, offset as int, offset + pos),
            res@.len() < num,
            forall|p: int| 0 <= p < 8 ==> (#[trigger] bit_set(dev, start, offset + p) <==> (b >> (p as u8)) & 1u8 == 1u8),
        decreases 8 - pos,
    {
        let index: u32 = offset + pos as u32;
        if index >= max_index {
            proof {
                assert(free_in(dev, start, offset as int, offset + pos) == free_in(dev, start, offset as int, hi));
                assert(first_n(res@, num as int) == res@);
            }
            return true;
        }
        proof {
            lemma_byte_bits(b, pos);
            assert(bit_set(dev, start, offset + pos) <==> (b >> pos) & 1u8 == 1u8);
        }
        let ghost before = res@;
        if el & 1 == 0 {
            res.push(index);
            assert(free_in(dev, start, offset as int, offset + pos + 1) == free_in(dev, start, offset as int, offset + pos).push(index));
            if res.len() == num {
                proof {
                    lemma_free_in_concat(dev, start, offset as int, offset + pos + 1, hi);
                    assert(old(res)@ + free_in(dev, start, offset as int, hi) =~= res@ + free_in(dev, start, offset + pos + 1, hi));
                    lemma_first_n_extend(res@, free_in(dev, start, offset + pos + 1, hi), num as int);
                    assert(res@.take(num as int) =~= res@);
                }
                return true;
            }
        } else {
            assert(free_in(dev, start, offset as int, offset + pos + 1) == free_in(dev, start, offset as int, offset + pos));
        }
        el = el >> 1;
        pos = pos + 1;
    }
    proof {
        assert(hi == offset + 8);
    }
    false
}

/// Joins the part of a scan done so far with the part of the next bitmap block.
proof fn lemma_scan_join(dev: Seq<Seq<u8>>, start: int, s: int, a: int, lo: int, b: int, max: int)
    requires
        s <= lo,
        (lo == s && a <= s) || (lo == a && s <= a),
        a <= b,
    ensures
        free_in(dev, start, s, spec_min(a, max)) + free_in(dev, start, lo, spec_min(b, max))
            == free_in(dev, start, s, spec_min(b, max)),
{
    let x = spec_min(b, max);
    if x <= lo {
        if lo == s {
            assert(free_in(dev, start, s, spec_min(a, max)) =~= Seq::<u32>::empty());
            assert(free_in(dev, start, s, x) =~= Seq::<u32>::empty());
        } else {
            assert(spec_min(a, max) == x);
        }
        assert(free_in(dev, start, lo, x) =~= Seq::<u32>::empty());
        assert(free_in(dev, start, s, spec_min(a, max)) + free_in(dev, start, lo, x) =~= free_in(dev, start, s, spec_min(a, max)));
    } else if lo == s {
        assert(free_in(dev, start, s, spec_min(a, max)) =~= Seq::<u32>::empty());
        assert(free_in(dev, start, s, spec_min(a, max)) + free_in(dev, start, lo, x) =~= free_in(dev, start, lo, x));
    } else {
        assert(spec_min(a, max) == a);
        lemma_free_in_concat(dev, start, s, a, x);
    }
}

/// A scan up to `b` followed by the rest up to `c` is the scan up to `c`.
proof fn lemma_free_in_concat_min(dev: Seq<Seq<u8>>, start: int, s: int, b: int, c: int, max: int)
    requires
        b <= c,
        s <= spec_min(b, max),
    ensures
        free_in(dev, start, s, spec_min(c, max)) == free_in(dev, start, s, spec_min(b, max))
            + free_in(dev, start, spec_min(b, max), spec_min(c, max)),
{
    lemma_free_in_concat(dev, start, s, spec_min(b, max), spec_min(c, max));
}

/// If `r` is the first `n` elements of `a` and holds `n` elements, it is also
/// the first `n` elements of `a + b`.
proof fn lemma_first_n_of_prefix(r: Seq<u32>, a: Seq<u32>, b: Seq<u32>, n: int)
    requires
        r == first_n(a, n),
        r.len() == n,
        0 <= n,
    ensures
        r == first_n(a + b, n),
{
    lemma_first_n_extend(a, b, n);
}

/// The bits of byte `j` of bitmap block `blk` are those of `buf[j]`.
proof fn lemma_byte_of_block(dev: Seq<Seq<u8>>, start: int, blk: int, buf: Seq<u8>, j: int)
    requires
        0 <= blk,
        0 <= j < 256,
        buf == dev[start + blk],
    ensures
        forall|p: int| 0 <= p < 8 ==> (#[trigger] bit_set(dev, start, blk * 2048 + j * 8 + p) <==> (buf[j] >> (p as u8)) & 1u8 == 1u8),
{
    assert forall|p: int| 0 <= p < 8 implies (#[trigger] bit_set(dev, start, blk * 2048 + j * 8 + p) <==> (buf[j] >> (p as u8)) & 1u8 == 1u8) by {
        lemma_index_parts(blk, j, p);
    }
}

/// Scans the bytes `[from, BLOCK_SIZE)` of bitmap block `blk`, held in `buf`,
/// pushing the clear bits below `max_index` onto `res` until it holds `num`.
fn scan_block(
    buf: &[u8; BLOCK_SIZE],
    blk: u32,
    from: u32,
    max_index: u32,
    num: usize,
    res: &mut Vec<u32>,
    Ghost(dev): Ghost<Seq<Seq<u8>>>,
    Ghost(start): Ghost<int>,
) -> (stop: bool)
    requires
        buf@ == dev[start + blk],
        (blk + 1) * 2048 <= u32::MAX + 1,
        from <= 256,
        old(res)@.len() < num,
    ensures
        final(res)@ == first_n(old(res)@ + free_in(dev, start, blk * 2048 + from * 8, spec_min(blk * 2048 + 2048, max_index as int)), num as int),
        !stop ==> final(res)@.len() < num,
        stop ==> final(res)@.len() == num || max_index < blk * 2048 + 2048,
{
    let ghost lo = blk * 2048 + from * 8;
    let ghost hi = spec_min(blk * 2048 + 2048, max_index as int);
    let mut j: u32 = from;
    while j < 256
        invariant
            from <= j <= 256,
            buf@ == dev[start + blk],
            (blk + 1) * 2048 <= u32::MAX + 1,
            lo == blk * 2048 + from * 8,
            hi == spec_min(blk * 2048 + 2048, max_index as int),
            res@ == old(res)@ + free_in(dev, start, lo, spec_min(blk * 2048 + j * 8, max_index as int)),
            res@.len() < num,
        decreases 256 - j,
    {
        let b = buf[j as usize];
        let ghost o = blk * 2048 + j * 8;
        let ghost cur = spec_min(o, max_index as int);
        let ghost nxt = spec_min(o + 8, max_index as int);
        proof {
            lemma_byte_of_block(dev, start, blk as int, buf@, j as int);
            if max_index as int > o {
                lemma_free_in_concat(dev, start, lo, o, nxt);
            } else {
                assert(cur == nxt);
                assert(free_in(dev, start, o, nxt) =~= Seq::<u32>::empty());
            }
            assert(old(res)@ + free_in(dev, start, lo, nxt) =~= res@ + free_in(dev, start, o, nxt));
        }
        if b == 0xFFu8 {
            proof {
                assert forall|k: int| o <= k < nxt implies bit_set(dev, start, k) by {
                    lemma_byte_bits(b, (k - o) as u8);
                    assert(bit_set(dev, start, blk * 2048 + j * 8 + (k - o)));
                }
                lemma_free_in_empty(dev, start, o, nxt);
                assert(res@ + free_in(dev, start, o, nxt) =~= res@);
            }
        } else {
            let offset = BitmapAllocator::index_of(blk, j);
            assert(offset == o);
            let stop = scan_byte(b, offset, max_index, num, res, Ghost(dev), Ghost(start));
            if stop {
                proof {
                    if max_index as int > o + 8 {
                        lemma_free_in_concat(dev, start, lo, nxt, hi);
                        assert(old(res)@ + free_in(dev, start, lo, hi) =~= (old(res)@ + free_in(dev, start, lo, nxt)) + free_in(dev, start, nxt, hi));
                        lemma_first_n_extend(old(res)@ + free_in(dev, start, lo, nxt), free_in(dev, start, nxt, hi), num as int);
                        lemma_first_n_extend(res@, Seq::<u32>::empty(), num as int);
                        assert(res@ + Seq::<u32>::empty() =~= res@);
                    } else {
                        assert(nxt == hi);
                    }
                }
                return true;
            }
        }
        j = j + 1;
    }
    proof {
        assert(first_n(res@, num as int) == res@);
    }
    false
}

proof fn lemma_bit_ops(b: u8, p: u8, q: u8)
    requires
        p < 8,
        q < 8,
    ensures
        ((b | (1u8 << p)) >> q) & 1u8 == (if p == q { 1u8 } else { (b >> q) & 1u8 }),
        ((b & !(1u8 << p)) >> q) & 1u8 == (if p == q { 0u8 } else { (b >> q) & 1u8 }),
        (b & (1u8 << p) != 0u8) == ((b >> p) & 1u8 == 1u8),
{
    assert(((b | (1u8 << p)) >> q) & 1u8 == (if p == q { 1u8 } else { (b >> q) & 1u8 })) by (bit_vector)
        requires p < 8, q < 8;
    assert(((b & !(1u8 << p)) >> q) & 1u8 == (if p == q { 0u8 } else { (b >> q) & 1u8 })) by (bit_vector)
        requires p < 8, q < 8;
    assert((b & (1u8 << p) != 0u8) == ((b >> p) & 1u8 == 1u8)) by (bit_vector)
        requires p < 8;
}

/// Setting or clearing one bit changes that bit only.
pub proof fn lemma_with_bit(dev: Seq<Seq<u8>>, start: int, i: int, value: bool, k: int)
    requires
        0 <= i,
        0 <= k,
        0 <= start,
        start + i / 2048 < dev.len(),
        start + k / 2048 < dev.len(),
        dev[start + i / 2048].len() == 256,
    ensures
        bit_set(with_bit(dev, start, i, value), start, k) == (if k == i { value } else { bit_set(dev, start, k) }),
        with_bit(dev, start, i, value).len() == dev.len(),
        forall|m: int| 0 <= m < dev.len() ==> #[trigger] with_bit(dev, start, i, value)[m].len() == dev[m].len(),
{
    let nd = with_bit(dev, start, i, value);
    let blk = start + i / 2048;
    let byte = (i / 8) % 256;
    let kb = start + k / 2048;
    let kbyte = (k / 8) % 256;
    assert(0 <= byte < 256);
    assert(0 <= kbyte < 256);
    if kb == blk && kbyte == byte {
        assert(k / 8 == i / 8) by {
            vstd::arithmetic::div_mod::lemma_fundamental_div_mod(k / 8, 256);
            vstd::arithmetic::div_mod::lemma_fundamental_div_mod(i / 8, 256);
            vstd::arithmetic::div_mod::lemma_div_denominator(k, 8, 256);
            vstd::arithmetic::div_mod::lemma_div_denominator(i, 8, 256);
        }
        let ob = dev[blk][byte];
        lemma_bit_ops(ob, (i % 8) as u8, (k % 8) as u8);
        assert(nd[kb][kbyte] == (if value { ob | (1u8 << ((i % 8) as u8)) } else { ob & !(1u8 << ((i % 8) as u8)) }));
        if k != i {
            assert(k % 8 != i % 8) by {
                vstd::arithmetic::div_mod::lemma_fundamental_div_mod(k, 8);
                vstd::arithmetic::div_mod::lemma_fundamental_div_mod(i, 8);
            }
        }
    } else {
        if k == i {
            assert(false);
        }
        assert(nd[kb][kbyte] == dev[kb][kbyte]);
    }
}

/// Setting or clearing bits leaves every block that holds none of them.
pub proof fn lemma_with_bits_frame(dev: Seq<Seq<u8>>, start: int, idx: Seq<u32>, value: bool, a: int)
    requires
        0 <= start,
        0 <= a < dev.len(),
        forall|m: int| 0 <= m < idx.len() ==> start + #[trigger] idx[m] / 2048 != a && start + idx[m] / 2048 < dev.len(),
    ensures
        with_bits(dev, start, idx, value)[a] == dev[a],
        with_bits(dev, start, idx, value).len() == dev.len(),
    decreases idx.len(),
{
    if idx.len() > 0 {
        let rest = idx.drop_last();
        assert forall|m: int| 0 <= m < rest.len() implies start + #[trigger] rest[m] / 2048 != a
            && start + rest[m] / 2048 < dev.len() by {
            assert(rest[m] == idx[m]);
        }
        lemma_with_bits_frame(dev, start, rest, value, a);
        assert(start + idx[idx.len() - 1] / 2048 != a);
    }
}

/// Setting or clearing bits that lie on the device keeps its length and the
/// size of its blocks.
pub proof fn lemma_with_bits_len(dev: Seq<Seq<u8>>, start: int, idx: Seq<u32>, value: bool)
    requires
        0 <= start,
        forall|m: int| 0 <= m < idx.len() ==> start + #[trigger] idx[m] / 2048 < dev.len(),
        forall|m: int| 0 <= m < dev.len() ==> #[trigger] dev[m].len() == 256,
    ensures
        with_bits(dev, start, idx, value).len() == dev.len(),
        forall|m: int| 0 <= m < dev.len() ==> #[trigger] with_bits(dev, start, idx, value)[m].len() == 256,
    decreases idx.len(),
{
    if idx.len() > 0 {
        let rest = idx.drop_last();
        assert forall|m: int| 0 <= m < rest.len() implies start + #[trigger] rest[m] / 2048 < dev.len() by {
            assert(rest[m] == idx[m]);
        }
        lemma_with_bits_len(dev, start, rest, value);
        assert(start + idx[idx.len() - 1] / 2048 < dev.len());
    }
}

/// The bit of index `k` after setting or clearing the bits of `idx`.
pub proof fn lemma_with_bits(dev: Seq<Seq<u8>>, start: int, idx: Seq<u32>, value: bool, k: int)
    requires
        0 <= k,
        0 <= start,
        forall|m: int| 0 <= m < idx.len() ==> start + #[trigger] idx[m] / 2048 < dev.len(),
        forall|m: int| 0 <= m < dev.len() ==> #[trigger] dev[m].len() == 256,
        start + k / 2048 < dev.len(),
    ensures
        bit_set(with_bits(dev, start, idx, value), start, k) == (if idx.contains(k as u32) && k <= u32::MAX { value } else { bit_set(dev, start, k) }),
        with_bits(dev, start, idx, value).len() == dev.len(),
        forall|m: int| 0 <= m < dev.len() ==> #[trigger] with_bits(dev, start, idx, value)[m].len() == 256,
    decreases idx.len(),
{
    if idx.len() > 0 {
        let rest = idx.drop_last();
        assert forall|m: int| 0 <= m < rest.len() implies start + #[trigger] rest[m] / 2048 < dev.len() by {
            assert(rest[m] == idx[m]);
        }
        lemma_with_bits(dev, start, rest, value, k);
        let d1 = with_bits(dev, start, rest, value);
        assert(idx[idx.len() - 1] == idx.last());
        lemma_with_bit(d1, start, idx.last() as int, value, k);
        if idx.contains(k as u32) && k <= u32::MAX {
            if k != idx.last() {
                let m = choose|m: int| 0 <= m < idx.len() && idx[m] == k as u32;
                assert(rest[m] == k as u32);
                assert(rest.contains(k as u32));
            }
        } else {
            if rest.contains(k as u32) && k <= u32::MAX {
                let m = choose|m: int| 0 <= m < rest.len() && rest[m] == k as u32;
                assert(idx[m] == k as u32);
            }
        }
    }
}

pub proof fn lemma_count_set_bound(dev: Seq<Seq<u8>>, start: int, lo: int, hi: int)
    ensures
        count_set(dev, start, lo, hi) <= if hi <= lo { 0 } else { hi - lo },
    decreases hi - lo,
{
    if hi > lo {
        lemma_count_set_bound(dev, start, lo, hi - 1);
    }
}

/// The bitmap of `blocks` blocks at `start` has exactly its first bit set.
pub open spec fn only_first_set(dev: Seq<Seq<u8>>, start: int, blocks: int) -> bool {
    &&& bit_set(dev, start, 0)
    &&& forall|i: int| 1 <= i < blocks * 2048 ==> !#[trigger] bit_set(dev, start, i)
}

/// A bitmap whose first block holds only its first bit, and whose other
/// blocks are zero, has only its first bit set.
pub proof fn lemma_only_first_set(dev: Seq<Seq<u8>>, start: int, blocks: int)
    requires
        0 <= start,
        start + blocks <= dev.len(),
        1 <= blocks,
        dev[start] == Seq::new(256, |i: int| 0u8).update(0, 1u8),
        forall|j: int| 1 <= j < blocks ==> #[trigger] dev[start + j] == Seq::new(256, |i: int| 0u8),
    ensures
        only_first_set(dev, start, blocks),
{
    assert((1u8 >> 0u8) & 1u8 == 1u8) by (bit_vector);
    assert forall|i: int| 1 <= i < blocks * 2048 implies !#[trigger] bit_set(dev, start, i) by {
        let s = (i % 8) as u8;
        assert(forall|x: u8| x < 8 ==> (0u8 >> x) & 1u8 == 0u8) by (bit_vector);
        assert(forall|x: u8| 1 <= x < 8 ==> (1u8 >> x) & 1u8 == 0u8) by (bit_vector);
        if i / 2048 >= 1 {
            assert(dev[start + i / 2048] == Seq::new(256, |i: int| 0u8));
        } else if i / 8 >= 1 {
            assert(dev[start][(i / 8) % 256] == 0u8);
        } else {
            assert(dev[start][(i / 8) % 256] == 1u8);
            assert(1 <= s < 8);
        }
    }
}

/// A bitmap with only its first bit set counts one set bit.
pub proof fn lemma_count_only_first(dev: Seq<Seq<u8>>, start: int, blocks: int, hi: int)
    requires
        only_first_set(dev, start, blocks),
        1 <= hi <= blocks * 2048,
    ensures
        count_set(dev, start, 0, hi) == 1,
    decreases hi,
{
    if hi > 1 {
        lemma_count_only_first(dev, start, blocks, hi - 1);
        assert(!bit_set(dev, start, hi - 1));
    } else {
        assert(count_set(dev, start, 0, 0) == 0);
    }
}

/// The position of the lowest clear bit of `b` (the number of trailing ones).
fn trailing_ones(b: u8) -> (p: u8)
    requires
        b != 0xFFu8,
    ensures
        p < 8,
        (b >> p) & 1u8 == 0u8,
        forall|q: u8| q < p ==> (b >> q) & 1u8 == 1u8,
{
    let mut p: u8 = 0;
    while p < 8 && (b >> p) & 1u8 == 1u8
        invariant
            0 <= p <= 8,
            forall|q: u8| q < p ==> (b >> q) & 1u8 == 1u8,
        decreases 8 - p,
    {
        p = p + 1;
    }
    if p == 8 {
        assert(b == 0xFFu8) by (bit_vector)
            requires
                (b >> 0u8) & 1u8 == 1u8, (b >> 1u8) & 1u8 == 1u8, (b >> 2u8) & 1u8 == 1u8, (b >> 3u8) & 1u8 == 1u8,
                (b >> 4u8) & 1u8 == 1u8, (b >> 5u8) & 1u8 == 1u8, (b >> 6u8) & 1u8 == 1u8, (b >> 7u8) & 1u8 == 1u8;
    }
    proof {
        lemma_byte_bits(b, p);
    }
    p
}

/// The first free index of `[lo, hi)` when every index of `[lo, x)` is set
/// and `x` is free.
proof fn lemma_first_free(dev: Seq<Seq<u8>>, start: int, lo: int, x: int, hi: int)
    requires
        0 <= lo <= x < hi,
        x <= u32::MAX,
        forall|k: int| lo <= k < x ==> bit_set(dev, start, k),
        !bit_set(dev, start, x),
    ensures
        free_in(dev, start, lo, hi).len() > 0,
        free_in(dev, start, lo, hi)[0] == x,
{
    lemma_free_in_empty(dev, start, lo, x);
    lemma_free_in_concat(dev, start, lo, x + 1, hi);
    assert(free_in(dev, start, lo, x + 1) =~= seq![x as u32]);
}

/// Allocates indices out of a bitmap stored in consecutive blocks of a device.
pub struct BitmapAllocator {
    /// first block where the bitmap resides
    start: u32,
    /// number of blocks dedicated to the bitmap
    size: u32,
    /// 1 past the highest value that may be returned by allocate
    /// (the bitmap itself might be bigger than the region it maps to)
    max_index: u32,
    /// index of the last allocation, future allocations start looking from here
    last_alloc: u32,
}

impl BitmapAllocator {
    pub closed spec fn start_block(&self) -> u32 {
        self.start
    }

    pub closed spec fn bitmap_blocks(&self) -> u32 {
        self.size
    }

    pub closed spec fn spec_max_index(&self) -> u32 {
        self.max_index
    }

    pub closed spec fn spec_last_alloc(&self) -> u32 {
        self.last_alloc
    }

    /// Addresses of every bitmap block, and every index, fit in a `u32`;
    /// the last allocation lies below `max_index`.
    pub open spec fn wf(&self) -> bool {
        &&& self.start_block() + self.bitmap_blocks() <= u32::MAX
        &&& self.start_block() + self.spec_max_index() / 2048 + 1 <= u32::MAX
        &&& self.bitmap_blocks() * 2048 <= u32::MAX + 1
        &&& (self.spec_last_alloc() == 0 || self.spec_last_alloc() < self.spec_max_index())
    }

    /// Number of blocks from `start_block()` that the allocator may read.
    pub open spec fn span(&self) -> int {
        let a = self.bitmap_blocks() as int;
        let b = self.spec_max_index() / 2048 + 1;
        if a >= b { a } else { b }
    }

    /// The bitmap lies on the device.
    pub open spec fn on_device(&self, dev: Seq<Seq<u8>>) -> bool {
        &&& self.start_block() + self.span() <= dev.len()
        &&& forall|k: int| 0 <= k < dev.len() ==> #[trigger] dev[k].len() == BLOCK_SIZE
    }

    pub fn new(start: u32, size: u32, max_index: u32) -> (r: Self)
        requires
            start + size <= u32::MAX,
            start + max_index / 2048 + 1 <= u32::MAX,
            size * 2048 <= u32::MAX + 1,
        ensures
            r.wf(),
            r.start_block() == start,
            r.bitmap_blocks() == size,
            r.spec_max_index() == max_index,
            r.spec_last_alloc() == 0,
    {
        BitmapAllocator { start, size, max_index, last_alloc: 0 }
    }

    pub fn get_index(bitmap_block: u32, byte_in_block: u32, bit_in_byte: u32) -> (r: u32)
        requires
            (byte_in_block + bitmap_block * 256) * 8 + bit_in_byte <= u32::MAX,
        ensures
            r == (byte_in_block + bitmap_block * 256) * 8 + bit_in_byte,
    {
        (byte_in_block + bitmap_block * BLOCK_SIZE as u32) * 8 + bit_in_byte
    }

    pub fn unpack_index(index: u32) -> (r: (u32, u32, u8))
        ensures
            r.0 == index / 2048,
            r.1 == (index / 8) % 256,
            r.2 == index % 8,
    {
        proof {
            vstd::arithmetic::div_mod::lemma_div_denominator(index as int, 8, 256);
        }
        let byte_index = index / 8;
        let bit_in_byte = index % 8;
        let bitmap_block = byte_index / BLOCK_SIZE as u32;
        let byte_in_block = byte_index % BLOCK_SIZE as u32;
        (bitmap_block, byte_in_block, bit_in_byte as u8)
    }

    /// Where `find_free` starts looking: the first bit of the byte that holds
    /// the last allocation.
    pub open spec fn scan_start(&self) -> int {
        (self.spec_last_alloc() / 2048) * 2048 + ((self.spec_last_alloc() / 8) % 256) * 8
    }

    /// The indices that the bitmap maps inside its own blocks.
    pub open spec fn scan_end(&self) -> int {
        spec_min(self.bitmap_blocks() * 2048, self.spec_max_index() as int)
    }

    /// The free indices in the order `find_free` visits them: from `scan_start()`
    /// to the end of the bitmap, then from its start up to `scan_start()`.
    /// Every free index below `scan_end()` comes once.
    pub open spec fn free_scan(&self, dev: Seq<Seq<u8>>) -> Seq<u32> {
        let start = self.start_block() as int;
        free_in(dev, start, self.scan_start(), self.scan_end())
            + free_in(dev, start, 0, spec_min(self.scan_start(), self.scan_end()))
    }

    /// Returns up to `num` free indices (fewer if there are not enough free
    /// indices), searching from the last allocation on and then from the start.
    /// Scans the bitmap blocks `[first, end)`, the first one from byte
    /// `first_byte` on, pushing free indices onto `res` until it holds `num`.
    /// Returns whether `res` got to `num` indices.
    fn scan_range<D: BlockDevice>(
        &self,
        device: &mut D,
        first: u32,
        end: u32,
        first_byte: u32,
        limit: u32,
        num: usize,
        res: &mut Vec<u32>,
    ) -> (r: FSResult<bool>)
        requires
            self.wf(),
            old(device).inv(),
            self.on_device(old(device).blocks()),
            first_byte < 256,
            limit <= self.spec_max_index(),
            end <= self.bitmap_blocks() || end * 2048 <= self.spec_max_index(),
            old(res)@.len() < num,
        ensures
            final(device).inv(),
            final(device).blocks() == old(device).blocks(),
            old(device).reliable() ==> r is Ok && final(device).reliable(),
            ({
                let dev = old(device).blocks();
                let s = first * 2048 + first_byte * 8;
                let found = free_in(dev, self.start_block() as int, s, spec_min(end * 2048, limit as int));
                match r {
                    Ok(true) => final(res)@ == first_n(old(res)@ + found, num as int) && final(res)@.len() == num,
                    Ok(false) => final(res)@ == old(res)@ + found && final(res)@.len() < num,
                    Err(e) => e.is_device_error(),
                }
            }),
    {
        let ghost dev = device.blocks();
        let ghost start = self.start as int;
        let ghost max = limit as int;
        let ghost s = first * 2048 + first_byte * 8;
        let ghost base = res@;
        let mut buf = [0u8; BLOCK_SIZE];
        if first >= end {
            assert(free_in(dev, start, s, spec_min(end * 2048, max)) =~= Seq::<u32>::empty());
            assert(res@ =~= base + Seq::<u32>::empty());
            return Ok(false);
        }
        assert(free_in(dev, start, s, spec_min(first * 2048, max)) =~= Seq::<u32>::empty());
        assert(res@ =~= base + free_in(dev, start, s, spec_min(first * 2048, max)));
        let mut i: u32 = first;
        while i < end
            invariant
                self.wf(),
                self.on_device(dev),
                device.inv(),
                device.blocks() == dev,
                dev == old(device).blocks(),
                base == old(res)@,
                start == self.start,
                max == limit,
                limit <= self.max_index,
                s == first * 2048 + first_byte * 8,
                first_byte < 256,
                end <= self.size || end * 2048 <= self.max_index,
                first <= i <= end,
                res@ == base + free_in(dev, start, s, spec_min(i * 2048, max)),
                res@.len() < num,
                old(device).reliable() ==> device.reliable(),
            decreases end - i,
        {
            match device.read_block(i + self.start, &mut buf) {
                Err(e) => { return Err(e); },
                Ok(_) => {},
            }
            let from = if i == first { first_byte } else { 0 };
            let ghost hi = spec_min(i * 2048 + 2048, max);
            let ghost before = res@;
            proof {
                lemma_scan_join(dev, start, s, i * 2048, i * 2048 + from * 8, i * 2048 + 2048, max);
                assert(before + free_in(dev, start, i * 2048 + from * 8, hi) =~= base + free_in(dev, start, s, hi));
            }
            let stop = scan_block(&buf, i, from, limit, num, res, Ghost(dev), Ghost(start));
            if stop {
                if res.len() == num {
                    proof {
                        let a = base + free_in(dev, start, s, hi);
                        if hi <= s {
                            assert(free_in(dev, start, s, hi) =~= Seq::<u32>::empty());
                        }
                        lemma_free_in_concat_min(dev, start, s, i * 2048 + 2048, end * 2048, max);
                        let rest = free_in(dev, start, hi, spec_min(end * 2048, max));
                        assert(base + free_in(dev, start, s, spec_min(end * 2048, max)) =~= a + rest);
                        lemma_first_n_of_prefix(res@, a, rest, num as int);
                    }
                    return Ok(true);
                }
                proof {
                    assert(hi == max);
                    assert(spec_min(end * 2048, max) == max);
                }
                return Ok(false);
            }
            i = i + 1;
        }
        Ok(false)
    }

    /// Returns up to `num` free indices (fewer if there are not enough free
    /// indices), searching from the last allocation on and then from the start.
    pub fn find_free<D: BlockDevice>(&mut self, device: &mut D, num: u32) -> (r: FSResult<Vec<u32>>)
        requires
            old(self).wf(),
            old(device).inv(),
            old(self).on_device(old(device).blocks()),
        ensures
            *final(self) == *old(self),
            final(device).inv(),
            final(device).blocks() == old(device).blocks(),
            num == 0 ==> r is Ok,
            old(device).reliable() ==> r is Ok && final(device).reliable(),
            match r {
                Ok(v) => v@ == first_n(old(self).free_scan(old(device).blocks()), num as int),
                Err(e) => e.is_device_error(),
            },
    {
        let ghost dev = device.blocks();
        let ghost start = self.start as int;
        let ghost max = self.max_index as int;
        if num == 0 {
            return Ok(Vec::new());
        }
        let mut res: Vec<u32> = Vec::new();
        let num = num as usize;
        let (start_block, start_byte, _start_bit) = Self::unpack_index(self.last_alloc);
        let ghost p1 = free_in(dev, start, self.scan_start(), self.scan_end());
        let ghost p2 = free_in(dev, start, 0, spec_min(self.scan_start(), self.scan_end()));
        assert(self.free_scan(dev) == p1 + p2);
        let done = match self.scan_range(device, start_block, self.size, start_byte, self.max_index, num, &mut res) {
            Err(e) => { return Err(e); },
            Ok(d) => d,
        };
        if done {
            proof { lemma_first_n_of_prefix(res@, p1, p2, num as int); }
            return Ok(res);
        }
        assert(res@ =~= p1);
        // up to where the first scan began, in the last allocation's block too
        let ss = start_block * 2048 + start_byte * 8;
        let se = if self.size as u64 * 2048 < self.max_index as u64 { self.size * 2048 } else { self.max_index };
        let limit = if ss < se { ss } else { se };
        let end = if start_block < self.size { start_block + 1 } else { self.size };
        assert(ss == self.scan_start());
        assert(se == self.scan_end());
        assert(spec_min(end * 2048, limit as int) == spec_min(self.scan_start(), self.scan_end()));
        let done = match self.scan_range(device, 0, end, 0, limit, num, &mut res) {
            Err(e) => { return Err(e); },
            Ok(d) => d,
        };
        proof {
            if !done {
                assert(first_n(res@, num as int) == res@);
            }
        }
        Ok(res)
    }

    /// Whether index `block` is marked as allocated. Indices above
    /// `max_index()` are never allocated.
    pub fn is_allocated<D: BlockDevice>(&self, device: &mut D, block: u32) -> (r: FSResult<bool>)
        requires
            self.wf(),
            old(device).inv(),
            self.on_device(old(device).blocks()),
        ensures
            final(device).inv(),
            final(device).blocks() == old(device).blocks(),
            block > self.spec_max_index() ==> r == Ok::<bool, FSError>(false),
            old(device).reliable() ==> r is Ok && final(device).reliable(),
            match r {
                Ok(b) => b == (block <= self.spec_max_index()
                    && bit_set(old(device).blocks(), self.start_block() as int, block as int)),
                Err(e) => e.is_device_error(),
            },
    {
        if block > self.max_index {
            return Ok(false);
        }
        let (bitmap_block, byte, bit) = Self::unpack_index(block);
        let mut buf = [0u8; BLOCK_SIZE];
        match device.read_block(self.start + bitmap_block, &mut buf) {
            Err(e) => { return Err(e); },
            Ok(_) => {},
        }
        let byte = buf[byte as usize];
        proof {
            lemma_bit_ops(byte, bit, bit);
        }
        Ok(byte & (1u8 << bit) != 0)
    }

    /// Counts the bits set in one bitmap block, below `max_index`.
    fn count_block(buf: &[u8; BLOCK_SIZE], blk: u32, max_index: u32, Ghost(dev): Ghost<Seq<Seq<u8>>>, Ghost(start): Ghost<int>) -> (r: (u32, bool))
        requires
            buf@ == dev[start + blk],
            (blk + 1) * 2048 <= u32::MAX + 1,
        ensures
            r.0 == count_set(dev, start, blk * 2048, spec_min(blk * 2048 + 2048, max_index as int)),
            r.1 ==> max_index < blk * 2048 + 2048,
    {
        let ghost lo = blk * 2048;
        let mut count: u32 = 0;
        let mut j: u32 = 0;
        while j < 256
            invariant
                0 <= j <= 256,
                buf@ == dev[start + blk],
                (blk + 1) * 2048 <= u32::MAX + 1,
                lo == blk * 2048,
                count == count_set(dev, start, lo, spec_min(lo + j * 8, max_index as int)),
            decreases 256 - j,
        {
            let b = buf[j as usize];
            let ghost o = lo + j * 8;
            proof {
                lemma_byte_of_block(dev, start, blk as int, buf@, j as int);
                if max_index as int > o {
                    lemma_count_set_concat(dev, start, lo, o, spec_min(o + 8, max_index as int));
                }
                lemma_count_set_bound(dev, start, lo, spec_min(o + 8, max_index as int));
            }
            if b == 0u8 {
                proof {
                    if max_index as int > o {
                        assert forall|k: int| o <= k < spec_min(o + 8, max_index as int) implies !bit_set(dev, start, k) by {
                            lemma_byte_bits(b, (k - o) as u8);
                            assert(bit_set(dev, start, blk * 2048 + j * 8 + (k - o)) <==> (b >> ((k - o) as u8)) & 1u8 == 1u8);
                        }
                        lemma_count_set_full(dev, start, o, spec_min(o + 8, max_index as int));
                    }
                }
            } else {
                let offset = BitmapAllocator::index_of(blk, j);
                let mut el: u8 = b;
                let mut pos: u8 = 0;
                assert(b >> 0u8 == b) by (bit_vector);
                while pos < 8
                    invariant
                        0 <= pos <= 8,
                        offset == o,
                        o == blk * 2048 + j * 8,
                        lo == blk * 2048,
                        j < 256,
                        (blk + 1) * 2048 <= u32::MAX + 1,
                        el == b >> pos,
                        pos == 0 || o + pos <= max_index,
                        count == count_set(dev, start, lo, spec_min(o + pos, max_index as int)),
                        forall|p: int| 0 <= p < 8 ==> (#[trigger] bit_set(dev, start, blk * 2048 + j * 8 + p) <==> (b >> (p as u8)) & 1u8 == 1u8),
                    decreases 8 - pos,
                {
                    let index: u32 = offset + pos as u32;
                    if index >= max_index {
                        proof {
                            assert(spec_min(o + pos, max_index as int) == spec_min(lo + 2048, max_index as int));
                        }
                        return (count, true);
                    }
                    proof {
                        lemma_byte_bits(b, pos);
                        assert(bit_set(dev, start, blk * 2048 + j * 8 + pos) <==> (b >> pos) & 1u8 == 1u8);
                        lemma_count_set_bound(dev, start, lo, o + pos);
                    }
                    if el & 1 != 0 {
                        count = count + 1;
                    }
                    el = el >> 1;
                    pos = pos + 1;
                }
            }
            j = j + 1;
        }
        proof {
            assert(lo + 256 * 8 == lo + 2048);
        }
        (count, false)
    }

    /// Counts the allocated indices below `max_index()`.
    pub fn count_allocated<D: BlockDevice>(&self, device: &mut D) -> (r: FSResult<u32>)
        requires
            self.wf(),
            old(device).inv(),
            self.on_device(old(device).blocks()),
        ensures
            final(device).inv(),
            final(device).blocks() == old(device).blocks(),
            old(device).reliable() ==> r is Ok && final(device).reliable(),
            match r {
                Ok(n) => n == count_set(old(device).blocks(), self.start_block() as int, 0,
                    spec_min(self.bitmap_blocks() * 2048, self.spec_max_index() as int)),
                Err(e) => e.is_device_error(),
            },
    {
        let ghost dev = device.blocks();
        let ghost start = self.start as int;
        let ghost max = self.max_index as int;
        let mut count: u32 = 0;
        let mut buf = [0u8; BLOCK_SIZE];
        let mut i: u32 = 0;
        while i < self.size
            invariant
                self.wf(),
                self.on_device(dev),
                device.inv(),
                device.blocks() == dev,
                dev == old(device).blocks(),
                start == self.start,
                max == self.max_index,
                0 <= i <= self.size,
                count == count_set(dev, start, 0, spec_min(i * 2048, max)),
                old(device).reliable() ==> device.reliable(),
            decreases self.size - i,
        {
            match device.read_block(i + self.start, &mut buf) {
                Err(e) => { return Err(e); },
                Ok(_) => {},
            }
            let ghost hi = spec_min(i * 2048 + 2048, max);
            proof {
                if max > i * 2048 {
                    lemma_count_set_concat(dev, start, 0, i * 2048, hi);
                }
                lemma_count_set_bound(dev, start, 0, hi);
            }
            let (c, stop) = Self::count_block(&buf, i, self.max_index, Ghost(dev), Ghost(start));
            count = count + c;
            if stop {
                proof {
                    assert(spec_min(self.size * 2048, max) == max);
                }
                return Ok(count);
            }
            i = i + 1;
        }
        Ok(count)
    }

    /// The free indices of the whole bitmap, in increasing order.
    pub open spec fn all_free(&self, dev: Seq<Seq<u8>>) -> Seq<u32> {
        free_in(dev, self.start_block() as int, 0, self.bitmap_blocks() * 2048)
    }

    /// Finds the lowest free index and allocates it. Fails with `StorageFull`
    /// when the bitmap has no free bit, or its lowest free bit lies at or
    /// above `max_index()`.
    pub fn find_allocate<D: BlockDevice>(&mut self, device: &mut D) -> (r: FSResult<u32>)
        requires
            old(self).wf(),
            old(device).inv(),
            old(self).on_device(old(device).blocks()),
        ensures
            final(self).wf(),
            final(device).inv(),
            final(self).start_block() == old(self).start_block(),
            final(self).bitmap_blocks() == old(self).bitmap_blocks(),
            final(self).spec_max_index() == old(self).spec_max_index(),
            ({
                let dev = old(device).blocks();
                let f = old(self).all_free(dev);
                match r {
                    Ok(i) => {
                        &&& f.len() > 0 && i == f[0] && i < old(self).spec_max_index()
                        &&& final(device).blocks() == with_bit(dev, old(self).start_block() as int, i as int, true)
                        &&& final(self).spec_last_alloc() == i
                    },
                    Err(FSError::StorageFull(StorageFullKind::Unspecified)) => {
                        &&& (f.len() == 0 || f[0] >= old(self).spec_max_index())
                        &&& final(device).blocks() == dev
                        &&& *final(self) == *old(self)
                    },
                    Err(e) => e.is_device_error() && final(device).blocks() == dev && *final(self) == *old(self),
                }
            }),
            old(device).reliable() ==> (r is Ok || r == Err::<u32, FSError>(FSError::StorageFull(StorageFullKind::Unspecified)))
                && final(device).reliable(),
    {
        let ghost dev = device.blocks();
        let ghost start = self.start as int;
        let mut buf = [0u8; BLOCK_SIZE];
        let mut i: u32 = 0;
        while i < self.size
            invariant
                self.wf(),
                self.on_device(dev),
                *self == *old(self),
                device.inv(),
                device.blocks() == dev,
                dev == old(device).blocks(),
                start == self.start,
                0 <= i <= self.size,
                forall|k: int| 0 <= k < i * 2048 ==> bit_set(dev, start, k),
                old(device).reliable() ==> device.reliable(),
            decreases self.size - i,
        {
            match device.read_block(i + self.start, &mut buf) {
                Err(e) => { return Err(e); },
                Ok(_) => {},
            }
            let mut j: u32 = 0;
            while j < 256
                invariant
                    self.wf(),
                    self.on_device(dev),
                    *self == *old(self),
                    device.inv(),
                    device.blocks() == dev,
                    dev == old(device).blocks(),
                    start == self.start,
                    0 <= i < self.size,
                    0 <= j <= 256,
                    buf@ == dev[start + i],
                    forall|k: int| 0 <= k < i * 2048 + j * 8 ==> bit_set(dev, start, k),
                    old(device).reliable() ==> device.reliable(),
                decreases 256 - j,
            {
                let b = buf[j as usize];
                proof {
                    lemma_byte_of_block(dev, start, i as int, buf@, j as int);
                }
                if b != 0xFFu8 {
                    let pos = trailing_ones(b);
                    proof {
                        lemma_index_parts(i as int, j as int, pos as int);
                    }
                    let index = Self::get_index(i, j, pos as u32);
                    let ghost x = index as int;
                    proof {
                        assert(x == i * 2048 + j * 8 + pos);
                        assert forall|k: int| 0 <= k < x implies bit_set(dev, start, k) by {
                            if k >= i * 2048 + j * 8 {
                                let q = (k - (i * 2048 + j * 8)) as u8;
                                assert(bit_set(dev, start, i * 2048 + j * 8 + q));
                            }
                        }
                        assert(bit_set(dev, start, i * 2048 + j * 8 + pos) <==> (b >> pos) & 1u8 == 1u8);
                        lemma_first_free(dev, start, 0, x, self.size * 2048);
                    }
                    if index >= self.max_index {
                        return Err(FSError::StorageFull(StorageFullKind::Unspecified));
                    }
                    let nb: u8 = b | (1u8 << pos);
                    buf[j as usize] = nb;
                    match device.write_block(i + self.start, &buf) {
                        Err(e) => { return Err(e); },
                        Ok(_) => {},
                    }
                    proof {
                        assert(device.blocks() =~= with_bit(dev, start, x, true));
                    }
                    self.last_alloc = index;
                    return Ok(index);
                }
                proof {
                    assert forall|k: int| 0 <= k < i * 2048 + (j + 1) * 8 implies bit_set(dev, start, k) by {
                        if k >= i * 2048 + j * 8 {
                            let q = (k - (i * 2048 + j * 8)) as u8;
                            lemma_byte_bits(b, q);
                            assert(bit_set(dev, start, i * 2048 + j * 8 + q));
                        }
                    }
                }
                j = j + 1;
            }
            i = i + 1;
        }
        proof {
            lemma_free_in_empty(dev, start, 0, self.size * 2048);
        }
        Err(FSError::StorageFull(StorageFullKind::Unspecified))
    }

    /// Sets (`value`) or clears the bits of `blocks`, one bitmap block at a
    /// time: each bitmap block is read once per run of indices that fall in it.
    fn modify<D: BlockDevice>(&mut self, device: &mut D, blocks: &[u32], value: bool) -> (r: FSResult<()>)
        requires
            old(self).wf(),
            old(device).inv(),
            old(self).on_device(old(device).blocks()),
            forall|m: int| 0 <= m < blocks@.len() ==> #[trigger] blocks@[m] / 2048 < old(self).span(),
        ensures
            *final(self) == *old(self),
            final(device).inv(),
            final(device).blocks().len() == old(device).blocks().len(),
            old(device).reliable() ==> r is Ok && final(device).reliable(),
            match r {
                Ok(_) => final(device).blocks() == with_bits(old(device).blocks(), old(self).start_block() as int, blocks@, value),
                Err(e) => e.is_device_error(),
            },
    {
        let ghost dev = device.blocks();
        let ghost start = self.start as int;
        if blocks.len() == 0 {
            return Ok(());
        }
        proof {
            device.lemma_inv_well_sized();
        }
        let mut buf = [0u8; BLOCK_SIZE];
        let mut cached_block: u32 = INVALID_ADDRESS;
        let mut k: usize = 0;
        while k < blocks.len()
            invariant
                self.wf(),
                self.on_device(dev),
                *self == *old(self),
                device.inv(),
                dev == old(device).blocks(),
                start == self.start,
                device.blocks().len() == dev.len(),
                dev.len() <= u32::MAX,
                forall|m: int| 0 <= m < dev.len() ==> #[trigger] device.blocks()[m].len() == 256,
                forall|m: int| 0 <= m < blocks@.len() ==> #[trigger] blocks@[m] / 2048 < self.span(),
                0 <= k <= blocks@.len(),
                cached_block != INVALID_ADDRESS ==> start + cached_block < dev.len(),
                (if cached_block == INVALID_ADDRESS { device.blocks() } else { device.blocks().update(start + cached_block, buf@) })
                    == with_bits(dev, start, blocks@.take(k as int), value),
                old(device).reliable() ==> device.reliable(),
            decreases blocks@.len() - k,
        {
            let b = blocks[k];
            let (bitmap_block, byte_in_block, bit_in_byte) = Self::unpack_index(b);
            if bitmap_block != cached_block {
                if cached_block != INVALID_ADDRESS {
                    match device.write_block(cached_block + self.start, &buf) {
                        Err(e) => { return Err(e); },
                        Ok(_) => {},
                    }
                }
                cached_block = bitmap_block;
                match device.read_block(bitmap_block + self.start, &mut buf) {
                    Err(e) => { return Err(e); },
                    Ok(_) => {},
                }
                assert(device.blocks().update(start + cached_block, buf@) =~= device.blocks());
            }
            let ghost eff = device.blocks().update(start + cached_block, buf@);
            let ob = buf[byte_in_block as usize];
            let nb = if value { ob | (1u8 << bit_in_byte) } else { ob & !(1u8 << bit_in_byte) };
            buf[byte_in_block as usize] = nb;
            proof {
                assert(blocks@.take(k + 1).drop_last() =~= blocks@.take(k as int));
                assert(blocks@.take(k + 1).last() == b);
                assert(device.blocks().update(start + cached_block, buf@) =~= with_bit(eff, start, b as int, value));
            }
            k = k + 1;
        }
        if cached_block != INVALID_ADDRESS {
            match device.write_block(cached_block + self.start, &buf) {
                Err(e) => { return Err(e); },
                Ok(_) => {},
            }
        }
        assert(blocks@.take(blocks@.len() as int) =~= blocks@);
        Ok(())
    }

    /// Marks the given indices as allocated. Indices that fall in the same
    /// bitmap block are best kept next to each other. Whether an index was
    /// already allocated is not checked.
    pub fn allocate<D: BlockDevice>(&mut self, device: &mut D, blocks: &Vec<u32>) -> (r: FSResult<()>)
        requires
            old(self).wf(),
            old(device).inv(),
            old(self).on_device(old(device).blocks()),
            forall|m: int| 0 <= m < blocks@.len() ==> #[trigger] blocks@[m] < old(self).spec_max_index(),
        ensures
            final(self).wf(),
            final(device).inv(),
            old(device).reliable() ==> r is Ok && final(device).reliable(),
            final(device).blocks().len() == old(device).blocks().len(),
            final(self).start_block() == old(self).start_block(),
            final(self).bitmap_blocks() == old(self).bitmap_blocks(),
            final(self).spec_max_index() == old(self).spec_max_index(),
            match r {
                Ok(_) => {
                    &&& final(device).blocks() == with_bits(old(device).blocks(), old(self).start_block() as int, blocks@, true)
                    &&& final(self).spec_last_alloc() == (if blocks@.len() == 0 { old(self).spec_last_alloc() } else { blocks@.last() })
                },
                Err(e) => e.is_device_error(),
            },
    {
        if blocks.len() == 0 {
            return Ok(());
        }
        match self.modify(device, blocks.as_slice(), true) {
            Err(e) => { return Err(e); },
            Ok(_) => {},
        }
        self.last_alloc = blocks[blocks.len() - 1];
        Ok(())
    }

    /// Marks the given indices as free; any bit of the bitmap's blocks can be
    /// cleared. Whether an index was already free is not checked.
    pub fn deallocate<D: BlockDevice>(&mut self, device: &mut D, blocks: &Vec<u32>) -> (r: FSResult<()>)
        requires
            old(self).wf(),
            old(device).inv(),
            old(self).on_device(old(device).blocks()),
            forall|m: int| 0 <= m < blocks@.len() ==> #[trigger] blocks@[m] / 2048 < old(self).span(),
        ensures
            *final(self) == *old(self),
            final(device).inv(),
            old(device).reliable() ==> r is Ok && final(device).reliable(),
            final(device).blocks().len() == old(device).blocks().len(),
            match r {
                Ok(_) => final(device).blocks() == with_bits(old(device).blocks(), old(self).start_block() as int, blocks@, false),
                Err(e) => e.is_device_error(),
            },
    {
        self.modify(device, blocks.as_slice(), false)
    }

    /// Index of the first bit of byte `byte` of bitmap block `blk`.
    fn index_of(blk: u32, byte: u32) -> (r: u32)
        requires
            byte < 256,
            (blk + 1) * 2048 <= u32::MAX + 1,
        ensures
            r == blk * 2048 + byte * 8,
    {
        proof {
            lemma_index_parts(blk as int, byte as int, 0);
        }
        Self::get_index(blk, byte, 0)
    }

    pub fn max_index(&self) -> (r: u32)
        ensures
            r == self.spec_max_index(),
    {
        self.max_index
    }
}

/// The indices that `find_free` can return lie below `max_index()` and are free.
pub proof fn lemma_free_scan_bounds(a: BitmapAllocator, dev: Seq<Seq<u8>>)
    requires
        a.wf(),
    ensures
        forall|k: int| 0 <= k < a.free_scan(dev).len() ==>
            #[trigger] a.free_scan(dev)[k] < a.spec_max_index()
            && !bit_set(dev, a.start_block() as int, a.free_scan(dev)[k] as int),
        a.free_scan(dev).no_duplicates(),
{
    let start = a.start_block() as int;
    let max = a.spec_max_index() as int;
    let h1 = a.scan_end();
    let h2 = spec_min(a.scan_start(), a.scan_end());
    lemma_free_in_bounds(dev, start, a.scan_start(), h1);
    lemma_free_in_bounds(dev, start, 0, h2);
    let p1 = free_in(dev, start, a.scan_start(), h1);
    let p2 = free_in(dev, start, 0, h2);
    assert forall|k: int| 0 <= k < a.free_scan(dev).len() implies
        #[trigger] a.free_scan(dev)[k] < a.spec_max_index()
        && !bit_set(dev, a.start_block() as int, a.free_scan(dev)[k] as int) by {
        if k < p1.len() {
            assert(a.free_scan(dev)[k] == p1[k]);
        } else {
            assert(a.free_scan(dev)[k] == p2[k - p1.len()]);
        }
    }
    let fs = a.free_scan(dev);
    assert forall|i: int, j: int| 0 <= i < fs.len() && 0 <= j < fs.len() && i != j implies fs[i] != fs[j] by {
        let (x, y) = if i < j { (i, j) } else { (j, i) };
        if y < p1.len() {
            assert(fs[x] == p1[x] && fs[y] == p1[y]);
            assert(p1[x] < p1[y]);
        } else if x >= p1.len() {
            assert(fs[x] == p2[x - p1.len()] && fs[y] == p2[y - p1.len()]);
            assert(p2[x - p1.len()] < p2[y - p1.len()]);
        } else {
            assert(fs[x] == p1[x] && fs[y] == p2[y - p1.len()]);
            assert(p1[x] >= a.scan_start());
            assert(p2[y - p1.len()] < h2);
        }
    }
}

} // verus!
