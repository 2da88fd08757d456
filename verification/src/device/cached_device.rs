use vstd::prelude::*;
use std::collections::HashMap;
use crate::fs_utils::{BLOCK_SIZE, INVALID_ADDRESS};
use crate::fs_error::{FSError, FSResult};
use super::block_device::{BlockDevice, well_sized, device_result};

verus! {

broadcast use vstd::std_specs::hash::group_hash_axioms;

/// A block held by the cache.
#[derive(Clone, Copy)]
pub struct CachedBlock {
    pub data: [u8; BLOCK_SIZE],
    /// the data differs from the device's
    pub dirty: bool,
    /// keeps the block in the cache (not used yet)
    pub pinned: bool,
    /// address of the block used right after this one
    pub more_recent: u32,
    /// address of the block used right before this one
    pub less_recent: u32,
}

/// The block that follows position `i` of `o` in the order of use.
pub open spec fn link_more(o: Seq<u32>, i: int) -> u32 {
    if i + 1 < o.len() { o[i + 1] } else { INVALID_ADDRESS }
}

/// The block that precedes position `i` of `o` in the order of use.
pub open spec fn link_less(o: Seq<u32>, i: int) -> u32 {
    if i > 0 { o[i - 1] } else { INVALID_ADDRESS }
}

/// The blocks of `m` are those of `o`, each once, and each links to its
/// neighbours in `o`.
pub open spec fn order_ok(m: Map<u32, CachedBlock>, o: Seq<u32>) -> bool {
    &&& o.no_duplicates()
    &&& forall|k: u32| m.contains_key(k) <==> o.contains(k)
    &&& forall|i: int| 0 <= i < o.len() ==> #[trigger] o[i] != INVALID_ADDRESS
    &&& forall|i: int| 0 <= i < o.len() ==> (#[trigger] m[o[i]]).more_recent == link_more(o, i)
        && m[o[i]].less_recent == link_less(o, i)
}

/// The order of use after block `block` is used, in a cache that holds at
/// most `size` blocks: a cached block moves to the end; another one is added
/// at the end, after the least recently used block left a full cache.
pub open spec fn lru_next(o: Seq<u32>, block: u32, size: int) -> Seq<u32> {
    if o.contains(block) {
        let i = o.index_of(block);
        o.subrange(0, i) + o.subrange(i + 1, o.len() as int) + seq![block]
    } else if o.len() >= size {
        o.subrange(1, o.len() as int).push(block)
    } else {
        o.push(block)
    }
}

/// A device with a cache in front of it: the last blocks used, at most `size`
/// of them, are kept in memory; when the cache is full, the least recently
/// used block leaves it (and is written back if it was modified).
/// Nothing is written back when the cache itself goes away: call `flush`
/// before dropping it, or the modified blocks it holds are lost.
pub struct CachedDevice<D: BlockDevice> {
    device: D,
    /// the number of blocks that can be cached; at least 2
    size: usize,
    cache: HashMap<u32, CachedBlock>,
    cached_count: usize,
    /// least recently used block address
    lru: u32,
    /// most recently used block address
    mru: u32,
    /// the cached blocks, from the least to the most recently used
    order: Ghost<Seq<u32>>,
}

/// The contents seen through the cache: a modified cached block hides the
/// device's.
pub open spec fn overlay(inner: Seq<Seq<u8>>, m: Map<u32, CachedBlock>) -> Seq<Seq<u8>> {
    Seq::new(inner.len(), |i: int| if m.contains_key(i as u32) && m[i as u32].dirty { m[i as u32].data@ } else { inner[i] })
}

impl<D: BlockDevice> CachedDevice<D> {
    /// The cached blocks, from the least to the most recently used.
    pub closed spec fn order(&self) -> Seq<u32> {
        self.order@
    }

    /// The number of blocks the cache can hold.
    pub closed spec fn capacity(&self) -> int {
        self.size as int
    }

    closed spec fn inv_cache(&self) -> bool {
        let o = self.order@;
        let m = self.cache@;
        &&& self.size >= 2
        &&& order_ok(m, o)
        &&& self.cached_count == o.len()
        &&& o.len() <= self.size
        &&& o.len() == 0 ==> self.lru == INVALID_ADDRESS && self.mru == INVALID_ADDRESS
        &&& o.len() > 0 ==> self.lru == o[0] && self.mru == o.last()
        &&& forall|k: u32| #[trigger] m.contains_key(k) && !m[k].dirty && k < self.device.blocks().len()
            ==> m[k].data@ == self.device.blocks()[k as int]
    }

    /// A cache of `size` blocks (at least 2) in front of `device`.
    pub fn new(device: D, size: usize) -> (r: Self)
        requires
            device.inv(),
        ensures
            r.inv(),
            r.blocks() == device.blocks(),
            r.backing() == device,
            r.order() == Seq::<u32>::empty(),
            r.capacity() == (if size < 2 { 2 } else { size as int }),
    {
        let size = if size < 2 { 2 } else { size };
        let r = CachedDevice {
            device,
            size,
            cache: HashMap::with_capacity(size),
            cached_count: 0,
            lru: INVALID_ADDRESS,
            mru: INVALID_ADDRESS,
            order: Ghost(Seq::empty()),
        };
        assert(r.blocks() =~= r.device.blocks());
        r
    }

    /// The most recently used block (`INVALID_ADDRESS` for an empty cache).
    pub fn mru(&self) -> (r: u32)
        requires
            self.inv(),
        ensures
            r == (if self.order().len() == 0 { INVALID_ADDRESS } else { self.order().last() }),
    {
        self.mru
    }

    /// The device behind the cache.
    pub closed spec fn backing(&self) -> D {
        self.device
    }

    /// Block `b` is cached and modified since it was read or written back.
    pub closed spec fn is_dirty(&self, b: u32) -> bool {
        self.cache@.contains_key(b) && self.cache@[b].dirty
    }

    /// The device behind the cache, which holds what was written back.
    pub fn device(&self) -> (r: &D)
        ensures
            *r == self.backing(),
    {
        &self.device
    }

    /// Whether block `block` is in the cache.
    pub fn contains(&self, block: u32) -> (r: bool)
        requires
            self.inv(),
        ensures
            r == self.order().contains(block),
    {
        self.cache.contains_key(&block)
    }

    /// Sets the `more_recent` link of cached block `k`.
    fn set_more(&mut self, k: u32, v: u32)
        requires
            old(self).cache@.contains_key(k),
        ensures
            final(self).cache@ == old(self).cache@.insert(k, CachedBlock { more_recent: v, ..old(self).cache@[k] }),
            final(self).device == old(self).device,
            final(self).size == old(self).size,
            final(self).cached_count == old(self).cached_count,
            final(self).lru == old(self).lru,
            final(self).mru == old(self).mru,
            final(self).order == old(self).order,
    {
        let mut e = *self.cache.get(&k).unwrap();
        e.more_recent = v;
        self.cache.insert(k, e);
    }

    /// Sets the `less_recent` link of cached block `k`.
    fn set_less(&mut self, k: u32, v: u32)
        requires
            old(self).cache@.contains_key(k),
        ensures
            final(self).cache@ == old(self).cache@.insert(k, CachedBlock { less_recent: v, ..old(self).cache@[k] }),
            final(self).device == old(self).device,
            final(self).size == old(self).size,
            final(self).cached_count == old(self).cached_count,
            final(self).lru == old(self).lru,
            final(self).mru == old(self).mru,
            final(self).order == old(self).order,
    {
        let mut e = *self.cache.get(&k).unwrap();
        e.less_recent = v;
        self.cache.insert(k, e);
    }

    /// Makes the cached block `block` the most recently used one; sets its
    /// data (and marks it modified) when `data` is given.
    fn touch(&mut self, block: u32, data: Option<[u8; BLOCK_SIZE]>)
        requires
            old(self).inv(),
            old(self).cache@.contains_key(block),
        ensures
            final(self).inv(),
            final(self).device == old(self).device,
            final(self).size == old(self).size,
            final(self).mru == block,
            ({
                let o = old(self).order();
                let i = o.index_of(block);
                final(self).order() == o.subrange(0, i) + o.subrange(i + 1, o.len() as int) + seq![block]
            }),
            forall|k: u32| k != block ==> #[trigger] final(self).cache@.contains_key(k) == old(self).cache@.contains_key(k)
                && (old(self).cache@.contains_key(k) ==> final(self).cache@[k].data == old(self).cache@[k].data
                    && final(self).cache@[k].dirty == old(self).cache@[k].dirty),
            final(self).cache@.contains_key(block),
            data is None ==> final(self).cache@[block].data == old(self).cache@[block].data
                && final(self).cache@[block].dirty == old(self).cache@[block].dirty,
            data matches Some(d) ==> final(self).cache@[block].data == d && final(self).cache@[block].dirty,
    {
        let ghost o = self.order@;
        let ghost m0 = self.cache@;
        let ghost n = o.len() as int;
        let ghost i = o.index_of(block);
        proof {
            assert(o.contains(block));
            assert(o[i] == block);
        }
        let entry = *self.cache.get(&block).unwrap();
        let mr = entry.more_recent;
        let lr = entry.less_recent;
        if mr != INVALID_ADDRESS {
            // unlink it
            proof {
                assert(i + 1 < n);
                assert(o[i + 1] == mr);
                assert(o.contains(o[i + 1]));
                assert(m0.contains_key(mr));
                if i > 0 {
                    assert(o[i - 1] == lr);
                    assert(o.contains(o[i - 1]));
                    assert(m0.contains_key(lr));
                }
            }
            self.set_less(mr, lr);
            if lr != INVALID_ADDRESS {
                self.set_more(lr, mr);
            }
            if self.lru == block {
                self.lru = mr;
            }
            // and link it after the most recently used
            let old_mru = self.mru;
            proof {
                assert(o[n - 1] == old_mru);
                assert(o.contains(o[n - 1]));
                assert(self.cache@.contains_key(old_mru));
            }
            self.set_more(old_mru, block);
            let mut e = entry;
            e.more_recent = INVALID_ADDRESS;
            e.less_recent = old_mru;
            match data {
                Some(d) => {
                    e.data = d;
                    e.dirty = true;
                },
                None => {},
            }
            self.cache.insert(block, e);
            self.mru = block;
            let ghost o2 = o.subrange(0, i) + o.subrange(i + 1, n) + seq![block];
            proof {
                self.order = Ghost(o2);
                let m = self.cache@;
                assert(o2.len() == n);
                assert forall|j: int| 0 <= j < n implies #[trigger] o2[j] == (if j < i { o[j] } else if j < n - 1 { o[j + 1] } else { block }) by {
                }
                assert(o2.no_duplicates()) by {
                    assert forall|a: int, b: int| 0 <= a < b < n implies o2[a] != o2[b] by {
                        let x = if a < i { a } else if a < n - 1 { a + 1 } else { i };
                        let y = if b < i { b } else if b < n - 1 { b + 1 } else { i };
                        assert(o2[a] == o[x]);
                        assert(o2[b] == o[y]);
                        assert(x != y);
                    }
                }
                assert forall|k: u32| m.contains_key(k) <==> o2.contains(k) by {
                    assert(m.contains_key(k) == m0.contains_key(k));
                    if o.contains(k) {
                        let p = choose|p: int| 0 <= p < n && o[p] == k;
                        if p < i {
                            assert(o2[p] == k);
                        } else if p == i {
                            assert(o2[n - 1] == k);
                        } else {
                            assert(o2[p - 1] == k);
                        }
                        assert(o2.contains(k));
                    }
                    if o2.contains(k) {
                        let q = choose|q: int| 0 <= q < n && o2[q] == k;
                        let x = if q < i { q } else if q < n - 1 { q + 1 } else { i };
                        assert(o[x] == k);
                        assert(o.contains(k));
                    }
                }
                assert forall|j: int| 0 <= j < n implies (#[trigger] m[o2[j]]).more_recent == link_more(o2, j)
                    && m[o2[j]].less_recent == link_less(o2, j) by {
                    if j < i {
                        assert(o2[j] == o[j]);
                        assert(o[j] != mr && o[j] != block && o[j] != old_mru);
                        if j == i - 1 {
                            assert(o[j] == lr);
                        } else {
                            assert(o[j] != lr);
                        }
                    } else if j < n - 1 {
                        assert(o2[j] == o[j + 1]);
                        assert(o[j + 1] != block);
                        if j == i {
                            assert(o[j + 1] == mr);
                        } else {
                            assert(o[j + 1] != mr);
                        }
                        if i > 0 {
                            assert(o[j + 1] != lr);
                        }
                        if j == n - 2 {
                            assert(o[j + 1] == old_mru);
                        } else {
                            assert(o[j + 1] != old_mru);
                        }
                    } else {
                        assert(o2[j] == block);
                    }
                }
            }
        } else {
            // already the most recently used
            proof {
                assert(i == n - 1);
            }
            match data {
                Some(d) => {
                    let mut e = entry;
                    e.data = d;
                    e.dirty = true;
                    self.cache.insert(block, e);
                },
                None => {},
            }
            proof {
                assert(o.subrange(0, i) + o.subrange(i + 1, n) + seq![block] =~= o);
                let m = self.cache@;
                assert forall|k: u32| m.contains_key(k) <==> o.contains(k) by {
                    if k == block {
                        assert(o.contains(block));
                    }
                }
                assert forall|j: int| 0 <= j < n implies (#[trigger] m[o[j]]).more_recent == link_more(o, j)
                    && m[o[j]].less_recent == link_less(o, j) by {
                }
            }
        }
        proof {
            let m = self.cache@;
            assert forall|k: u32| #[trigger] m.contains_key(k) && !m[k].dirty && k < self.device.blocks().len()
                implies m[k].data@ == self.device.blocks()[k as int] by {
                assert(m0.contains_key(k));
            }
        }
    }
}

impl<D: BlockDevice> BlockDevice for CachedDevice<D> {
    open spec fn blocks(&self) -> Seq<Seq<u8>> {
        self.view_blocks()
    }

    closed spec fn inv(&self) -> bool {
        self.device.inv() && self.inv_cache()
    }

    /// No promise is made for a cache: a block written to it off the end of
    /// the device fails only when it is written back, later.
    open spec fn reliable(&self) -> bool {
        false
    }

    proof fn lemma_inv_well_sized(&self) {
        self.device.lemma_inv_well_sized();
        assert forall|i: int| 0 <= i < self.blocks().len() implies #[trigger] self.blocks()[i].len() == BLOCK_SIZE by {
        }
    }

    /// Reads through the cache: a cached block is served from memory (and
    /// becomes the most recently used); another is read from the device and
    /// cached, which may push the least recently used block out.
    fn read_block(&mut self, block: u32, buf: &mut [u8; BLOCK_SIZE]) -> (r: FSResult<()>)
        ensures
            final(self).capacity() == old(self).capacity(),
            r is Ok && block != INVALID_ADDRESS ==> final(self).order() == lru_next(old(self).order(), block, old(self).capacity()),
            r is Err || block == INVALID_ADDRESS ==> final(self).order() == old(self).order(),
            old(self).order().contains(block) ==> r is Ok && final(self).backing() == old(self).backing(),
    {
        proof {
            self.device.lemma_inv_well_sized();
        }
        if block == INVALID_ADDRESS {
            // this address marks the ends of the order of use: it is never cached
            let r = self.device.read_block(block, buf);
            assert(self.blocks() =~= old(self).blocks());
            return r;
        }
        if self.cache.contains_key(&block) {
            let e = *self.cache.get(&block).unwrap();
            self.touch(block, None);
            *buf = e.data;
            assert forall|i: int| 0 <= i < self.blocks().len() implies #[trigger] self.blocks()[i] == old(self).blocks()[i] by {
                let k = i as u32;
                assert(self.cache@.contains_key(k) == old(self).cache@.contains_key(k));
            }
            assert(self.blocks() =~= old(self).blocks());
            return Ok(());
        }
        match self.device.read_block(block, buf) {
            Err(e) => {
                assert(self.blocks() =~= old(self).blocks());
                return Err(e);
            },
            Ok(_) => {},
        }
        assert(self.blocks() =~= old(self).blocks());
        assert(!self.order().contains(block));
        let ghost o1 = self.order();
        if self.cached_count >= self.size {
            match self.evict_lru() {
                Err(e) => { return Err(e); },
                Ok(_) => {},
            }
            proof {
                if self.order().contains(block) {
                    let q = choose|q: int| 0 <= q < self.order().len() && self.order()[q] == block;
                    assert(o1[q + 1] == block);
                    assert(o1.contains(block));
                }
            }
        }
        proof {
            self.device.lemma_inv_well_sized();
            if block < self.device.blocks().len() {
                assert(!self.cache@.contains_key(block));
                assert(self.blocks()[block as int] == self.device.blocks()[block as int]);
                assert(!old(self).cache@.contains_key(block));
                assert(old(self).blocks()[block as int] == old(self).device.blocks()[block as int]);
            }
        }
        let data = *buf;
        self.link_new(block, data, false);
        Ok(())
    }

    /// Writes into the cache: the block becomes the most recently used and is
    /// written back to the device when it leaves the cache or on `flush`.
    fn write_block(&mut self, block: u32, buf: &[u8; BLOCK_SIZE]) -> (r: FSResult<()>)
        ensures
            final(self).capacity() == old(self).capacity(),
            r is Ok && block != INVALID_ADDRESS ==> final(self).order() == lru_next(old(self).order(), block, old(self).capacity()),
            r is Err || block == INVALID_ADDRESS ==> final(self).order() == old(self).order(),
            old(self).order().contains(block) ==> r is Ok && final(self).backing() == old(self).backing()
                && final(self).is_dirty(block),
            block != INVALID_ADDRESS && old(self).order().len() < old(self).capacity()
                ==> r is Ok && final(self).backing() == old(self).backing() && final(self).is_dirty(block),
    {
        proof {
            self.device.lemma_inv_well_sized();
        }
        if block == INVALID_ADDRESS {
            let r = self.device.write_block(block, buf);
            assert(self.blocks() =~= old(self).blocks());
            return r;
        }
        if self.cache.contains_key(&block) {
            self.touch(block, Some(*buf));
            assert forall|i: int| 0 <= i < self.blocks().len() implies #[trigger] self.blocks()[i] == (if block < old(self).blocks().len() {
                old(self).blocks().update(block as int, buf@)
            } else {
                old(self).blocks()
            })[i] by {
                let k = i as u32;
                if k != block {
                    assert(self.cache@.contains_key(k) == old(self).cache@.contains_key(k));
                }
            }
            assert(self.blocks() =~= (if block < old(self).blocks().len() {
                old(self).blocks().update(block as int, buf@)
            } else {
                old(self).blocks()
            }));
            return Ok(());
        }
        assert(!self.order().contains(block));
        if self.cached_count >= self.size {
            match self.evict_lru() {
                Err(e) => { return Err(e); },
                Ok(_) => {},
            }
            proof {
                if self.order().contains(block) {
                    let q = choose|q: int| 0 <= q < self.order().len() && self.order()[q] == block;
                    assert(old(self).order()[q + 1] == block);
                    assert(old(self).order().contains(block));
                }
            }
        }
        self.link_new(block, *buf, true);
        Ok(())
    }

    fn block_count(&self) -> (n: u32) {
        self.device.block_count()
    }

    /// Writes the modified blocks back, empties the cache, then resizes the
    /// device.
    fn resize(&mut self, blocks: u32) -> (r: FSResult<()>) {
        match self.flush_cache() {
            Err(e) => { return Err(e); },
            Ok(_) => {},
        }
        assert forall|i: int| 0 <= i < self.device.blocks().len() implies #[trigger] self.blocks()[i] == self.device.blocks()[i] by {
            let k = i as u32;
            if self.cache@.contains_key(k) {
                assert(!self.cache@[k].dirty);
            }
        }
        self.cache = HashMap::new();
        self.cached_count = 0;
        self.lru = INVALID_ADDRESS;
        self.mru = INVALID_ADDRESS;
        proof {
            self.order = Ghost(Seq::empty());
        }
        assert(self.blocks() =~= old(self).blocks());
        let r = self.device.resize(blocks);
        assert(self.blocks() =~= self.device.blocks());
        r
    }

    /// Writes back the modified blocks, from the least to the most recently
    /// used: after it succeeds, the device behind the cache holds what is
    /// seen through it.
    fn flush(&mut self) -> (r: FSResult<()>)
        ensures
            r is Ok ==> final(self).backing().blocks() == old(self).blocks(),
            final(self).order() == old(self).order(),
            r is Ok ==> forall|b: u32| !#[trigger] final(self).is_dirty(b),
            (forall|b: u32| !#[trigger] old(self).is_dirty(b)) ==> r is Ok && final(self).backing() == old(self).backing(),
    {
        assert((forall|b: u32| !#[trigger] self.is_dirty(b))
            ==> (forall|k: u32| #[trigger] self.cache@.contains_key(k) ==> !self.cache@[k].dirty)) by {
            if forall|b: u32| !#[trigger] self.is_dirty(b) {
                assert forall|k: u32| #[trigger] self.cache@.contains_key(k) implies !self.cache@[k].dirty by {
                    assert(!self.is_dirty(k));
                }
            }
        }
        let r = self.flush_cache();
        if r.is_ok() {
            assert forall|i: int| 0 <= i < self.device.blocks().len() implies #[trigger] self.blocks()[i] == self.device.blocks()[i] by {
                let k = i as u32;
                if self.cache@.contains_key(k) {
                    assert(!self.cache@[k].dirty);
                }
            }
            assert(self.blocks() =~= self.device.blocks());
        }
        r
    }
}

impl<D: BlockDevice> CachedDevice<D> {
    /// The contents seen through the cache.
    pub closed spec fn view_blocks(&self) -> Seq<Seq<u8>> {
        overlay(self.device.blocks(), self.cache@)
    }
}

impl<D: BlockDevice> CachedDevice<D> {
    /// Removes the least recently used block from the cache, writing it back
    /// first when it was modified.
    fn evict_lru(&mut self) -> (r: FSResult<()>)
        requires
            old(self).inv(),
            old(self).order().len() >= 2,
        ensures
            match r {
                Ok(_) => {
                    &&& final(self).inv()
                    &&& final(self).blocks() == old(self).blocks()
                    &&& final(self).order() == old(self).order().subrange(1, old(self).order().len() as int)
                    &&& final(self).size == old(self).size
                },
                Err(e) => {
                    &&& e.is_device_error()
                    &&& final(self).inv()
                    &&& final(self).blocks() == old(self).blocks()
                    &&& final(self).order() == old(self).order()
                    &&& final(self).size == old(self).size
                    &&& final(self).cache@ == old(self).cache@
                },
            },
    {
        let ghost o = self.order@;
        let ghost m0 = self.cache@;
        let ghost n = o.len() as int;
        let ghost inner0 = self.device.blocks();
        proof {
            self.device.lemma_inv_well_sized();
            assert(o.contains(o[0]));
            assert(o.contains(o[1]));
        }
        let to_remove = self.lru;
        let e = *self.cache.get(&to_remove).unwrap();
        if e.dirty {
            match self.device.write_block(to_remove, &e.data) {
                Err(err) => {
                    assert(self.blocks() =~= old(self).blocks());
                    return Err(err);
                },
                Ok(_) => {},
            }
        }
        let next = e.more_recent;
        assert(next == o[1]);
        self.set_less(next, INVALID_ADDRESS);
        self.cache.remove(&to_remove);
        self.lru = next;
        self.cached_count = self.cached_count - 1;
        let ghost o2 = o.subrange(1, n);
        proof {
            self.order = Ghost(o2);
            let m = self.cache@;
            let inner = self.device.blocks();
            assert(o2.no_duplicates());
            assert forall|k: u32| m.contains_key(k) <==> o2.contains(k) by {
                if o2.contains(k) {
                    let q = choose|q: int| 0 <= q < n - 1 && o2[q] == k;
                    assert(o[q + 1] == k);
                    assert(o.contains(k));
                    assert(k != to_remove);
                }
                if m.contains_key(k) {
                    assert(k != to_remove);
                    assert(m0.contains_key(k));
                    assert(o.contains(k));
                    let p = choose|p: int| 0 <= p < n && o[p] == k;
                    assert(o[0] == to_remove);
                    assert(p != 0);
                    assert(o2[p - 1] == k);
                }
            }
            assert forall|j: int| 0 <= j < n - 1 implies (#[trigger] m[o2[j]]).more_recent == link_more(o2, j)
                && m[o2[j]].less_recent == link_less(o2, j) by {
                assert(o2[j] == o[j + 1]);
                assert(o[j + 1] != to_remove);
                if j > 0 {
                    assert(o[j + 1] != next);
                }
            }
            assert forall|k: u32| #[trigger] m.contains_key(k) && !m[k].dirty && k < inner.len()
                implies m[k].data@ == inner[k as int] by {
                assert(m0.contains_key(k));
                assert(k != to_remove);
            }
            assert(self.blocks() =~= old(self).blocks()) by {
                assert forall|i: int| 0 <= i < inner0.len() implies #[trigger] self.blocks()[i] == old(self).blocks()[i] by {
                    if i == to_remove as int {
                        if e.dirty {
                            assert(inner[i] == e.data@);
                        }
                    }
                }
            }
        }
        Ok(())
    }

    /// Adds block `block`, holding `data`, to the cache as the most recently
    /// used one.
    fn link_new(&mut self, block: u32, data: [u8; BLOCK_SIZE], dirty: bool)
        requires
            old(self).inv(),
            !old(self).order().contains(block),
            block != INVALID_ADDRESS,
            old(self).order().len() < old(self).size,
            !dirty && block < old(self).device.blocks().len() ==> data@ == old(self).device.blocks()[block as int],
        ensures
            final(self).inv(),
            final(self).size == old(self).size,
            final(self).device == old(self).device,
            final(self).cache@.contains_key(block) && final(self).cache@[block].dirty == dirty,
            final(self).order() == old(self).order().push(block),
            final(self).blocks() == (if dirty && block < old(self).blocks().len() {
                old(self).blocks().update(block as int, data@)
            } else {
                old(self).blocks()
            }),
    {
        let ghost o = self.order@;
        let ghost m0 = self.cache@;
        let ghost n = o.len() as int;
        let old_mru = self.mru;
        if old_mru != INVALID_ADDRESS {
            proof {
                assert(o.contains(o[n - 1]));
            }
            self.set_more(old_mru, block);
        } else {
            self.lru = block;
        }
        let entry = CachedBlock { data, dirty, pinned: false, more_recent: INVALID_ADDRESS, less_recent: old_mru };
        self.cache.insert(block, entry);
        self.mru = block;
        self.cached_count = self.cached_count + 1;
        let ghost o2 = o.push(block);
        proof {
            self.device.lemma_inv_well_sized();
            self.order = Ghost(o2);
            let m = self.cache@;
            assert(!m0.contains_key(block));
            assert(o2.no_duplicates()) by {
                assert forall|a: int, b: int| 0 <= a < b < n + 1 implies o2[a] != o2[b] by {
                    if b == n {
                        assert(o.contains(o[a]));
                    }
                }
            }
            assert forall|k: u32| m.contains_key(k) <==> o2.contains(k) by {
                if o2.contains(k) {
                    let q = choose|q: int| 0 <= q < n + 1 && o2[q] == k;
                    if q < n {
                        assert(o.contains(k));
                    }
                }
                if m.contains_key(k) && k != block {
                    assert(o.contains(k));
                    let p = choose|p: int| 0 <= p < n && o[p] == k;
                    assert(o2[p] == k);
                }
                if k == block {
                    assert(o2[n] == block);
                }
            }
            assert forall|j: int| 0 <= j < n + 1 implies (#[trigger] m[o2[j]]).more_recent == link_more(o2, j)
                && m[o2[j]].less_recent == link_less(o2, j) by {
                if j < n {
                    assert(o2[j] == o[j]);
                    assert(o.contains(o[j]));
                    assert(o[j] != block);
                    if j == n - 1 {
                        assert(o[j] == old_mru);
                    } else {
                        assert(o[j] != old_mru);
                    }
                }
            }
            let inner = self.device.blocks();
            assert forall|k: u32| #[trigger] m.contains_key(k) && !m[k].dirty && k < inner.len()
                implies m[k].data@ == inner[k as int] by {
                if k != block {
                    assert(m0.contains_key(k));
                }
            }
            assert forall|i: int| 0 <= i < inner.len() implies #[trigger] self.blocks()[i] == (if dirty && block < old(self).blocks().len() {
                old(self).blocks().update(block as int, data@)
            } else {
                old(self).blocks()
            })[i] by {
                let k = i as u32;
                if k != block && m0.contains_key(k) {
                    assert(m[k].data == m0[k].data && m[k].dirty == m0[k].dirty);
                }
            }
            assert(self.blocks() =~= (if dirty && block < old(self).blocks().len() {
                old(self).blocks().update(block as int, data@)
            } else {
                old(self).blocks()
            }));
        }
    }

    /// Writes back the modified blocks, from the least to the most recently used.
    fn flush_cache(&mut self) -> (r: FSResult<()>)
        requires
            old(self).inv(),
        ensures
            final(self).inv(),
            final(self).blocks() == old(self).blocks(),
            final(self).order() == old(self).order(),
            final(self).size == old(self).size,
            device_result(r),
            r is Ok ==> forall|k: u32| #[trigger] final(self).cache@.contains_key(k) ==> !final(self).cache@[k].dirty,
            (forall|k: u32| #[trigger] old(self).cache@.contains_key(k) ==> !old(self).cache@[k].dirty)
                ==> r is Ok && final(self).device == old(self).device,
    {
        let ghost clean = forall|k: u32| #[trigger] old(self).cache@.contains_key(k) ==> !old(self).cache@[k].dirty;
        let ghost o = self.order@;
        let ghost n = o.len() as int;
        let ghost v0 = self.blocks();
        let mut cur = self.lru;
        let ghost mut i: int = 0;
        while cur != INVALID_ADDRESS
            invariant
                self.inv(),
                self.order@ == o,
                n == o.len(),
                self.blocks() == v0,
                v0 == old(self).blocks(),
                o == old(self).order(),
                self.size == old(self).size,
                0 <= i <= n,
                cur == (if i < n { o[i] } else { INVALID_ADDRESS }),
                forall|j: int| 0 <= j < i ==> !(#[trigger] self.cache@[o[j]]).dirty,
                clean ==> self.device == old(self).device && self.cache@ == old(self).cache@,
                clean == (forall|k: u32| #[trigger] old(self).cache@.contains_key(k) ==> !old(self).cache@[k].dirty),
            decreases n - i,
        {
            proof {
                self.device.lemma_inv_well_sized();
                assert(o.contains(o[i]));
            }
            let ghost m0 = self.cache@;
            let ghost inner0 = self.device.blocks();
            let e = *self.cache.get(&cur).unwrap();
            if e.dirty {
                match self.device.write_block(cur, &e.data) {
                    Err(err) => {
                        assert(self.blocks() =~= v0);
                        return Err(err);
                    },
                    Ok(_) => {},
                }
                let mut e2 = e;
                e2.dirty = false;
                self.cache.insert(cur, e2);
                proof {
                    let m = self.cache@;
                    let inner = self.device.blocks();
                    assert forall|k: u32| m.contains_key(k) <==> o.contains(k) by {
                        if k == cur {
                            assert(o.contains(o[i]));
                        }
                    }
                    assert forall|k: u32| #[trigger] m.contains_key(k) && !m[k].dirty && k < inner.len()
                        implies m[k].data@ == inner[k as int] by {
                        assert(m0.contains_key(k));
                    }
                    assert(self.blocks() =~= v0);
                    assert forall|j: int| 0 <= j < i + 1 implies !(#[trigger] self.cache@[o[j]]).dirty by {
                        if j < i {
                            assert(o[j] != o[i]);
                        }
                    }
                }
            }
            cur = e.more_recent;
            proof {
                i = i + 1;
            }
        }
        proof {
            assert forall|k: u32| #[trigger] self.cache@.contains_key(k) implies !self.cache@[k].dirty by {
                assert(o.contains(k));
                let p = choose|p: int| 0 <= p < n && o[p] == k;
            }
        }
        Ok(())
    }
}

} // verus!
