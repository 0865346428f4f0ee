//! A bounded cache of tiles with least-recently-used eviction.
//!
//! The cache maps tile ids to device buffers. It only stores and hands
//! out the buffers, so it is generic in what a buffer is.

use std::collections::HashMap;
use vstd::prelude::*;

verus! {

/// Identifier of a tile: its index.
pub type TileId = usize;

/// Cache of at most `capacity` buffers, keyed by tile id.
pub struct LruTileCache<B> {
    capacity: usize,
    buffers: HashMap<TileId, B>,
    /// Resident tiles from least to most recently used.
    access_order: Vec<TileId>,
}

impl<B> LruTileCache<B> {
    /// The greatest number of resident tiles; at least 1.
    pub closed spec fn limit(&self) -> nat {
        self.capacity as nat
    }

    /// The resident tiles from least to most recently used.
    pub closed spec fn recency(&self) -> Seq<TileId> {
        self.access_order@
    }

    /// The buffer of every resident tile.
    pub closed spec fn contents(&self) -> Map<TileId, B> {
        self.buffers@
    }

    /// The invariant of the cache: the tiles in use order are exactly the
    /// tiles with a buffer, each once, and no more than the limit.
    pub open spec fn wf(&self) -> bool {
        &&& self.limit() >= 1
        &&& self.recency().no_duplicates()
        &&& self.recency().len() <= self.limit()
        &&& forall|id: TileId| self.recency().contains(id) <==> self.contents().contains_key(id)
        &&& self.contents().dom().finite()
        &&& self.contents().dom().len() == self.recency().len()
    }

    /// An empty cache for `capacity` tiles; a capacity of 0 counts as 1.
    pub fn new(capacity: usize) -> (cache: Self)
        ensures
            cache.wf(),
            cache.limit() == vstd::math::max(capacity as int, 1),
            cache.recency().len() == 0,
            cache.contents() == Map::<TileId, B>::empty(),
    {
        broadcast use vstd::std_specs::hash::group_hash_axioms;

        let cache = LruTileCache {
            capacity: if capacity < 1 {
                1
            } else {
                capacity
            },
            buffers: HashMap::new(),
            access_order: Vec::new(),
        };
        assert(cache.contents().dom() =~= Set::<TileId>::empty());
        cache
    }

    /// Position of `tile_id` in the use order, if it is resident.
    fn position(&self, tile_id: TileId) -> (r: Option<usize>)
        ensures
            r is Some ==> r->Some_0 < self.recency().len() && self.recency()[r->Some_0 as int]
                == tile_id,
            r is None ==> !self.recency().contains(tile_id),
    {
        let mut i: usize = 0;
        while i < self.access_order.len()
            invariant
                i <= self.access_order@.len(),
                forall|j: int| 0 <= j < i ==> self.access_order@[j] != tile_id,
            decreases self.access_order@.len() - i,
        {
            if self.access_order[i] == tile_id {
                return Some(i);
            }
            i += 1;
        }
        None
    }

    /// Makes the tile at position `i` the most recently used.
    fn promote(&mut self, i: usize)
        requires
            old(self).wf(),
            i < old(self).recency().len(),
        ensures
            final(self).wf(),
            final(self).limit() == old(self).limit(),
            final(self).contents() == old(self).contents(),
            final(self).recency() == old(self).recency().remove(i as int).push(
                old(self).recency()[i as int],
            ),
    {
        let ghost before = self.access_order@;
        let id = self.access_order.remove(i);
        self.access_order.push(id);
        proof {
            let mid = before.remove(i as int);
            let after = self.access_order@;
            assert(after == mid.push(id));
            assert forall|a: int, b: int| 0 <= a < after.len() && 0 <= b < after.len() && a
                != b implies after[a] != after[b] by {
                let ia = if a == after.len() - 1 {
                    i as int
                } else if a < i {
                    a
                } else {
                    a + 1
                };
                let ib = if b == after.len() - 1 {
                    i as int
                } else if b < i {
                    b
                } else {
                    b + 1
                };
                assert(after[a] == before[ia]);
                assert(after[b] == before[ib]);
            }
            assert forall|x: TileId| after.contains(x) <==> before.contains(x) by {
                if after.contains(x) {
                    let a = choose|a: int| 0 <= a < after.len() && after[a] == x;
                    let ia = if a == after.len() - 1 {
                        i as int
                    } else if a < i {
                        a
                    } else {
                        a + 1
                    };
                    assert(before[ia] == x);
                }
                if before.contains(x) {
                    let b = choose|b: int| 0 <= b < before.len() && before[b] == x;
                    let a = if b == i {
                        after.len() - 1
                    } else if b < i {
                        b
                    } else {
                        b - 1
                    };
                    assert(after[a] == x);
                }
            }
        }
    }

    /// The buffer of `tile_id`, which becomes the most recently used
    /// tile; nothing when the tile is not resident.
    pub fn get(&mut self, tile_id: TileId) -> (r: Option<&B>)
        requires
            old(self).wf(),
        ensures
            final(self).wf(),
            final(self).limit() == old(self).limit(),
            final(self).contents() == old(self).contents(),
            old(self).contents().contains_key(tile_id) ==> {
                &&& r is Some
                &&& *r->Some_0 == old(self).contents()[tile_id]
                &&& final(self).recency() == old(self).recency().remove(
                    old(self).recency().index_of(tile_id),
                ).push(tile_id)
            },
            !old(self).contents().contains_key(tile_id) ==> {
                &&& r is None
                &&& final(self).recency() == old(self).recency()
            },
    {
        broadcast use vstd::std_specs::hash::group_hash_axioms;

        match self.position(tile_id) {
            Some(i) => {
                proof {
                    let order = self.recency();
                    assert(order.contains(tile_id));
                    assert(order[order.index_of(tile_id)] == tile_id);
                }
                self.promote(i);
                self.buffers.get(&tile_id)
            },
            None => None,
        }
    }

    /// Puts the buffer of `tile_id` into the cache as the most recently
    /// used tile.
    ///
    /// A resident tile gets the new buffer and nothing is evicted. For a
    /// new tile in a full cache the least recently used tile is evicted and
    /// its id returned, so that the caller can release what belongs to it.
    pub fn insert(&mut self, tile_id: TileId, buffer: B) -> (evicted: Option<TileId>)
        requires
            old(self).wf(),
        ensures
            final(self).wf(),
            final(self).limit() == old(self).limit(),
            old(self).contents().contains_key(tile_id) ==> {
                &&& evicted is None
                &&& final(self).contents() == old(self).contents().insert(tile_id, buffer)
                &&& final(self).recency() == old(self).recency().remove(
                    old(self).recency().index_of(tile_id),
                ).push(tile_id)
            },
            !old(self).contents().contains_key(tile_id) && old(self).recency().len()
                < old(self).limit() ==> {
                &&& evicted is None
                &&& final(self).contents() == old(self).contents().insert(tile_id, buffer)
                &&& final(self).recency() == old(self).recency().push(tile_id)
            },
            !old(self).contents().contains_key(tile_id) && old(self).recency().len()
                >= old(self).limit() ==> {
                &&& evicted == Some(old(self).recency()[0])
                &&& final(self).contents() == old(self).contents().remove(
                    old(self).recency()[0],
                ).insert(tile_id, buffer)
                &&& final(self).recency() == old(self).recency().drop_first().push(tile_id)
            },
    {
        broadcast use vstd::std_specs::hash::group_hash_axioms;

        let ghost order0 = self.recency();
        let ghost map0 = self.contents();
        match self.position(tile_id) {
            Some(i) => {
                proof {
                    assert(order0.contains(tile_id));
                    assert(order0[order0.index_of(tile_id)] == tile_id);
                }
                self.promote(i);
                self.buffers.insert(tile_id, buffer);
                proof {
                    assert(self.contents().dom() =~= map0.dom());
                }
                None
            },
            None => {
                let mut evicted: Option<TileId> = None;
                if self.access_order.len() >= self.capacity {
                    let lru = self.access_order.remove(0);
                    self.buffers.remove(&lru);
                    evicted = Some(lru);
                    proof {
                        let order1 = self.recency();
                        assert(order1 =~= order0.drop_first());
                        assert(order0.contains(lru));
                        assert forall|x: TileId|
                            order1.contains(x) <==> self.contents().contains_key(x) by {
                            if order1.contains(x) {
                                let a = choose|a: int| 0 <= a < order1.len() && order1[a] == x;
                                assert(order0[a + 1] == x);
                                assert(order0.contains(x));
                            }
                            if self.contents().contains_key(x) {
                                assert(order0.contains(x));
                                let b = choose|b: int| 0 <= b < order0.len() && order0[b] == x;
                                assert(order1[b - 1] == x);
                            }
                        }
                        assert(self.contents().dom() =~= map0.dom().remove(lru));
                    }
                }
                let ghost order1 = self.recency();
                let ghost map1 = self.contents();
                self.buffers.insert(tile_id, buffer);
                self.access_order.push(tile_id);
                proof {
                    let order2 = self.recency();
                    assert(!order1.contains(tile_id)) by {
                        if order1.contains(tile_id) {
                            assert(map1.contains_key(tile_id));
                        }
                    }
                    assert forall|a: int, b: int|
                        0 <= a < order2.len() && 0 <= b < order2.len() && a != b implies order2[a]
                        != order2[b] by {
                        if a == order1.len() {
                            assert(order1.contains(order1[b]));
                        } else if b == order1.len() {
                            assert(order1.contains(order1[a]));
                        }
                    }
                    assert forall|x: TileId|
                        order2.contains(x) <==> self.contents().contains_key(x) by {
                        if order2.contains(x) {
                            let a = choose|a: int| 0 <= a < order2.len() && order2[a] == x;
                            if a < order1.len() {
                                assert(order1[a] == x);
                                assert(order1.contains(x));
                            }
                        }
                        if self.contents().contains_key(x) {
                            if x == tile_id {
                                assert(order2[order1.len() as int] == x);
                            } else {
                                assert(order1.contains(x));
                                let b = choose|b: int| 0 <= b < order1.len() && order1[b] == x;
                                assert(order2[b] == x);
                            }
                        }
                    }
                    assert(self.contents().dom() =~= map1.dom().insert(tile_id));
                }
                evicted
            },
        }
    }

    /// Whether `tile_id` is resident. The use order is left alone.
    pub fn contains(&self, tile_id: TileId) -> (r: bool)
        ensures
            r == self.contents().contains_key(tile_id),
    {
        broadcast use vstd::std_specs::hash::group_hash_axioms;

        self.buffers.contains_key(&tile_id)
    }

    /// Number of resident tiles.
    pub fn len(&self) -> (n: usize)
        requires
            self.wf(),
        ensures
            n == self.recency().len(),
    {
        self.access_order.len()
    }

    /// Whether no tile is resident.
    pub fn is_empty(&self) -> (r: bool)
        requires
            self.wf(),
        ensures
            r == (self.recency().len() == 0),
    {
        self.access_order.len() == 0
    }

    /// Drops every buffer.
    pub fn clear(&mut self)
        requires
            old(self).wf(),
        ensures
            final(self).wf(),
            final(self).limit() == old(self).limit(),
            final(self).recency().len() == 0,
            final(self).contents() == Map::<TileId, B>::empty(),
    {
        broadcast use vstd::std_specs::hash::group_hash_axioms;

        self.buffers.clear();
        self.access_order.clear();
        proof {
            assert(self.contents().dom() =~= Set::<TileId>::empty());
        }
    }

    /// The greatest number of resident tiles.
    pub fn capacity(&self) -> (c: usize)
        ensures
            c == self.limit(),
    {
        self.capacity
    }
}

} // verus!
