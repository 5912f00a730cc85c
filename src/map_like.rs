use std::collections::HashMap;
use vstd::prelude::*;

verus! {

broadcast use vstd::std_specs::hash::group_hash_axioms;

/// A map from keys to heap positions, as a priority queue needs it.
///
/// `key_limit` and `value_limit` bound what the map can store; both stay fixed
/// over the map's life.
pub trait MapLike: Sized {
    spec fn map_view(&self) -> Map<usize, usize>;

    spec fn key_limit(&self) -> nat;

    spec fn value_limit(&self) -> nat;

    spec fn inv(&self) -> bool;

    fn insert(&mut self, key: usize, value: usize)
        requires
            old(self).inv(),
            key < old(self).key_limit(),
            value < old(self).value_limit(),
        ensures
            final(self).inv(),
            final(self).map_view() == old(self).map_view().insert(key, value),
            final(self).key_limit() == old(self).key_limit(),
            final(self).value_limit() == old(self).value_limit(),
    ;

    fn get(&self, key: &usize) -> (r: Option<usize>)
        requires
            self.inv(),
            *key < self.key_limit(),
        ensures
            r == (if self.map_view().contains_key(*key) {
                Some(self.map_view()[*key])
            } else {
                None
            }),
    ;

    fn remove_entry(&mut self, key: &usize)
        requires
            old(self).inv(),
            *key < old(self).key_limit(),
        ensures
            final(self).inv(),
            final(self).map_view() == old(self).map_view().remove(*key),
            final(self).key_limit() == old(self).key_limit(),
            final(self).value_limit() == old(self).value_limit(),
    ;

    fn contains_key(&self, key: &usize) -> (r: bool)
        requires
            self.inv(),
            *key < self.key_limit(),
        ensures
            r == self.map_view().contains_key(*key),
    ;

    fn set(&mut self, key: usize, value: usize)
        requires
            old(self).inv(),
            key < old(self).key_limit(),
            value < old(self).value_limit(),
        ensures
            final(self).inv(),
            final(self).map_view() == old(self).map_view().insert(key, value),
            final(self).key_limit() == old(self).key_limit(),
            final(self).value_limit() == old(self).value_limit(),
    ;
}

/// A `MapLike` over std's hash map, for sparse key spaces.
pub struct HashMapWrap {
    hash_map: HashMap<usize, usize>,
}

impl HashMapWrap {
    pub fn new() -> (r: HashMapWrap)
        ensures
            r.inv(),
            r.map_view() == Map::<usize, usize>::empty(),
            r.key_limit() == usize::MAX as nat + 1,
            r.value_limit() == usize::MAX as nat + 1,
    {
        HashMapWrap { hash_map: HashMap::new() }
    }
}

impl Default for HashMapWrap {
    fn default() -> (r: HashMapWrap)
        ensures
            r.inv(),
            r.map_view() == Map::<usize, usize>::empty(),
    {
        HashMapWrap::new()
    }
}

impl MapLike for HashMapWrap {
    closed spec fn map_view(&self) -> Map<usize, usize> {
        self.hash_map@
    }

    closed spec fn key_limit(&self) -> nat {
        usize::MAX as nat + 1
    }

    closed spec fn value_limit(&self) -> nat {
        usize::MAX as nat + 1
    }

    closed spec fn inv(&self) -> bool {
        true
    }

    fn insert(&mut self, key: usize, value: usize) {
        self.hash_map.insert(key, value);
    }

    fn get(&self, key: &usize) -> (r: Option<usize>) {
        match self.hash_map.get(key) {
            Some(v) => Some(*v),
            None => None,
        }
    }

    fn remove_entry(&mut self, key: &usize) {
        self.hash_map.remove(key);
    }

    fn contains_key(&self, key: &usize) -> (r: bool) {
        self.hash_map.contains_key(key)
    }

    fn set(&mut self, key: usize, value: usize) {
        self.hash_map.insert(key, value);
    }
}

/// Marks a key that has no position.
pub const FAKE_HASH_MAP_ABSENT: u16 = 0xffff;

/// A dense `MapLike` over the cells of a grid: one `u16` slot per flat cell
/// offset, `FAKE_HASH_MAP_ABSENT` where the key is absent.
pub struct FakeHashMapForGrid {
    positions: Vec<u16>,
    grid_shape: (u16, u16),
}

impl FakeHashMapForGrid {
    /// An empty map for the cells of a grid of `grid_shape`.
    pub fn new(grid_shape: (u16, u16)) -> (r: FakeHashMapForGrid)
        ensures
            r.inv(),
            r.map_view() == Map::<usize, usize>::empty(),
            r.key_limit() == grid_shape.0 as nat * grid_shape.1 as nat,
            r.value_limit() == FAKE_HASH_MAP_ABSENT as nat,
    {
        proof {
            assert(grid_shape.0 as nat * grid_shape.1 as nat <= 0xffff * 0xffff) by (nonlinear_arith)
                requires
                    grid_shape.0 <= 0xffff,
                    grid_shape.1 <= 0xffff,
            ;
        }
        let size = grid_shape.0 as usize * grid_shape.1 as usize;
        let positions = vec![FAKE_HASH_MAP_ABSENT; size];
        let r = FakeHashMapForGrid { grid_shape, positions };
        assert(r.map_view() =~= Map::<usize, usize>::empty());
        r
    }
}

impl MapLike for FakeHashMapForGrid {
    closed spec fn map_view(&self) -> Map<usize, usize> {
        Map::new(
            |k: usize| k < self.positions@.len() && self.positions@[k as int] != FAKE_HASH_MAP_ABSENT,
            |k: usize| self.positions@[k as int] as usize,
        )
    }

    closed spec fn key_limit(&self) -> nat {
        self.positions@.len()
    }

    closed spec fn value_limit(&self) -> nat {
        FAKE_HASH_MAP_ABSENT as nat
    }

    closed spec fn inv(&self) -> bool {
        true
    }

    fn insert(&mut self, key: usize, value: usize) {
        self.positions[key] = value as u16;
        assert(self.map_view() =~= old(self).map_view().insert(key, value));
    }

    fn get(&self, key: &usize) -> (r: Option<usize>) {
        let v = self.positions[*key];
        if v == FAKE_HASH_MAP_ABSENT {
            None
        } else {
            Some(v as usize)
        }
    }

    fn remove_entry(&mut self, key: &usize) {
        self.positions[*key] = FAKE_HASH_MAP_ABSENT;
        assert(self.map_view() =~= old(self).map_view().remove(*key));
    }

    fn contains_key(&self, key: &usize) -> (r: bool) {
        self.positions[*key] != FAKE_HASH_MAP_ABSENT
    }

    fn set(&mut self, key: usize, value: usize) {
        self.positions[key] = value as u16;
        assert(self.map_view() =~= old(self).map_view().insert(key, value));
    }
}

} // verus!
