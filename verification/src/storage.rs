use vstd::prelude::*;
use crate::tile::{Tile, TCoord};

verus! {

/// Sparse tile storage for one generation-parity phase: a hash map from tile
/// addresses to packed tiles, hashed with fnv's FNV-1a hasher.  Absent
/// addresses are implicitly all-dead.
#[verifier::external_body]
pub struct TileMap {
    inner: fnv::FnvHashMap<TCoord, Tile>,
}

/// What a `TileMap` holds: the packed 32-bit tile value stored under each
/// tile address `(x, y)`.
pub uninterp spec fn tmap_entries(m: TileMap) -> Map<(i64, i64), u32>;

/// The contents of a tile map with nothing stored in it.
pub open spec fn empty_tiles() -> Map<(i64, i64), u32> {
    Map::empty()
}

/// The contents of an address set with nothing stored in it.
pub open spec fn empty_coords() -> Set<(i64, i64)> {
    Set::empty()
}

impl TileMap {
    /// Relies on `HashMap::default` (through fnv's `FnvHashMap` alias):
    /// a freshly built map is empty.
    #[verifier::external_body]
    pub fn new() -> (r: TileMap)
        ensures
            tmap_entries(r) == empty_tiles(),
    {
        TileMap { inner: fnv::FnvHashMap::default() }
    }

    /// Relies on `HashMap::get`: returns the value stored under a key equal
    /// to `c`, if there is one.  `TCoord`'s derived `Eq` and `Hash` are
    /// componentwise, so key equality is equality of the address pair.
    #[verifier::external_body]
    pub fn get(&self, c: TCoord) -> (r: Option<Tile>)
        ensures
            r == if tmap_entries(*self).contains_key((c.0, c.1)) {
                Some(Tile(tmap_entries(*self)[(c.0, c.1)]))
            } else {
                None::<Tile>
            },
    {
        self.inner.get(&c).copied()
    }

    /// Relies on `HashMap::insert`: afterwards the map holds `t.0` under
    /// `(c.0, c.1)` and is otherwise unchanged.
    #[verifier::external_body]
    pub fn insert(&mut self, c: TCoord, t: Tile)
        ensures
            tmap_entries(*final(self)) == tmap_entries(*old(self)).insert((c.0, c.1), t.0),
    {
        self.inner.insert(c, t);
    }

    /// Relies on `HashMap::keys`: yields each stored key exactly once, in an
    /// order this contract leaves open.
    #[verifier::external_body]
    pub fn keys(&self) -> (r: Vec<TCoord>)
        ensures
            forall|i: int, j: int|
                0 <= i < j < r@.len() ==> (#[trigger] r@[i].0, r@[i].1) != (#[trigger] r@[j].0, r@[j].1),
            forall|i: int|
                0 <= i < r@.len() ==> tmap_entries(*self).contains_key((#[trigger] r@[i].0, r@[i].1)),
            forall|k: (i64, i64)| #[trigger]
                tmap_entries(*self).contains_key(k) ==> exists|i: int|
                    0 <= i < r@.len() && (#[trigger] r@[i].0, r@[i].1) == k,
    {
        self.inner.keys().copied().collect()
    }

    /// Relies on `HashMap::iter`: yields each stored key exactly once, with
    /// the value stored under it, in an order this contract leaves open.
    #[verifier::external_body]
    pub fn entries(&self) -> (r: Vec<(TCoord, Tile)>)
        ensures
            forall|i: int, j: int|
                0 <= i < j < r@.len() ==> (#[trigger] r@[i].0.0, r@[i].0.1) != (#[trigger] r@[j].0.0, r@[j].0.1),
            forall|i: int|
                0 <= i < r@.len() ==> tmap_entries(*self).contains_key(
                    (#[trigger] r@[i].0.0, r@[i].0.1),
                ) && tmap_entries(*self)[(r@[i].0.0, r@[i].0.1)] == r@[i].1.0,
            forall|k: (i64, i64)| #[trigger]
                tmap_entries(*self).contains_key(k) ==> exists|i: int|
                    0 <= i < r@.len() && (#[trigger] r@[i].0.0, r@[i].0.1) == k,
    {
        self.inner.iter().map(|(k, v)| (*k, *v)).collect()
    }
}

/// The set of tile addresses scheduled for recomputation, hashed with fnv's
/// FNV-1a hasher.
#[verifier::external_body]
pub struct TCoordSet {
    inner: fnv::FnvHashSet<TCoord>,
}

/// What a `TCoordSet` holds: the stored tile addresses `(x, y)`.
pub uninterp spec fn tset_elems(s: TCoordSet) -> Set<(i64, i64)>;

impl TCoordSet {
    /// Relies on `HashSet::default` (through fnv's `FnvHashSet` alias):
    /// a freshly built set is empty.
    #[verifier::external_body]
    pub fn new() -> (r: TCoordSet)
        ensures
            tset_elems(r) == empty_coords(),
    {
        TCoordSet { inner: fnv::FnvHashSet::default() }
    }

    /// Relies on `HashSet::insert`: afterwards the set contains `(c.0, c.1)`
    /// and is otherwise unchanged.
    #[verifier::external_body]
    pub fn insert(&mut self, c: TCoord)
        ensures
            tset_elems(*final(self)) == tset_elems(*old(self)).insert((c.0, c.1)),
    {
        self.inner.insert(c);
    }

    /// Relies on `HashSet::iter`: yields each stored address exactly once, in
    /// an order this contract leaves open.
    #[verifier::external_body]
    pub fn elems(&self) -> (r: Vec<TCoord>)
        ensures
            forall|i: int, j: int|
                0 <= i < j < r@.len() ==> (#[trigger] r@[i].0, r@[i].1) != (#[trigger] r@[j].0, r@[j].1),
            forall|i: int|
                0 <= i < r@.len() ==> tset_elems(*self).contains((#[trigger] r@[i].0, r@[i].1)),
            forall|k: (i64, i64)| #[trigger]
                tset_elems(*self).contains(k) ==> exists|i: int|
                    0 <= i < r@.len() && (#[trigger] r@[i].0, r@[i].1) == k,
    {
        self.inner.iter().copied().collect()
    }
}

} // verus!
