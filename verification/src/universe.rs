use vstd::prelude::*;
use crate::tile::{Tile, TCoord, tile_bit, block_cell, block_neighbors, cell_count, next_state,
    step_bit_fwd, step_bit_bwd, lemma_tile_write, lemma_zero_tile, lemma_tile_ext};
use crate::calc::{calc_fwd, calc_bwd};
use crate::rules::RuleTable;
use crate::storage::{TileMap, TCoordSet, tmap_entries, tset_elems, empty_tiles, empty_coords};
use crate::coords::{map_at, eff, cell_key, tmod4, tmod8, alive_in, split4, split8,
    lemma_addr_unique, in_key_range, decode_cell, lemma_decode_addr, lemma_addr_decode};
use vstd::arithmetic::div_mod::{lemma_fundamental_div_mod, lemma_fundamental_div_mod_converse_div,
    lemma_fundamental_div_mod_converse_mod};

verus! {

/// The observable state of one logical cell.
#[derive(Clone, Copy, PartialEq, Eq, Structural, Debug)]
pub enum CellState {
    Alive,
    Dead,
}

/// What a single-cell mutation does to the touched bit.
enum CellAction {
    Birth,
    Death,
    Toggle,
    Noop,
}

/// The sparse stepping engine: two tile maps (one per generation-parity
/// phase), the frontier of tile addresses to recompute, the generation
/// counter, and the compiled rule table.
pub struct Universe {
    /// Tile storage addressed with the even-generation origin.
    pub p01: TileMap,
    /// Tile storage addressed with the odd-generation origin, one cell away.
    pub p10: TileMap,
    /// Tile addresses scheduled for recomputation by the next step.
    pub active: TCoordSet,
    /// How many generations have been computed; selects the current phase.
    pub generation: u64,
    /// The compiled birth/survival rule.
    pub rule_table: RuleTable,
}

/// `k` together with its three backward neighbor addresses added to `s`.
pub open spec fn with_bwd_nbrs(s: Set<(i64, i64)>, k: (i64, i64)) -> Set<(i64, i64)> {
    s.insert(k).insert((k.0.wrapping_sub(1), k.1.wrapping_sub(1))).insert(
        (k.0.wrapping_sub(1), k.1),
    ).insert((k.0, k.1.wrapping_sub(1)))
}

/// `k` together with its three forward neighbor addresses added to `s`.
pub open spec fn with_fwd_nbrs(s: Set<(i64, i64)>, k: (i64, i64)) -> Set<(i64, i64)> {
    s.insert(k).insert((k.0.wrapping_add(1), k.1.wrapping_add(1))).insert(
        (k.0.wrapping_add(1), k.1),
    ).insert((k.0, k.1.wrapping_add(1)))
}

/// `post` is `pre` with exactly the cell `(x, y)` changed to `v` (or flipped,
/// for `None`), as far as cell states go.
pub open spec fn writes_cell(pre: Universe, post: Universe, x: i64, y: i64, v: Option<
    bool,
>) -> bool {
    forall|a: i64, b: i64|
        #[trigger] post.cell_alive(a, b) == (if a == x && b == y {
            match v {
                Some(u) => u,
                None => !pre.cell_alive(a, b),
            }
        } else {
            pre.cell_alive(a, b)
        })
}

impl Universe {
    /// The compiled rule table matches its rule specification.
    pub open spec fn wf(&self) -> bool {
        self.rule_table.wf()
    }

    /// The live-neighbor counts that make a dead cell become alive.
    pub open spec fn births(&self) -> Seq<u32> {
        self.rule_table.births@
    }

    /// The live-neighbor counts that keep a live cell alive.
    pub open spec fn survivals(&self) -> Seq<u32> {
        self.rule_table.survivals@
    }

    /// Whether the current generation reads and writes the even phase.
    pub open spec fn even_phase(&self) -> bool {
        self.generation % 2 == 0
    }

    /// The tile map of the current phase.
    pub open spec fn cur_tiles(&self) -> Map<(i64, i64), u32> {
        if self.even_phase() {
            tmap_entries(self.p01)
        } else {
            tmap_entries(self.p10)
        }
    }

    /// The tile map of the other phase.
    pub open spec fn other_tiles(&self) -> Map<(i64, i64), u32> {
        if self.even_phase() {
            tmap_entries(self.p10)
        } else {
            tmap_entries(self.p01)
        }
    }

    /// The frontier of tile addresses scheduled for recomputation.
    pub open spec fn active_set(&self) -> Set<(i64, i64)> {
        tset_elems(self.active)
    }

    /// Whether the logical cell `(x, y)` is alive in the current generation.
    pub open spec fn cell_alive(&self, x: i64, y: i64) -> bool {
        alive_in(
            self.cur_tiles(),
            eff(x, !self.even_phase()),
            eff(y, !self.even_phase()),
        )
    }

    /// A fresh universe under the rule `b`/`s`: every cell dead, generation
    /// zero, nothing scheduled.
    pub fn new(b: Vec<u32>, s: Vec<u32>) -> (r: Universe)
        requires
            forall|i: int| 0 <= i < b@.len() ==> b@[i] <= 8,
            forall|i: int| 0 <= i < s@.len() ==> s@[i] <= 8,
        ensures
            r.wf(),
            r.births() == b@,
            r.survivals() == s@,
            r.generation == 0,
            tmap_entries(r.p01) == empty_tiles(),
            tmap_entries(r.p10) == empty_tiles(),
            r.active_set() == empty_coords(),
            forall|x: i64, y: i64| !(#[trigger] r.cell_alive(x, y)),
    {
        let r = Universe {
            p01: TileMap::new(),
            p10: TileMap::new(),
            active: TCoordSet::new(),
            generation: 0,
            rule_table: RuleTable::new(b, s),
        };
        proof {
            lemma_zero_tile();
            assert forall|x: i64, y: i64| !(#[trigger] r.cell_alive(x, y)) by {
                assert(map_at(tmap_entries(r.p01), cell_key(x, y)) == 0);
            }
        }
        r
    }

    /// Empties both tile maps and the frontier; the generation counter and
    /// the rule table keep their values.
    pub fn clear(&mut self)
        ensures
            final(self).wf() == old(self).wf(),
            final(self).generation == old(self).generation,
            final(self).rule_table == old(self).rule_table,
            tmap_entries(final(self).p01) == empty_tiles(),
            tmap_entries(final(self).p10) == empty_tiles(),
            final(self).active_set() == empty_coords(),
            forall|x: i64, y: i64| !(#[trigger] final(self).cell_alive(x, y)),
    {
        self.p01 = TileMap::new();
        self.p10 = TileMap::new();
        self.active = TCoordSet::new();
        proof {
            lemma_zero_tile();
            assert forall|x: i64, y: i64| !(#[trigger] self.cell_alive(x, y)) by {
                assert(map_at(
                    self.cur_tiles(),
                    cell_key(eff(x, !self.even_phase()), eff(y, !self.even_phase())),
                ) == 0);
            }
        }
    }

    /// Read-modify-write of one cell's bit, scheduling the touched tile and
    /// its three phase-relevant neighbors for recomputation.
    fn perform_cell_action(&mut self, x: i64, y: i64, action: CellAction) -> (r: CellState)
        ensures
            final(self).wf() == old(self).wf(),
            final(self).generation == old(self).generation,
            final(self).rule_table == old(self).rule_table,
            final(self).other_tiles() == old(self).other_tiles(),
            (match action {
                CellAction::Birth => writes_cell(*old(self), *final(self), x, y, Some(true)),
                CellAction::Death => writes_cell(*old(self), *final(self), x, y, Some(false)),
                CellAction::Toggle => writes_cell(*old(self), *final(self), x, y, None),
                CellAction::Noop => final(self).cur_tiles() == old(self).cur_tiles(),
            }),
            (match action {
                CellAction::Noop => final(self).active_set() == old(self).active_set(),
                _ => {
                    let k = cell_key(
                        eff(x, !old(self).even_phase()),
                        eff(y, !old(self).even_phase()),
                    );
                    final(self).active_set() == (if old(self).even_phase() {
                        with_bwd_nbrs(old(self).active_set(), k)
                    } else {
                        with_fwd_nbrs(old(self).active_set(), k)
                    })
                },
            }),
            r == (if final(self).cell_alive(x, y) {
                CellState::Alive
            } else {
                CellState::Dead
            }),
    {
        let odd = self.generation % 2 == 1;
        let xe = if odd {
            x.wrapping_sub(1)
        } else {
            x
        };
        let ye = if odd {
            y.wrapping_sub(1)
        } else {
            y
        };
        let (cx, tx) = split4(xe);
        let (cy, ty) = split8(ye);
        let coord = TCoord(cx, cy);
        let fetched = if odd {
            self.p10.get(coord)
        } else {
            self.p01.get(coord)
        };
        let cur: u32 = match fetched {
            Some(t) => t.0,
            None => 0,
        };
        let pos: u32 = 31 - 4 * ty - tx;
        let mask: u32 = 1u32 << pos;
        let newv: u32 = match action {
            CellAction::Birth => cur | mask,
            CellAction::Death => cur & !mask,
            CellAction::Toggle => cur ^ mask,
            CellAction::Noop => cur,
        };
        let is_noop = match action {
            CellAction::Noop => true,
            _ => false,
        };
        if !is_noop {
            if odd {
                self.p10.insert(coord, Tile(newv));
                self.active.insert(coord);
                self.active.insert(coord.plus(TCoord(1, 1)));
                self.active.insert(coord.plus(TCoord(1, 0)));
                self.active.insert(coord.plus(TCoord(0, 1)));
            } else {
                self.p01.insert(coord, Tile(newv));
                self.active.insert(coord);
                self.active.insert(coord.minus(TCoord(1, 1)));
                self.active.insert(coord.minus(TCoord(1, 0)));
                self.active.insert(coord.minus(TCoord(0, 1)));
            }
        }
        proof {
            let pre = *old(self);
            let post = *self;
            let k = cell_key(xe, ye);
            assert(k == (cx, cy));
            assert(cur == map_at(pre.cur_tiles(), k));
            if !is_noop {
                let mode: Option<bool> = match action {
                    CellAction::Birth => Some(true),
                    CellAction::Death => Some(false),
                    CellAction::Toggle => None,
                    CellAction::Noop => Some(true),
                };
                lemma_tile_write(cur, newv, tx as int, ty as int, mode);
                assert(post.cur_tiles() == pre.cur_tiles().insert(k, newv));
                assert forall|a: i64, b: i64|
                    #[trigger] post.cell_alive(a, b) == (if a == x && b == y {
                        match mode {
                            Some(u) => u,
                            None => !pre.cell_alive(a, b),
                        }
                    } else {
                        pre.cell_alive(a, b)
                    }) by {
                    let ae = eff(a, odd);
                    let be = eff(b, odd);
                    let k2 = cell_key(ae, be);
                    if k2 == k {
                        assert(map_at(post.cur_tiles(), k2) == newv);
                        if tmod4(ae) == tx as int && tmod8(be) == ty as int {
                            lemma_addr_unique(ae, be, xe, ye);
                            assert(ae == xe && be == ye);
                            assert(a == x && b == y);
                        } else {
                            assert(tile_bit(newv, tmod4(ae), tmod8(be)) == tile_bit(
                                cur,
                                tmod4(ae),
                                tmod8(be),
                            ));
                            assert(a != x || b != y);
                        }
                    } else {
                        assert(map_at(post.cur_tiles(), k2) == map_at(pre.cur_tiles(), k2));
                        assert(a != x || b != y);
                    }
                }
            }
            assert(post.cell_alive(x, y) == tile_bit(newv, tx as int, ty as int));
        }
        let alive = (newv >> pos) & 1 == 1;
        proof {
            assert(alive == tile_bit(newv, tx as int, ty as int));
        }
        if alive {
            CellState::Alive
        } else {
            CellState::Dead
        }
    }

    /// The state of the logical cell `(x, y)`; changes nothing.
    pub fn get_cell(&mut self, x: i64, y: i64) -> (r: CellState)
        ensures
            final(self).wf() == old(self).wf(),
            final(self).generation == old(self).generation,
            final(self).rule_table == old(self).rule_table,
            final(self).cur_tiles() == old(self).cur_tiles(),
            final(self).other_tiles() == old(self).other_tiles(),
            final(self).active_set() == old(self).active_set(),
            r == (if old(self).cell_alive(x, y) {
                CellState::Alive
            } else {
                CellState::Dead
            }),
    {
        self.perform_cell_action(x, y, CellAction::Noop)
    }

    /// Makes the logical cell `(x, y)` alive; every other cell keeps its
    /// state, and the touched tile and its phase-relevant neighbors are
    /// scheduled for recomputation.
    pub fn set_cell(&mut self, x: i64, y: i64)
        ensures
            final(self).wf() == old(self).wf(),
            final(self).generation == old(self).generation,
            final(self).rule_table == old(self).rule_table,
            final(self).other_tiles() == old(self).other_tiles(),
            writes_cell(*old(self), *final(self), x, y, Some(true)),
            old(self).active_set().subset_of(final(self).active_set()),
            ({
                let k = cell_key(
                    eff(x, !old(self).even_phase()),
                    eff(y, !old(self).even_phase()),
                );
                final(self).active_set() == (if old(self).even_phase() {
                    with_bwd_nbrs(old(self).active_set(), k)
                } else {
                    with_fwd_nbrs(old(self).active_set(), k)
                })
            }),
    {
        self.perform_cell_action(x, y, CellAction::Birth);
    }

    /// Makes the logical cell `(x, y)` dead; every other cell keeps its
    /// state, and the touched tile and its phase-relevant neighbors are
    /// scheduled for recomputation.
    pub fn kill_cell(&mut self, x: i64, y: i64)
        ensures
            final(self).wf() == old(self).wf(),
            final(self).generation == old(self).generation,
            final(self).rule_table == old(self).rule_table,
            final(self).other_tiles() == old(self).other_tiles(),
            writes_cell(*old(self), *final(self), x, y, Some(false)),
            old(self).active_set().subset_of(final(self).active_set()),
            ({
                let k = cell_key(
                    eff(x, !old(self).even_phase()),
                    eff(y, !old(self).even_phase()),
                );
                final(self).active_set() == (if old(self).even_phase() {
                    with_bwd_nbrs(old(self).active_set(), k)
                } else {
                    with_fwd_nbrs(old(self).active_set(), k)
                })
            }),
    {
        self.perform_cell_action(x, y, CellAction::Death);
    }

    /// Flips the logical cell `(x, y)`; every other cell keeps its state,
    /// and the touched tile and its phase-relevant neighbors are scheduled
    /// for recomputation.
    pub fn toggle_cell(&mut self, x: i64, y: i64)
        ensures
            final(self).wf() == old(self).wf(),
            final(self).generation == old(self).generation,
            final(self).rule_table == old(self).rule_table,
            final(self).other_tiles() == old(self).other_tiles(),
            writes_cell(*old(self), *final(self), x, y, None),
            old(self).active_set().subset_of(final(self).active_set()),
            ({
                let k = cell_key(
                    eff(x, !old(self).even_phase()),
                    eff(y, !old(self).even_phase()),
                );
                final(self).active_set() == (if old(self).even_phase() {
                    with_bwd_nbrs(old(self).active_set(), k)
                } else {
                    with_fwd_nbrs(old(self).active_set(), k)
                })
            }),
    {
        self.perform_cell_action(x, y, CellAction::Toggle);
    }
}

impl Default for Universe {
    /// A fresh universe under the most widely known rule of this family:
    /// births on 3 neighbors, survival on 2 or 3.
    fn default() -> (r: Universe)
        ensures
            r.wf(),
            r.births() == seq![3u32],
            r.survivals() == seq![2u32, 3u32],
            r.generation == 0,
            forall|x: i64, y: i64| !(#[trigger] r.cell_alive(x, y)),
            r.active_set() == empty_coords(),
            tmap_entries(r.p01) == empty_tiles(),
            tmap_entries(r.p10) == empty_tiles(),
    {
        let b: Vec<u32> = vec![3];
        let s: Vec<u32> = vec![2, 3];
        let r = Universe::new(b, s);
        proof {
            assert(r.births() =~= seq![3u32]);
            assert(r.survivals() =~= seq![2u32, 3u32]);
        }
        r
    }
}

/// The tile value computed for address `k` by a forward step over the tile
/// map `m` has exactly the per-cell next states of the block assembled from
/// `k` and its right, down and down-right neighbors.
pub open spec fn fwd_next_ok(
    m: Map<(i64, i64), u32>,
    k: (i64, i64),
    v: u32,
    births: Seq<u32>,
    survivals: Seq<u32>,
) -> bool {
    forall|x: int, y: int|
        0 <= x < 4 && 0 <= y < 8 ==> #[trigger] tile_bit(v, x, y) == step_bit_fwd(
            map_at(m, k),
            map_at(m, (k.0.wrapping_add(1), k.1)),
            map_at(m, (k.0, k.1.wrapping_add(1))),
            map_at(m, (k.0.wrapping_add(1), k.1.wrapping_add(1))),
            births,
            survivals,
            x,
            y,
        )
}

/// Whether a forward recomputation of the tile at `k` yields a value other
/// than the one stored there.
pub open spec fn fwd_changed(
    m: Map<(i64, i64), u32>,
    k: (i64, i64),
    births: Seq<u32>,
    survivals: Seq<u32>,
) -> bool {
    exists|x: int, y: int|
        0 <= x < 4 && 0 <= y < 8 && #[trigger] tile_bit(map_at(m, k), x, y) != step_bit_fwd(
            map_at(m, k),
            map_at(m, (k.0.wrapping_add(1), k.1)),
            map_at(m, (k.0, k.1.wrapping_add(1))),
            map_at(m, (k.0.wrapping_add(1), k.1.wrapping_add(1))),
            births,
            survivals,
            x,
            y,
        )
}

/// The addresses reactivated when the tile at `k` changed in a forward step.
pub open spec fn on_fwd_frontier(k: (i64, i64), e: (i64, i64)) -> bool {
    ||| e == k
    ||| e == (k.0.wrapping_add(1), k.1)
    ||| e == (k.0, k.1.wrapping_add(1))
    ||| e == (k.0.wrapping_add(1), k.1.wrapping_add(1))
}

/// The tile value computed for address `k` by a backward step over the tile
/// map `m` has exactly the per-cell next states of the block assembled from
/// `k` and its left, up and up-left neighbors.
pub open spec fn bwd_next_ok(
    m: Map<(i64, i64), u32>,
    k: (i64, i64),
    v: u32,
    births: Seq<u32>,
    survivals: Seq<u32>,
) -> bool {
    forall|x: int, y: int|
        0 <= x < 4 && 0 <= y < 8 ==> #[trigger] tile_bit(v, x, y) == step_bit_bwd(
            map_at(m, k),
            map_at(m, (k.0.wrapping_sub(1), k.1)),
            map_at(m, (k.0, k.1.wrapping_sub(1))),
            map_at(m, (k.0.wrapping_sub(1), k.1.wrapping_sub(1))),
            births,
            survivals,
            x,
            y,
        )
}

/// Whether a backward recomputation of the tile at `k` yields a value other
/// than the one stored there.
pub open spec fn bwd_changed(
    m: Map<(i64, i64), u32>,
    k: (i64, i64),
    births: Seq<u32>,
    survivals: Seq<u32>,
) -> bool {
    exists|x: int, y: int|
        0 <= x < 4 && 0 <= y < 8 && #[trigger] tile_bit(map_at(m, k), x, y) != step_bit_bwd(
            map_at(m, k),
            map_at(m, (k.0.wrapping_sub(1), k.1)),
            map_at(m, (k.0, k.1.wrapping_sub(1))),
            map_at(m, (k.0.wrapping_sub(1), k.1.wrapping_sub(1))),
            births,
            survivals,
            x,
            y,
        )
}

/// The addresses reactivated when the tile at `k` changed in a backward step.
pub open spec fn on_bwd_frontier(k: (i64, i64), e: (i64, i64)) -> bool {
    ||| e == k
    ||| e == (k.0.wrapping_sub(1), k.1)
    ||| e == (k.0, k.1.wrapping_sub(1))
    ||| e == (k.0.wrapping_sub(1), k.1.wrapping_sub(1))
}

/// Exactly what one forward step computes: the next map `ng` holds one
/// recomputed tile per scheduled address, and the next frontier `na` holds
/// precisely the changed addresses with their forward neighbors.
pub open spec fn fwd_step_ok(
    m: Map<(i64, i64), u32>,
    act: Set<(i64, i64)>,
    ng: Map<(i64, i64), u32>,
    na: Set<(i64, i64)>,
    births: Seq<u32>,
    survivals: Seq<u32>,
) -> bool {
    &&& forall|k: (i64, i64)| #[trigger] ng.contains_key(k) <==> act.contains(k)
    &&& forall|k: (i64, i64)| #[trigger]
        act.contains(k) ==> fwd_next_ok(m, k, ng[k], births, survivals)
    &&& forall|e: (i64, i64)| #[trigger]
        na.contains(e) <==> exists|k: (i64, i64)| #[trigger]
            act.contains(k) && fwd_changed(m, k, births, survivals) && on_fwd_frontier(k, e)
}

/// Exactly what one backward step computes.
pub open spec fn bwd_step_ok(
    m: Map<(i64, i64), u32>,
    act: Set<(i64, i64)>,
    ng: Map<(i64, i64), u32>,
    na: Set<(i64, i64)>,
    births: Seq<u32>,
    survivals: Seq<u32>,
) -> bool {
    &&& forall|k: (i64, i64)| #[trigger] ng.contains_key(k) <==> act.contains(k)
    &&& forall|k: (i64, i64)| #[trigger]
        act.contains(k) ==> bwd_next_ok(m, k, ng[k], births, survivals)
    &&& forall|e: (i64, i64)| #[trigger]
        na.contains(e) <==> exists|k: (i64, i64)| #[trigger]
            act.contains(k) && bwd_changed(m, k, births, survivals) && on_bwd_frontier(k, e)
}

/// The tile stored at `c`, with absent addresses read as all-dead.
fn tile_at(m: &TileMap, c: TCoord) -> (t: Tile)
    ensures
        t.0 == map_at(tmap_entries(*m), (c.0, c.1)),
{
    match m.get(c) {
        Some(t) => t,
        None => Tile(0),
    }
}

/// A recomputed tile value differs from the stored one exactly when some
/// cell's next state differs from its stored state (forward direction).
proof fn lemma_fwd_classify(
    m: Map<(i64, i64), u32>,
    k: (i64, i64),
    newv: u32,
    births: Seq<u32>,
    survivals: Seq<u32>,
)
    requires
        fwd_next_ok(m, k, newv, births, survivals),
    ensures
        (map_at(m, k) != newv) == fwd_changed(m, k, births, survivals),
{
    let oldv = map_at(m, k);
    if fwd_changed(m, k, births, survivals) {
        let (xw, yw) = choose|x: int, y: int|
            0 <= x < 4 && 0 <= y < 8 && #[trigger] tile_bit(map_at(m, k), x, y) != step_bit_fwd(
                map_at(m, k),
                map_at(m, (k.0.wrapping_add(1), k.1)),
                map_at(m, (k.0, k.1.wrapping_add(1))),
                map_at(m, (k.0.wrapping_add(1), k.1.wrapping_add(1))),
                births,
                survivals,
                x,
                y,
            );
        assert(tile_bit(oldv, xw, yw) != tile_bit(newv, xw, yw));
    } else {
        assert forall|x: int, y: int|
            0 <= x < 4 && 0 <= y < 8 implies #[trigger] tile_bit(oldv, x, y) == tile_bit(
            newv,
            x,
            y,
        ) by {
            assert(tile_bit(oldv, x, y) == step_bit_fwd(
                map_at(m, k),
                map_at(m, (k.0.wrapping_add(1), k.1)),
                map_at(m, (k.0, k.1.wrapping_add(1))),
                map_at(m, (k.0.wrapping_add(1), k.1.wrapping_add(1))),
                births,
                survivals,
                x,
                y,
            ));
        }
        lemma_tile_ext(oldv, newv);
    }
}

/// A recomputed tile value differs from the stored one exactly when some
/// cell's next state differs from its stored state (backward direction).
proof fn lemma_bwd_classify(
    m: Map<(i64, i64), u32>,
    k: (i64, i64),
    newv: u32,
    births: Seq<u32>,
    survivals: Seq<u32>,
)
    requires
        bwd_next_ok(m, k, newv, births, survivals),
    ensures
        (map_at(m, k) != newv) == bwd_changed(m, k, births, survivals),
{
    let oldv = map_at(m, k);
    if bwd_changed(m, k, births, survivals) {
        let (xw, yw) = choose|x: int, y: int|
            0 <= x < 4 && 0 <= y < 8 && #[trigger] tile_bit(map_at(m, k), x, y) != step_bit_bwd(
                map_at(m, k),
                map_at(m, (k.0.wrapping_sub(1), k.1)),
                map_at(m, (k.0, k.1.wrapping_sub(1))),
                map_at(m, (k.0.wrapping_sub(1), k.1.wrapping_sub(1))),
                births,
                survivals,
                x,
                y,
            );
        assert(tile_bit(oldv, xw, yw) != tile_bit(newv, xw, yw));
    } else {
        assert forall|x: int, y: int|
            0 <= x < 4 && 0 <= y < 8 implies #[trigger] tile_bit(oldv, x, y) == tile_bit(
            newv,
            x,
            y,
        ) by {
            assert(tile_bit(oldv, x, y) == step_bit_bwd(
                map_at(m, k),
                map_at(m, (k.0.wrapping_sub(1), k.1)),
                map_at(m, (k.0, k.1.wrapping_sub(1))),
                map_at(m, (k.0.wrapping_sub(1), k.1.wrapping_sub(1))),
                births,
                survivals,
                x,
                y,
            ));
        }
        lemma_tile_ext(oldv, newv);
    }
}

impl Universe {
    /// One forward phase step: recomputes every scheduled tile from the
    /// even-origin map and collects the changed addresses with their forward
    /// neighbors as the next frontier.
    #[verifier::rlimit(100)]
    fn p01_step(&self) -> (r: (TCoordSet, TileMap))
        requires
            self.wf(),
        ensures
            fwd_step_ok(
                tmap_entries(self.p01),
                tset_elems(self.active),
                tmap_entries(r.1),
                tset_elems(r.0),
                self.births(),
                self.survivals(),
            ),
    {
        let ghost m = tmap_entries(self.p01);
        let ghost bs = self.births();
        let ghost ss = self.survivals();
        let av = self.active.elems();
        let mut next_active = TCoordSet::new();
        let mut next_gen = TileMap::new();
        let mut i: usize = 0;
        while i < av.len()
            invariant
                self.wf(),
                m == tmap_entries(self.p01),
                bs == self.births(),
                ss == self.survivals(),
                i <= av@.len(),
                forall|a: int, b: int|
                    0 <= a < b < av@.len() ==> (#[trigger] av@[a].0, av@[a].1) != (
                    #[trigger] av@[b].0,
                    av@[b].1,
                    ),
                forall|a: int|
                    0 <= a < av@.len() ==> tset_elems(self.active).contains(
                        (#[trigger] av@[a].0, av@[a].1),
                    ),
                forall|k: (i64, i64)| #[trigger]
                    tset_elems(self.active).contains(k) ==> exists|a: int|
                        0 <= a < av@.len() && (#[trigger] av@[a].0, av@[a].1) == k,
                forall|k: (i64, i64)| #[trigger]
                    tmap_entries(next_gen).contains_key(k) <==> exists|a: int|
                        0 <= a < i && (#[trigger] av@[a].0, av@[a].1) == k,
                forall|a: int|
                    0 <= a < i ==> fwd_next_ok(
                        m,
                        (#[trigger] av@[a].0, av@[a].1),
                        map_at(tmap_entries(next_gen), (av@[a].0, av@[a].1)),
                        bs,
                        ss,
                    ),
                forall|e: (i64, i64)| #[trigger]
                    tset_elems(next_active).contains(e) <==> exists|a: int|
                        0 <= a < i && fwd_changed(m, (#[trigger] av@[a].0, av@[a].1), bs, ss)
                            && on_fwd_frontier((av@[a].0, av@[a].1), e),
            decreases av@.len() - i,
        {
            let coord = av[i];
            let right = coord.plus(TCoord(1, 0));
            let down = coord.plus(TCoord(0, 1));
            let downright = coord.plus(TCoord(1, 1));
            let tile = tile_at(&self.p01, coord);
            let tr = tile_at(&self.p01, right);
            let td = tile_at(&self.p01, down);
            let tdr = tile_at(&self.p01, downright);
            let new_tile = calc_fwd(&self.rule_table, tile, tr, td, tdr);
            let ghost k = (coord.0, coord.1);
            proof {
                assert(fwd_next_ok(m, k, new_tile.0, bs, ss));
                lemma_fwd_classify(m, k, new_tile.0, bs, ss);
            }
            next_gen.insert(coord, new_tile);
            if tile.0 != new_tile.0 {
                next_active.insert(coord);
                next_active.insert(right);
                next_active.insert(down);
                next_active.insert(downright);
            }
            i += 1;
        }
        (next_active, next_gen)
    }

    /// One backward phase step: recomputes every scheduled tile from the
    /// odd-origin map and collects the changed addresses with their backward
    /// neighbors as the next frontier.
    #[verifier::rlimit(100)]
    fn p10_step(&self) -> (r: (TCoordSet, TileMap))
        requires
            self.wf(),
        ensures
            bwd_step_ok(
                tmap_entries(self.p10),
                tset_elems(self.active),
                tmap_entries(r.1),
                tset_elems(r.0),
                self.births(),
                self.survivals(),
            ),
    {
        let ghost m = tmap_entries(self.p10);
        let ghost bs = self.births();
        let ghost ss = self.survivals();
        let av = self.active.elems();
        let mut next_active = TCoordSet::new();
        let mut next_gen = TileMap::new();
        let mut i: usize = 0;
        while i < av.len()
            invariant
                self.wf(),
                m == tmap_entries(self.p10),
                bs == self.births(),
                ss == self.survivals(),
                i <= av@.len(),
                forall|a: int, b: int|
                    0 <= a < b < av@.len() ==> (#[trigger] av@[a].0, av@[a].1) != (
                    #[trigger] av@[b].0,
                    av@[b].1,
                    ),
                forall|a: int|
                    0 <= a < av@.len() ==> tset_elems(self.active).contains(
                        (#[trigger] av@[a].0, av@[a].1),
                    ),
                forall|k: (i64, i64)| #[trigger]
                    tset_elems(self.active).contains(k) ==> exists|a: int|
                        0 <= a < av@.len() && (#[trigger] av@[a].0, av@[a].1) == k,
                forall|k: (i64, i64)| #[trigger]
                    tmap_entries(next_gen).contains_key(k) <==> exists|a: int|
                        0 <= a < i && (#[trigger] av@[a].0, av@[a].1) == k,
                forall|a: int|
                    0 <= a < i ==> bwd_next_ok(
                        m,
                        (#[trigger] av@[a].0, av@[a].1),
                        map_at(tmap_entries(next_gen), (av@[a].0, av@[a].1)),
                        bs,
                        ss,
                    ),
                forall|e: (i64, i64)| #[trigger]
                    tset_elems(next_active).contains(e) <==> exists|a: int|
                        0 <= a < i && bwd_changed(m, (#[trigger] av@[a].0, av@[a].1), bs, ss)
                            && on_bwd_frontier((av@[a].0, av@[a].1), e),
            decreases av@.len() - i,
        {
            let coord = av[i];
            let left = coord.minus(TCoord(1, 0));
            let up = coord.minus(TCoord(0, 1));
            let upleft = coord.minus(TCoord(1, 1));
            let tile = tile_at(&self.p10, coord);
            let tl = tile_at(&self.p10, left);
            let tu = tile_at(&self.p10, up);
            let tul = tile_at(&self.p10, upleft);
            let new_tile = calc_bwd(&self.rule_table, tile, tl, tu, tul);
            let ghost k = (coord.0, coord.1);
            proof {
                assert(bwd_next_ok(m, k, new_tile.0, bs, ss));
                lemma_bwd_classify(m, k, new_tile.0, bs, ss);
            }
            next_gen.insert(coord, new_tile);
            if tile.0 != new_tile.0 {
                next_active.insert(coord);
                next_active.insert(left);
                next_active.insert(up);
                next_active.insert(upleft);
            }
            i += 1;
        }
        (next_active, next_gen)
    }

    /// The even-phase composite lookup for one tile: computes, by eight
    /// table lookups, the tile one cell right of and below `tile` in the
    /// next generation.  Every bit of the result equals per-cell neighbor
    /// counting over the 8x16 block assembled from the four tiles.
    pub fn p01_calc(&self, tile: Tile, right: Tile, down: Tile, downright: Tile) -> (res: Tile)
        requires
            self.wf(),
        ensures
            forall|x: int, y: int|
                0 <= x < 4 && 0 <= y < 8 ==> #[trigger] tile_bit(res.0, x, y) == step_bit_fwd(
                    tile.0,
                    right.0,
                    down.0,
                    downright.0,
                    self.births(),
                    self.survivals(),
                    x,
                    y,
                ),
    {
        calc_fwd(&self.rule_table, tile, right, down, downright)
    }

    /// The odd-phase composite lookup for one tile: computes, by eight table
    /// lookups, the tile one cell left of and above `tile` in the next
    /// generation.  Every bit of the result equals per-cell neighbor
    /// counting over the 8x16 block assembled from the four tiles.
    pub fn p10_calc(&self, tile: Tile, left: Tile, up: Tile, upleft: Tile) -> (res: Tile)
        requires
            self.wf(),
        ensures
            forall|x: int, y: int|
                0 <= x < 4 && 0 <= y < 8 ==> #[trigger] tile_bit(res.0, x, y) == step_bit_bwd(
                    tile.0,
                    left.0,
                    up.0,
                    upleft.0,
                    self.births(),
                    self.survivals(),
                    x,
                    y,
                ),
    {
        calc_bwd(&self.rule_table, tile, left, up, upleft)
    }

    /// Advances the simulation by exactly one generation: every scheduled
    /// tile is recomputed from the current phase's map into the other
    /// phase's map, the frontier is replaced by the changed addresses and
    /// their neighbors, and the generation counter increments, flipping the
    /// current phase.
    pub fn step(&mut self)
        requires
            old(self).wf(),
            old(self).generation < u64::MAX,
        ensures
            final(self).wf(),
            final(self).rule_table == old(self).rule_table,
            final(self).births() == old(self).births(),
            final(self).survivals() == old(self).survivals(),
            final(self).generation == old(self).generation + 1,
            final(self).other_tiles() == old(self).cur_tiles(),
            (if old(self).even_phase() {
                fwd_step_ok(
                    old(self).cur_tiles(),
                    old(self).active_set(),
                    final(self).cur_tiles(),
                    final(self).active_set(),
                    old(self).births(),
                    old(self).survivals(),
                )
            } else {
                bwd_step_ok(
                    old(self).cur_tiles(),
                    old(self).active_set(),
                    final(self).cur_tiles(),
                    final(self).active_set(),
                    old(self).births(),
                    old(self).survivals(),
                )
            }),
    {
        let even = self.generation % 2 == 0;
        if even {
            let (next_active, next_gen) = self.p01_step();
            self.active = next_active;
            self.p10 = next_gen;
        } else {
            let (next_active, next_gen) = self.p10_step();
            self.active = next_active;
            self.p01 = next_gen;
        }
        self.generation = self.generation + 1;
    }
}

/// Whether `p` is a live cell decoded from the stored tile at index `a` of
/// the entry list `es`, under the generation-parity offset `odd`.
pub open spec fn entry_live_cell(
    es: Seq<(TCoord, Tile)>,
    a: int,
    p: (i64, i64),
    odd: bool,
) -> bool {
    &&& 0 <= a < es.len()
    &&& in_key_range((es[a].0.0, es[a].0.1))
    &&& exists|tx: int, ty: int|
        0 <= tx < 4 && 0 <= ty < 8 && #[trigger] tile_bit(es[a].1.0, tx, ty) && p == decode_cell(
            (es[a].0.0, es[a].0.1),
            tx,
            ty,
            odd,
        )
}

impl Universe {
    /// The absolute coordinates of every live cell of the current
    /// generation, each exactly once, in an order left open.
    pub fn live_cells(&self) -> (r: Vec<(i64, i64)>)
        ensures
            forall|p: (i64, i64)| #[trigger] r@.contains(p) <==> self.cell_alive(p.0, p.1),
            r@.no_duplicates(),
    {
        let odd = self.generation % 2 == 1;
        let es = if odd {
            self.p10.entries()
        } else {
            self.p01.entries()
        };
        let ghost m = self.cur_tiles();
        let mut r: Vec<(i64, i64)> = Vec::new();
        let mut e: usize = 0;
        while e < es.len()
            invariant
                m == self.cur_tiles(),
                odd == !self.even_phase(),
                e <= es@.len(),
                forall|a: int, b: int|
                    0 <= a < b < es@.len() ==> (#[trigger] es@[a].0.0, es@[a].0.1) != (
                    #[trigger] es@[b].0.0,
                    es@[b].0.1,
                    ),
                forall|a: int|
                    0 <= a < es@.len() ==> m.contains_key((#[trigger] es@[a].0.0, es@[a].0.1))
                        && m[(es@[a].0.0, es@[a].0.1)] == es@[a].1.0,
                forall|k: (i64, i64)| #[trigger]
                    m.contains_key(k) ==> exists|a: int|
                        0 <= a < es@.len() && (#[trigger] es@[a].0.0, es@[a].0.1) == k,
                r@.no_duplicates(),
                forall|p: (i64, i64)| #[trigger]
                    r@.contains(p) <==> exists|a: int| 0 <= a < e && entry_live_cell(es@, a, p, odd),
            decreases es@.len() - e,
        {
            let coord = es[e].0;
            let v = es[e].1.0;
            if coord.0 >= -0x2000_0000_0000_0000 && coord.0 <= 0x1fff_ffff_ffff_ffff && coord.1
                >= -0x1000_0000_0000_0000 && coord.1 <= 0x0fff_ffff_ffff_ffff {
                let mut n: u32 = 0;
                while n < 32
                    invariant
                        n <= 32,
                        coord == es@[e as int].0,
                        v == es@[e as int].1.0,
                        e < es@.len(),
                        in_key_range((coord.0, coord.1)),
                        odd == !self.even_phase(),
                        forall|a: int, b: int|
                            0 <= a < b < es@.len() ==> (#[trigger] es@[a].0.0, es@[a].0.1) != (
                            #[trigger] es@[b].0.0,
                            es@[b].0.1,
                            ),
                        r@.no_duplicates(),
                        forall|p: (i64, i64)| #[trigger]
                            r@.contains(p) <==> (exists|a: int|
                                0 <= a < e && entry_live_cell(es@, a, p, odd)) || (exists|j: int|
                                0 <= j < n && #[trigger] tile_bit(v, j % 4, j / 4) && p
                                    == decode_cell((coord.0, coord.1), j % 4, j / 4, odd)),
                    decreases 32 - n,
                {
                    let tx = n % 4;
                    let ty = n / 4;
                    if (v >> (31 - 4 * ty - tx)) & 1 == 1 {
                        let x0: i64 = 4 * coord.0 + (tx as i64);
                        let y0: i64 = 8 * coord.1 + (ty as i64);
                        let p: (i64, i64) = if odd {
                            (x0.wrapping_add(1), y0.wrapping_add(1))
                        } else {
                            (x0, y0)
                        };
                        proof {
                            assert(tile_bit(v, tx as int, ty as int));
                            assert(p == decode_cell((coord.0, coord.1), tx as int, ty as int, odd));
                            lemma_decode_addr((coord.0, coord.1), tx as int, ty as int, odd);
                            // p is new: any earlier occurrence would decode the
                            // same address, which pins entry and offset.
                            assert(!r@.contains(p)) by {
                                if r@.contains(p) {
                                    if exists|a: int|
                                        0 <= a < e && entry_live_cell(es@, a, p, odd) {
                                        let a = choose|a: int|
                                            0 <= a < e && entry_live_cell(es@, a, p, odd);
                                        let (txa, tya) = choose|txa: int, tya: int|
                                            0 <= txa < 4 && 0 <= tya < 8 && #[trigger] tile_bit(
                                                es@[a].1.0,
                                                txa,
                                                tya,
                                            ) && p == decode_cell(
                                                (es@[a].0.0, es@[a].0.1),
                                                txa,
                                                tya,
                                                odd,
                                            );
                                        lemma_decode_addr((es@[a].0.0, es@[a].0.1), txa, tya, odd);
                                        assert((es@[a].0.0, es@[a].0.1) == (coord.0, coord.1));
                                    } else {
                                        let j = choose|j: int|
                                            0 <= j < n && #[trigger] tile_bit(v, j % 4, j / 4) && p
                                                == decode_cell(
                                                (coord.0, coord.1),
                                                j % 4,
                                                j / 4,
                                                odd,
                                            );
                                        lemma_decode_addr((coord.0, coord.1), j % 4, j / 4, odd);
                                        assert(j % 4 == tx as int && j / 4 == ty as int);
                                        vstd::arithmetic::div_mod::lemma_fundamental_div_mod(j, 4);
                                        assert(j == n);
                                    }
                                }
                            }
                        }
                        let ghost r0 = r@;
                        r.push(p);
                        proof {
                            assert(r@ =~= r0.push(p));
                            assert forall|p2: (i64, i64)| #[trigger]
                                r@.contains(p2) <==> (exists|a: int|
                                0 <= a < e && entry_live_cell(es@, a, p2, odd)) || (exists|j: int|
                                0 <= j < n + 1 && #[trigger] tile_bit(v, j % 4, j / 4) && p2
                                    == decode_cell(
                                    (coord.0, coord.1),
                                    j % 4,
                                    j / 4,
                                    odd,
                                )) by {
                                if p2 == p {
                                    assert(r@[r@.len() - 1] == p);
                                    assert(r@.contains(p));
                                    assert(tile_bit(v, (n as int) % 4, (n as int) / 4) && p
                                        == decode_cell(
                                        (coord.0, coord.1),
                                        (n as int) % 4,
                                        (n as int) / 4,
                                        odd,
                                    ));
                                } else {
                                    assert(r@.contains(p2) == r0.contains(p2)) by {
                                        if r0.contains(p2) {
                                            let idx = choose|idx: int|
                                                0 <= idx < r0.len() && r0[idx] == p2;
                                            assert(r@[idx] == p2);
                                        }
                                        if r@.contains(p2) {
                                            let idx = choose|idx: int|
                                                0 <= idx < r@.len() && r@[idx] == p2;
                                            assert(idx < r@.len() - 1);
                                            assert(r0[idx] == p2);
                                        }
                                    }
                                    assert forall|j: int|
                                        0 <= j < n + 1 && #[trigger] tile_bit(v, j % 4, j / 4) && p2
                                            == decode_cell(
                                            (coord.0, coord.1),
                                            j % 4,
                                            j / 4,
                                            odd,
                                        ) implies j < n by {
                                        if j == n {
                                            assert(p2 == p);
                                        }
                                    }
                                }
                            }
                        }
                    } else {
                        proof {
                            assert(!tile_bit(v, (n as int) % 4, (n as int) / 4));
                            assert forall|j: int|
                                0 <= j < n + 1 && #[trigger] tile_bit(v, j % 4, j / 4) implies j < n
                            by {}
                        }
                    }
                    n += 1;
                }
                proof {
                    // All 32 offsets processed: the per-bit description is the
                    // whole entry's contribution.
                    assert forall|p: (i64, i64)| #[trigger]
                        r@.contains(p) <==> exists|a: int|
                        0 <= a < e + 1 && entry_live_cell(es@, a, p, odd) by {
                        if exists|j: int|
                            0 <= j < 32 && #[trigger] tile_bit(v, j % 4, j / 4) && p == decode_cell(
                                (coord.0, coord.1),
                                j % 4,
                                j / 4,
                                odd,
                            ) {
                            let j = choose|j: int|
                                0 <= j < 32 && #[trigger] tile_bit(v, j % 4, j / 4) && p
                                    == decode_cell((coord.0, coord.1), j % 4, j / 4, odd);
                            vstd::arithmetic::div_mod::lemma_fundamental_div_mod(j, 4);
                            assert(entry_live_cell(es@, e as int, p, odd));
                        }
                        if entry_live_cell(es@, e as int, p, odd) {
                            let (tx, ty) = choose|tx: int, ty: int|
                                0 <= tx < 4 && 0 <= ty < 8 && #[trigger] tile_bit(v, tx, ty) && p
                                    == decode_cell((coord.0, coord.1), tx, ty, odd);
                            let j = 4 * ty + tx;
                            vstd::arithmetic::div_mod::lemma_fundamental_div_mod_converse_div(
                                j,
                                4,
                                ty,
                                tx,
                            );
                            vstd::arithmetic::div_mod::lemma_fundamental_div_mod_converse_mod(
                                j,
                                4,
                                ty,
                                tx,
                            );
                            assert(0 <= j < 32 && tile_bit(v, j % 4, j / 4) && p == decode_cell(
                                (coord.0, coord.1),
                                j % 4,
                                j / 4,
                                odd,
                            ));
                        }
                    }
                }
            } else {
                proof {
                    // A tile out of the representable range holds no cell.
                    assert forall|p: (i64, i64)| #[trigger]
                        r@.contains(p) <==> exists|a: int|
                        0 <= a < e + 1 && entry_live_cell(es@, a, p, odd) by {
                        assert(!entry_live_cell(es@, e as int, p, odd));
                    }
                }
            }
            e += 1;
        }
        proof {
            lemma_zero_tile();
            assert forall|p: (i64, i64)| #[trigger] r@.contains(p) <==> self.cell_alive(
                p.0,
                p.1,
            ) by {
                if r@.contains(p) {
                    let a = choose|a: int| 0 <= a < es@.len() && entry_live_cell(es@, a, p, odd);
                    let (tx, ty) = choose|tx: int, ty: int|
                        0 <= tx < 4 && 0 <= ty < 8 && #[trigger] tile_bit(es@[a].1.0, tx, ty) && p
                            == decode_cell((es@[a].0.0, es@[a].0.1), tx, ty, odd);
                    lemma_decode_addr((es@[a].0.0, es@[a].0.1), tx, ty, odd);
                }
                if self.cell_alive(p.0, p.1) {
                    let xe = eff(p.0, odd);
                    let ye = eff(p.1, odd);
                    let k = cell_key(xe, ye);
                    lemma_addr_decode(p.0, p.1, odd);
                    assert(m.contains_key(k));
                    let a = choose|a: int|
                        0 <= a < es@.len() && (#[trigger] es@[a].0.0, es@[a].0.1) == k;
                    assert(entry_live_cell(es@, a, p, odd)) by {
                        assert(tile_bit(es@[a].1.0, tmod4(xe), tmod8(ye)));
                        assert(p == decode_cell(k, tmod4(xe), tmod8(ye), odd));
                    }
                }
            }
        }
        r
    }

    /// Replaces the rule, rebuilding the lookup table, and schedules every
    /// populated tile together with its phase-relevant neighbors for
    /// recomputation, since a rule change can alter the fate of cells the
    /// previous rule considered stable.
    pub fn set_rules(&mut self, b: Vec<u32>, s: Vec<u32>)
        requires
            forall|i: int| 0 <= i < b@.len() ==> b@[i] <= 8,
            forall|i: int| 0 <= i < s@.len() ==> s@[i] <= 8,
        ensures
            final(self).wf(),
            final(self).births() == b@,
            final(self).survivals() == s@,
            final(self).generation == old(self).generation,
            final(self).cur_tiles() == old(self).cur_tiles(),
            final(self).other_tiles() == old(self).other_tiles(),
            forall|x: i64, y: i64|
                #[trigger] final(self).cell_alive(x, y) == old(self).cell_alive(x, y),
            forall|e: (i64, i64)| #[trigger]
                final(self).active_set().contains(e) <==> old(self).active_set().contains(e) || (
                exists|k: (i64, i64)| #[trigger]
                    old(self).cur_tiles().contains_key(k) && (if old(self).even_phase() {
                        on_bwd_frontier(k, e)
                    } else {
                        on_fwd_frontier(k, e)
                    })),
    {
        self.rule_table = RuleTable::new(b, s);
        let even = self.generation % 2 == 0;
        let ghost m = self.cur_tiles();
        let ghost act0 = self.active_set();
        let kv = if even {
            self.p01.keys()
        } else {
            self.p10.keys()
        };
        let mut i: usize = 0;
        while i < kv.len()
            invariant
                m == self.cur_tiles(),
                even == self.even_phase(),
                i <= kv@.len(),
                self.wf(),
                self.births() == b@,
                self.survivals() == s@,
                self.generation == old(self).generation,
                tmap_entries(self.p01) == tmap_entries(old(self).p01),
                tmap_entries(self.p10) == tmap_entries(old(self).p10),
                self.rule_table.births@ == b@,
                self.rule_table.survivals@ == s@,
                forall|a: int|
                    0 <= a < kv@.len() ==> m.contains_key((#[trigger] kv@[a].0, kv@[a].1)),
                forall|k: (i64, i64)| #[trigger]
                    m.contains_key(k) ==> exists|a: int|
                        0 <= a < kv@.len() && (#[trigger] kv@[a].0, kv@[a].1) == k,
                forall|e: (i64, i64)| #[trigger]
                    tset_elems(self.active).contains(e) <==> act0.contains(e) || (exists|a: int|
                        0 <= a < i && (if even {
                            on_bwd_frontier((#[trigger] kv@[a].0, kv@[a].1), e)
                        } else {
                            on_fwd_frontier((kv@[a].0, kv@[a].1), e)
                        })),
            decreases kv@.len() - i,
        {
            let coord = kv[i];
            let ghost before = tset_elems(self.active);
            self.active.insert(coord);
            if even {
                self.active.insert(coord.minus(TCoord(1, 1)));
                self.active.insert(coord.minus(TCoord(1, 0)));
                self.active.insert(coord.minus(TCoord(0, 1)));
            } else {
                self.active.insert(coord.plus(TCoord(1, 1)));
                self.active.insert(coord.plus(TCoord(1, 0)));
                self.active.insert(coord.plus(TCoord(0, 1)));
            }
            proof {
                let ki = (kv@[i as int].0, kv@[i as int].1);
                assert forall|e: (i64, i64)| #[trigger]
                    tset_elems(self.active).contains(e) <==> act0.contains(e) || (exists|a: int|
                        0 <= a < i + 1 && (if even {
                            on_bwd_frontier((#[trigger] kv@[a].0, kv@[a].1), e)
                        } else {
                            on_fwd_frontier((kv@[a].0, kv@[a].1), e)
                        })) by {
                    if tset_elems(self.active).contains(e) {
                        if before.contains(e) {
                            if !act0.contains(e) {
                                let a = choose|a: int|
                                    0 <= a < i && (if even {
                                        on_bwd_frontier((#[trigger] kv@[a].0, kv@[a].1), e)
                                    } else {
                                        on_fwd_frontier((kv@[a].0, kv@[a].1), e)
                                    });
                                assert(0 <= a < i + 1 && (if even {
                                    on_bwd_frontier((kv@[a].0, kv@[a].1), e)
                                } else {
                                    on_fwd_frontier((kv@[a].0, kv@[a].1), e)
                                }));
                            }
                        } else {
                            assert(if even {
                                on_bwd_frontier(ki, e)
                            } else {
                                on_fwd_frontier(ki, e)
                            });
                            assert(0 <= i < i + 1 && (if even {
                                on_bwd_frontier((kv@[i as int].0, kv@[i as int].1), e)
                            } else {
                                on_fwd_frontier((kv@[i as int].0, kv@[i as int].1), e)
                            }));
                        }
                    }
                    if act0.contains(e) {
                        assert(before.contains(e));
                        assert(tset_elems(self.active).contains(e));
                    }
                    if exists|a: int|
                        0 <= a < i + 1 && (if even {
                            on_bwd_frontier((#[trigger] kv@[a].0, kv@[a].1), e)
                        } else {
                            on_fwd_frontier((kv@[a].0, kv@[a].1), e)
                        }) {
                        let a = choose|a: int|
                            0 <= a < i + 1 && (if even {
                                on_bwd_frontier((#[trigger] kv@[a].0, kv@[a].1), e)
                            } else {
                                on_fwd_frontier((kv@[a].0, kv@[a].1), e)
                            });
                        if a < i {
                            assert(before.contains(e));
                        } else {
                            assert((kv@[a].0, kv@[a].1) == ki);
                        }
                        assert(tset_elems(self.active).contains(e));
                    }
                }
            }
            i += 1;
        }
        proof {
            assert(m == old(self).cur_tiles());
            assert(act0 == old(self).active_set());
            assert(even == old(self).even_phase());
            assert forall|e: (i64, i64)| #[trigger]
                tset_elems(self.active).contains(e) <==> act0.contains(e) || (exists|k: (i64, i64)|
                #[trigger] m.contains_key(k) && (if even {
                    on_bwd_frontier(k, e)
                } else {
                    on_fwd_frontier(k, e)
                })) by {
                if tset_elems(self.active).contains(e) && !act0.contains(e) {
                    let a = choose|a: int|
                        0 <= a < kv@.len() && (if even {
                            on_bwd_frontier((#[trigger] kv@[a].0, kv@[a].1), e)
                        } else {
                            on_fwd_frontier((kv@[a].0, kv@[a].1), e)
                        });
                    assert(m.contains_key((kv@[a].0, kv@[a].1)) && (if even {
                        on_bwd_frontier((kv@[a].0, kv@[a].1), e)
                    } else {
                        on_fwd_frontier((kv@[a].0, kv@[a].1), e)
                    }));
                }
                if exists|k: (i64, i64)| #[trigger]
                    m.contains_key(k) && (if even {
                        on_bwd_frontier(k, e)
                    } else {
                        on_fwd_frontier(k, e)
                    }) {
                    let k = choose|k: (i64, i64)| #[trigger]
                        m.contains_key(k) && (if even {
                            on_bwd_frontier(k, e)
                        } else {
                            on_fwd_frontier(k, e)
                        });
                    let a = choose|a: int|
                        0 <= a < kv@.len() && (#[trigger] kv@[a].0, kv@[a].1) == k;
                    assert(tset_elems(self.active).contains(e));
                }
            }
            assert forall|e: (i64, i64)| #[trigger]
                self.active_set().contains(e) <==> old(self).active_set().contains(e) || (exists|
                k: (i64, i64),
            | #[trigger]
                old(self).cur_tiles().contains_key(k) && (if old(self).even_phase() {
                    on_bwd_frontier(k, e)
                } else {
                    on_fwd_frontier(k, e)
                })) by {
                assert(self.active_set() == tset_elems(self.active));
                if exists|k: (i64, i64)| #[trigger]
                    m.contains_key(k) && (if even {
                        on_bwd_frontier(k, e)
                    } else {
                        on_fwd_frontier(k, e)
                    }) {
                    let k = choose|k: (i64, i64)| #[trigger]
                        m.contains_key(k) && (if even {
                            on_bwd_frontier(k, e)
                        } else {
                            on_fwd_frontier(k, e)
                        });
                    assert(old(self).cur_tiles().contains_key(k) && (if old(self).even_phase() {
                        on_bwd_frontier(k, e)
                    } else {
                        on_fwd_frontier(k, e)
                    }));
                }
                if exists|k: (i64, i64)| #[trigger]
                    old(self).cur_tiles().contains_key(k) && (if old(self).even_phase() {
                        on_bwd_frontier(k, e)
                    } else {
                        on_fwd_frontier(k, e)
                    }) {
                    let k = choose|k: (i64, i64)| #[trigger]
                        old(self).cur_tiles().contains_key(k) && (if old(self).even_phase() {
                            on_bwd_frontier(k, e)
                        } else {
                            on_fwd_frontier(k, e)
                        });
                    assert(m.contains_key(k) && (if even {
                        on_bwd_frontier(k, e)
                    } else {
                        on_fwd_frontier(k, e)
                    }));
                }
            }
        }
    }
}

/// How many of the eight neighbors of cell `(x, y)` are alive.
pub open spec fn live_neighbors(u: Universe, x: i64, y: i64) -> nat {
    cell_count(u.cell_alive(x.wrapping_sub(1), y.wrapping_sub(1))) + cell_count(
        u.cell_alive(x, y.wrapping_sub(1)),
    ) + cell_count(u.cell_alive(x.wrapping_add(1), y.wrapping_sub(1))) + cell_count(
        u.cell_alive(x.wrapping_sub(1), y),
    ) + cell_count(u.cell_alive(x.wrapping_add(1), y)) + cell_count(
        u.cell_alive(x.wrapping_sub(1), y.wrapping_add(1)),
    ) + cell_count(u.cell_alive(x, y.wrapping_add(1))) + cell_count(
        u.cell_alive(x.wrapping_add(1), y.wrapping_add(1)),
    )
}

/// The 8x16 block a step assembles for the tile at `k` shows exactly the
/// cells of the source map around that tile.  `k` is the address of the
/// block's top-left tile; `t`, `r`, `d`, `dr` are the stored tiles of the
/// block's four quadrants.
proof fn lemma_block_shows_map(
    m: Map<(i64, i64), u32>,
    k: (i64, i64),
    t: u32,
    r: u32,
    d: u32,
    dr: u32,
)
    requires
        -0x2000_0000_0000_0000 <= k.0 < 0x1fff_ffff_ffff_fffe,
        -0x1000_0000_0000_0000 <= k.1 < 0x0fff_ffff_ffff_fffe,
        t == map_at(m, k),
        r == map_at(m, ((k.0 + 1) as i64, k.1)),
        d == map_at(m, (k.0, (k.1 + 1) as i64)),
        dr == map_at(m, ((k.0 + 1) as i64, (k.1 + 1) as i64)),
    ensures
        forall|bx: int, by: int|
            0 <= bx < 8 && 0 <= by < 16 ==> #[trigger] block_cell(t, r, d, dr, bx, by) == alive_in(
                m,
                (4 * k.0 + bx) as i64,
                (8 * k.1 + by) as i64,
            ),
{
    assert forall|bx: int, by: int| 0 <= bx < 8 && 0 <= by < 16 implies #[trigger] block_cell(
        t,
        r,
        d,
        dr,
        bx,
        by,
    ) == alive_in(m, (4 * k.0 + bx) as i64, (8 * k.1 + by) as i64) by {
        let cx = (4 * k.0 + bx) as i64;
        let cy = (8 * k.1 + by) as i64;
        let kx: i64 = if bx < 4 {
            k.0
        } else {
            (k.0 + 1) as i64
        };
        let ky: i64 = if by < 8 {
            k.1
        } else {
            (k.1 + 1) as i64
        };
        let ox: int = if bx < 4 {
            bx
        } else {
            bx - 4
        };
        let oy: int = if by < 8 {
            by
        } else {
            by - 8
        };
        lemma_fundamental_div_mod_converse_div(cx as int, 4, kx as int, ox);
        lemma_fundamental_div_mod_converse_mod(cx as int, 4, kx as int, ox);
        lemma_fundamental_div_mod_converse_div(cy as int, 8, ky as int, oy);
        lemma_fundamental_div_mod_converse_mod(cy as int, 8, ky as int, oy);
        assert(cell_key(cx, cy) == (kx, ky));
        assert(tmod4(cx) == ox && tmod8(cy) == oy);
    }
}

/// For a cell away from the far ends of the coordinate space whose tile is
/// on the frontier, one step resolves the cell exactly by the per-cell rule:
/// it is alive afterwards precisely when its live-neighbor count is in the
/// rule's birth set (if it was dead) or survival set (if it was alive).
/// `pre` and `post` are a universe before and after one `step` call, tied
/// together by the step's own contract.
pub proof fn lemma_step_cell_rule(pre: Universe, post: Universe, x: i64, y: i64)
    requires
        post.generation == pre.generation + 1,
        (if pre.even_phase() {
            fwd_step_ok(
                pre.cur_tiles(),
                pre.active_set(),
                post.cur_tiles(),
                post.active_set(),
                pre.births(),
                pre.survivals(),
            )
        } else {
            bwd_step_ok(
                pre.cur_tiles(),
                pre.active_set(),
                post.cur_tiles(),
                post.active_set(),
                pre.births(),
                pre.survivals(),
            )
        }),
        pre.active_set().contains(
            cell_key(eff(x, pre.even_phase()), eff(y, pre.even_phase())),
        ),
        i64::MIN + 16 < x < i64::MAX - 16,
        i64::MIN + 16 < y < i64::MAX - 16,
    ensures
        post.cell_alive(x, y) == next_state(
            pre.cell_alive(x, y),
            live_neighbors(pre, x, y),
            pre.births(),
            pre.survivals(),
        ),
{
    let m = pre.cur_tiles();
    let bs = pre.births();
    let ss = pre.survivals();
    let ng = post.cur_tiles();
    assert(post.even_phase() == !pre.even_phase());
    if pre.even_phase() {
        // The scheduled tile is addressed in the next (odd) phase; its block
        // sits one cell up and left of the produced tile's cells.
        let xe = eff(x, true);
        let ye = eff(y, true);
        assert(xe == x - 1 && ye == y - 1);
        let k = cell_key(xe, ye);
        let tx = tmod4(xe);
        let ty = tmod8(ye);
        lemma_fundamental_div_mod(xe as int, 4);
        lemma_fundamental_div_mod(ye as int, 8);
        assert(4 * (k.0 as int) + tx == xe && 8 * (k.1 as int) + ty == ye);
        let t = map_at(m, k);
        let r = map_at(m, (k.0.wrapping_add(1), k.1));
        let d = map_at(m, (k.0, k.1.wrapping_add(1)));
        let dr = map_at(m, (k.0.wrapping_add(1), k.1.wrapping_add(1)));
        assert(k.0.wrapping_add(1) == k.0 + 1 && k.1.wrapping_add(1) == k.1 + 1);
        assert(ng.contains_key(k));
        assert(fwd_next_ok(m, k, ng[k], bs, ss));
        assert(post.cell_alive(x, y) == tile_bit(ng[k], tx, ty));
        assert(tile_bit(ng[k], tx, ty) == step_bit_fwd(t, r, d, dr, bs, ss, tx, ty));
        lemma_block_shows_map(m, k, t, r, d, dr);
        // Every cell of the block is a cell of the even phase around (x, y).
        let xm = x.wrapping_sub(1);
        let xp = x.wrapping_add(1);
        let ym = y.wrapping_sub(1);
        let yp = y.wrapping_add(1);
        assert(xm == x - 1 && xp == x + 1 && ym == y - 1 && yp == y + 1);
        assert(block_cell(t, r, d, dr, tx + 0, ty + 0) == pre.cell_alive(xm, ym)) by {
            assert((4 * k.0 + (tx + 0)) as i64 == xm);
            assert((8 * k.1 + (ty + 0)) as i64 == ym);
        }
        assert(block_cell(t, r, d, dr, tx + 1, ty + 0) == pre.cell_alive(x, ym)) by {
            assert((4 * k.0 + (tx + 1)) as i64 == x);
            assert((8 * k.1 + (ty + 0)) as i64 == ym);
        }
        assert(block_cell(t, r, d, dr, tx + 2, ty + 0) == pre.cell_alive(xp, ym)) by {
            assert((4 * k.0 + (tx + 2)) as i64 == xp);
            assert((8 * k.1 + (ty + 0)) as i64 == ym);
        }
        assert(block_cell(t, r, d, dr, tx + 0, ty + 1) == pre.cell_alive(xm, y)) by {
            assert((4 * k.0 + (tx + 0)) as i64 == xm);
            assert((8 * k.1 + (ty + 1)) as i64 == y);
        }
        assert(block_cell(t, r, d, dr, tx + 1, ty + 1) == pre.cell_alive(x, y)) by {
            assert((4 * k.0 + (tx + 1)) as i64 == x);
            assert((8 * k.1 + (ty + 1)) as i64 == y);
        }
        assert(block_cell(t, r, d, dr, tx + 2, ty + 1) == pre.cell_alive(xp, y)) by {
            assert((4 * k.0 + (tx + 2)) as i64 == xp);
            assert((8 * k.1 + (ty + 1)) as i64 == y);
        }
        assert(block_cell(t, r, d, dr, tx + 0, ty + 2) == pre.cell_alive(xm, yp)) by {
            assert((4 * k.0 + (tx + 0)) as i64 == xm);
            assert((8 * k.1 + (ty + 2)) as i64 == yp);
        }
        assert(block_cell(t, r, d, dr, tx + 1, ty + 2) == pre.cell_alive(x, yp)) by {
            assert((4 * k.0 + (tx + 1)) as i64 == x);
            assert((8 * k.1 + (ty + 2)) as i64 == yp);
        }
        assert(block_cell(t, r, d, dr, tx + 2, ty + 2) == pre.cell_alive(xp, yp)) by {
            assert((4 * k.0 + (tx + 2)) as i64 == xp);
            assert((8 * k.1 + (ty + 2)) as i64 == yp);
        }
        assert(block_neighbors(t, r, d, dr, tx + 1, ty + 1) == live_neighbors(pre, x, y));
        assert(block_cell(t, r, d, dr, tx + 1, ty + 1) == pre.cell_alive(x, y));
    } else {
        // The scheduled tile is addressed in the next (even) phase; its
        // block sits one cell down and right of the produced tile's cells.
        let k = cell_key(x, y);
        let tx = tmod4(x);
        let ty = tmod8(y);
        lemma_fundamental_div_mod(x as int, 4);
        lemma_fundamental_div_mod(y as int, 8);
        assert(4 * (k.0 as int) + tx == x && 8 * (k.1 as int) + ty == y);
        let t = map_at(m, k);
        let l = map_at(m, (k.0.wrapping_sub(1), k.1));
        let u = map_at(m, (k.0, k.1.wrapping_sub(1)));
        let ul = map_at(m, (k.0.wrapping_sub(1), k.1.wrapping_sub(1)));
        assert(k.0.wrapping_sub(1) == k.0 - 1 && k.1.wrapping_sub(1) == k.1 - 1);
        assert(ng.contains_key(k));
        assert(bwd_next_ok(m, k, ng[k], bs, ss));
        assert(post.cell_alive(x, y) == tile_bit(ng[k], tx, ty));
        assert(tile_bit(ng[k], tx, ty) == step_bit_bwd(t, l, u, ul, bs, ss, tx, ty));
        let bk = ((k.0 - 1) as i64, (k.1 - 1) as i64);
        lemma_block_shows_map(m, bk, ul, u, l, t);
        // Every cell of the block is a cell of the odd phase around the
        // effective coordinates of (x, y).
        let xm = x.wrapping_sub(1);
        let xp = x.wrapping_add(1);
        let ym = y.wrapping_sub(1);
        let yp = y.wrapping_add(1);
        assert(xm == x - 1 && xp == x + 1 && ym == y - 1 && yp == y + 1);
        assert(block_cell(ul, u, l, t, tx + 2, ty + 6) == pre.cell_alive(xm, ym)) by {
            assert((4 * bk.0 + (tx + 2)) as i64 == xm.wrapping_sub(1));
            assert((8 * bk.1 + (ty + 6)) as i64 == ym.wrapping_sub(1));
            assert(eff(xm, true) == xm.wrapping_sub(1));
            assert(eff(ym, true) == ym.wrapping_sub(1));
        }
        assert(block_cell(ul, u, l, t, tx + 3, ty + 6) == pre.cell_alive(x, ym)) by {
            assert((4 * bk.0 + (tx + 3)) as i64 == x.wrapping_sub(1));
            assert((8 * bk.1 + (ty + 6)) as i64 == ym.wrapping_sub(1));
            assert(eff(x, true) == x.wrapping_sub(1));
            assert(eff(ym, true) == ym.wrapping_sub(1));
        }
        assert(block_cell(ul, u, l, t, tx + 4, ty + 6) == pre.cell_alive(xp, ym)) by {
            assert((4 * bk.0 + (tx + 4)) as i64 == xp.wrapping_sub(1));
            assert((8 * bk.1 + (ty + 6)) as i64 == ym.wrapping_sub(1));
            assert(eff(xp, true) == xp.wrapping_sub(1));
            assert(eff(ym, true) == ym.wrapping_sub(1));
        }
        assert(block_cell(ul, u, l, t, tx + 2, ty + 7) == pre.cell_alive(xm, y)) by {
            assert((4 * bk.0 + (tx + 2)) as i64 == xm.wrapping_sub(1));
            assert((8 * bk.1 + (ty + 7)) as i64 == y.wrapping_sub(1));
            assert(eff(xm, true) == xm.wrapping_sub(1));
            assert(eff(y, true) == y.wrapping_sub(1));
        }
        assert(block_cell(ul, u, l, t, tx + 3, ty + 7) == pre.cell_alive(x, y)) by {
            assert((4 * bk.0 + (tx + 3)) as i64 == x.wrapping_sub(1));
            assert((8 * bk.1 + (ty + 7)) as i64 == y.wrapping_sub(1));
            assert(eff(x, true) == x.wrapping_sub(1));
            assert(eff(y, true) == y.wrapping_sub(1));
        }
        assert(block_cell(ul, u, l, t, tx + 4, ty + 7) == pre.cell_alive(xp, y)) by {
            assert((4 * bk.0 + (tx + 4)) as i64 == xp.wrapping_sub(1));
            assert((8 * bk.1 + (ty + 7)) as i64 == y.wrapping_sub(1));
            assert(eff(xp, true) == xp.wrapping_sub(1));
            assert(eff(y, true) == y.wrapping_sub(1));
        }
        assert(block_cell(ul, u, l, t, tx + 2, ty + 8) == pre.cell_alive(xm, yp)) by {
            assert((4 * bk.0 + (tx + 2)) as i64 == xm.wrapping_sub(1));
            assert((8 * bk.1 + (ty + 8)) as i64 == yp.wrapping_sub(1));
            assert(eff(xm, true) == xm.wrapping_sub(1));
            assert(eff(yp, true) == yp.wrapping_sub(1));
        }
        assert(block_cell(ul, u, l, t, tx + 3, ty + 8) == pre.cell_alive(x, yp)) by {
            assert((4 * bk.0 + (tx + 3)) as i64 == x.wrapping_sub(1));
            assert((8 * bk.1 + (ty + 8)) as i64 == yp.wrapping_sub(1));
            assert(eff(x, true) == x.wrapping_sub(1));
            assert(eff(yp, true) == yp.wrapping_sub(1));
        }
        assert(block_cell(ul, u, l, t, tx + 4, ty + 8) == pre.cell_alive(xp, yp)) by {
            assert((4 * bk.0 + (tx + 4)) as i64 == xp.wrapping_sub(1));
            assert((8 * bk.1 + (ty + 8)) as i64 == yp.wrapping_sub(1));
            assert(eff(xp, true) == xp.wrapping_sub(1));
            assert(eff(yp, true) == yp.wrapping_sub(1));
        }
        assert(block_neighbors(ul, u, l, t, tx + 3, ty + 7) == live_neighbors(pre, x, y));
        assert(block_cell(ul, u, l, t, tx + 3, ty + 7) == pre.cell_alive(x, y));
    }
}

/// A step leaves every cell dead whose tile was not on the frontier: tiles
/// absent from the frontier get no entry in the next map, and an absent
/// entry reads as all-dead.  Together with `lemma_step_cell_rule` this pins
/// down the whole next generation from the frontier and the current tiles.
pub proof fn lemma_step_leaves_unscheduled_dead(pre: Universe, post: Universe, x: i64, y: i64)
    requires
        post.generation == pre.generation + 1,
        (if pre.even_phase() {
            fwd_step_ok(
                pre.cur_tiles(),
                pre.active_set(),
                post.cur_tiles(),
                post.active_set(),
                pre.births(),
                pre.survivals(),
            )
        } else {
            bwd_step_ok(
                pre.cur_tiles(),
                pre.active_set(),
                post.cur_tiles(),
                post.active_set(),
                pre.births(),
                pre.survivals(),
            )
        }),
        !pre.active_set().contains(
            cell_key(eff(x, pre.even_phase()), eff(y, pre.even_phase())),
        ),
    ensures
        !post.cell_alive(x, y),
{
    lemma_zero_tile();
    let k = cell_key(eff(x, pre.even_phase()), eff(y, pre.even_phase()));
    assert(!post.cur_tiles().contains_key(k));
    assert(map_at(post.cur_tiles(), k) == 0);
    assert(post.even_phase() == !pre.even_phase());
}

/// Toggling a cell twice returns every cell of the universe to its original
/// state, whatever else happened to the scheduling frontier.
pub proof fn lemma_toggle_twice(u0: Universe, u1: Universe, u2: Universe, x: i64, y: i64)
    requires
        writes_cell(u0, u1, x, y, None),
        writes_cell(u1, u2, x, y, None),
    ensures
        forall|a: i64, b: i64| #[trigger] u2.cell_alive(a, b) == u0.cell_alive(a, b),
{
    assert forall|a: i64, b: i64| #[trigger] u2.cell_alive(a, b) == u0.cell_alive(a, b) by {
        assert(u1.cell_alive(a, b) == (if a == x && b == y {
            !u0.cell_alive(a, b)
        } else {
            u0.cell_alive(a, b)
        }));
        assert(u2.cell_alive(a, b) == (if a == x && b == y {
            !u1.cell_alive(a, b)
        } else {
            u1.cell_alive(a, b)
        }));
    }
}

} // verus!
