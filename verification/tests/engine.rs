use std::collections::{HashMap, HashSet};
use tile_life::{CellState, Tile, Universe};

/// One generation of the naive dense reference: count the eight neighbors of
/// every cell and apply the birth/survival rule.
fn dense_step(live: &HashSet<(i64, i64)>, births: &[u32], survivals: &[u32]) -> HashSet<(i64, i64)> {
    let mut counts: HashMap<(i64, i64), u32> = HashMap::new();
    for &(x, y) in live {
        for dx in -1..=1i64 {
            for dy in -1..=1i64 {
                if dx != 0 || dy != 0 {
                    *counts.entry((x + dx, y + dy)).or_insert(0) += 1;
                }
            }
        }
    }
    let mut next = HashSet::new();
    for (&c, &n) in &counts {
        let alive = live.contains(&c);
        if (alive && survivals.contains(&n)) || (!alive && births.contains(&n)) {
            next.insert(c);
        }
    }
    if survivals.contains(&0) {
        for &c in live {
            if !counts.contains_key(&c) {
                next.insert(c);
            }
        }
    }
    next
}

fn live_set(universe: &Universe) -> HashSet<(i64, i64)> {
    let cells = universe.live_cells();
    let set: HashSet<(i64, i64)> = cells.iter().copied().collect();
    assert_eq!(set.len(), cells.len(), "live_cells must not repeat a cell");
    set
}

/// A cell of the 8x16 block assembled from a tile and its three neighbors in
/// the layout `[t r / d dr]`.
fn block_bit(t: u32, r: u32, d: u32, dr: u32, x: i32, y: i32) -> bool {
    if x < 0 || x >= 8 || y < 0 || y >= 16 {
        return false;
    }
    let (v, xx, yy) = if x < 4 && y < 8 {
        (t, x, y)
    } else if x >= 4 && y < 8 {
        (r, x - 4, y)
    } else if x < 4 {
        (d, x, y - 8)
    } else {
        (dr, x - 4, y - 8)
    };
    (v >> (31 - 4 * yy - xx)) & 1 == 1
}

/// Per-cell recomputation of the forward composite result: for each bit of
/// the output tile, count the 3x3 neighborhood in the assembled block.
fn naive_calc(t: u32, r: u32, d: u32, dr: u32, ox: i32, oy: i32, b: &[u32], s: &[u32]) -> u32 {
    let mut out = 0u32;
    for y in 0..8i32 {
        for x in 0..4i32 {
            let cx = x + ox;
            let cy = y + oy;
            let alive = block_bit(t, r, d, dr, cx, cy);
            let mut n = 0u32;
            for dx in -1..=1i32 {
                for dy in -1..=1i32 {
                    if (dx != 0 || dy != 0) && block_bit(t, r, d, dr, cx + dx, cy + dy) {
                        n += 1;
                    }
                }
            }
            let next = if alive { s.contains(&n) } else { b.contains(&n) };
            if next {
                out |= 1 << (31 - 4 * y - x);
            }
        }
    }
    out
}

fn lcg(state: &mut u64) -> u32 {
    *state = state
        .wrapping_mul(6364136223846793005)
        .wrapping_add(1442695040888963407);
    (*state >> 33) as u32
}

#[test]
fn test_p01_calc() {
    let universe = Universe::default();
    let tile = Tile(0xc800_2220);
    let right = Tile(0x8880_0008);
    let down = Tile(0xd200_0000);
    let downright = Tile(0x8000_0000);

    let expected = Tile(0xb000_e2df);
    let result = universe.p01_calc(tile, right, down, downright);

    assert_eq!(expected, result);
}

#[test]
fn test_p10_calc() {
    let universe = Universe::default();
    let tile = Tile(0x0044_4013);
    let left = Tile(0x3100_0013);
    let up = Tile(0x18);
    let upleft = Tile(0x81);

    let expected = Tile(0xc0c47009);
    let result = universe.p10_calc(tile, left, up, upleft);

    assert_eq!(expected, result);
}

#[test]
fn test_step() {
    let mut universe = Universe::default();
    universe.set_cell(1, 1);
    universe.set_cell(2, 1);
    universe.set_cell(3, 1);
    universe.step();

    assert_eq!(CellState::Dead, universe.get_cell(1, 1));
    assert_eq!(CellState::Alive, universe.get_cell(2, 1));
    assert_eq!(CellState::Dead, universe.get_cell(3, 1));
    assert_eq!(CellState::Alive, universe.get_cell(2, 2));
    assert_eq!(CellState::Alive, universe.get_cell(2, 0));

    universe.step();
    assert_eq!(CellState::Alive, universe.get_cell(1, 1));
    assert_eq!(CellState::Alive, universe.get_cell(2, 1));
    assert_eq!(CellState::Alive, universe.get_cell(3, 1));
}

#[test]
fn test_many_steps() {
    let mut universe = Universe::default();
    universe.set_cell(0, 0);
    universe.set_cell(1, 0);
    universe.set_cell(2, 0);
    universe.set_cell(2, -1);
    universe.set_cell(1, -2);

    for _i in 0..1000 {
        universe.step();
    }

    let expected = 5;
    assert_eq!(expected, universe.live_cells().len());
}

#[test]
fn blinker_oscillates() {
    let mut universe = Universe::default();
    universe.set_cell(1, 1);
    universe.set_cell(2, 1);
    universe.set_cell(3, 1);

    universe.step();
    let expected1: HashSet<(i64, i64)> = [(2, 0), (2, 1), (2, 2)].into_iter().collect();
    assert_eq!(expected1, live_set(&universe));

    universe.step();
    let expected2: HashSet<(i64, i64)> = [(1, 1), (2, 1), (3, 1)].into_iter().collect();
    assert_eq!(expected2, live_set(&universe));
}

#[test]
fn toggle_twice_restores_dead_cell() {
    let mut universe = Universe::default();
    universe.set_cell(4, 9);
    universe.toggle_cell(7, -3);
    universe.toggle_cell(7, -3);
    assert_eq!(CellState::Dead, universe.get_cell(7, -3));
    assert_eq!(CellState::Alive, universe.get_cell(4, 9));
}

#[test]
fn toggle_twice_restores_live_cell() {
    let mut universe = Universe::default();
    universe.set_cell(-5, 11);
    universe.toggle_cell(-5, 11);
    assert_eq!(CellState::Dead, universe.get_cell(-5, 11));
    universe.toggle_cell(-5, 11);
    assert_eq!(CellState::Alive, universe.get_cell(-5, 11));
}

#[test]
fn toggle_twice_restores_on_odd_generation() {
    let mut universe = Universe::default();
    universe.set_cell(0, 0);
    universe.step();
    universe.toggle_cell(12, 34);
    universe.toggle_cell(12, 34);
    assert_eq!(CellState::Dead, universe.get_cell(12, 34));
}

#[test]
fn composite_lookup_matches_naive_counting() {
    let rules: [(&[u32], &[u32]); 4] = [
        (&[3], &[2, 3]),
        (&[3], &[0, 1, 2, 3, 4, 5, 6, 7, 8]),
        (&[3, 6, 7, 8], &[3, 4, 6, 7, 8]),
        (&[2], &[0]),
    ];
    let mut state: u64 = 0x1234_5678_9abc_def0;
    for (b, s) in rules {
        let universe = Universe::new(b.to_vec(), s.to_vec());
        for _ in 0..200 {
            let t = lcg(&mut state);
            let r = lcg(&mut state);
            let d = lcg(&mut state);
            let dr = lcg(&mut state);
            let got = universe.p01_calc(Tile(t), Tile(r), Tile(d), Tile(dr));
            let want = naive_calc(t, r, d, dr, 1, 1, b, s);
            assert_eq!(want, got.0, "forward composite disagrees with per-cell counting");

            let l = lcg(&mut state);
            let u = lcg(&mut state);
            let ul = lcg(&mut state);
            let got_b = universe.p10_calc(Tile(t), Tile(l), Tile(u), Tile(ul));
            // Backward block layout is [ul u / l t]; the produced tile's
            // origin is one cell left of and above the tile's own origin.
            let want_b = naive_calc(ul, u, l, t, 3, 7, b, s);
            assert_eq!(want_b, got_b.0, "backward composite disagrees with per-cell counting");
        }
    }
}

#[test]
fn sparse_engine_matches_dense_reference() {
    // A scripted scenario of mutations, steps and a rule change, checked
    // against the dense per-cell reference after every generation.
    let mut universe = Universe::new(vec![3], vec![2, 3]);
    let mut b: Vec<u32> = vec![3];
    let mut s: Vec<u32> = vec![2, 3];
    let mut dense: HashSet<(i64, i64)> = HashSet::new();

    // An r-pentomino near the origin plus scattered cells, some negative.
    let seed = [
        (1, 0),
        (2, 0),
        (0, 1),
        (1, 1),
        (1, 2),
        (-7, -3),
        (-8, -3),
        (-9, -3),
        (14, 5),
        (14, 6),
        (15, 5),
        (15, 6),
    ];
    for &(x, y) in &seed {
        universe.set_cell(x, y);
        dense.insert((x, y));
    }
    assert_eq!(dense, live_set(&universe));

    for gen in 0..40 {
        if gen == 12 {
            // Mid-run edits while the simulation is on an odd generation.
            universe.kill_cell(0, 0);
            dense.remove(&(0, 0));
            universe.toggle_cell(-2, -2);
            if !dense.insert((-2, -2)) {
                dense.remove(&(-2, -2));
            }
        }
        if gen == 25 {
            // Rule change must reactivate tiles the old rule left stable.
            b = vec![3, 6, 7, 8];
            s = vec![3, 4, 6, 7, 8];
            universe.set_rules(b.clone(), s.clone());
        }
        universe.step();
        dense = dense_step(&dense, &b, &s);
        assert_eq!(dense, live_set(&universe), "diverged at generation {}", gen);
    }
}

#[test]
fn clear_empties_the_grid_and_keeps_counting() {
    let mut universe = Universe::default();
    universe.set_cell(3, 3);
    universe.set_cell(4, 3);
    universe.step();
    universe.clear();
    assert!(universe.live_cells().is_empty());
    // The generation counter is not reset, so editing and reading straight
    // after a clear still addresses the odd phase consistently.
    universe.set_cell(6, 6);
    assert_eq!(CellState::Alive, universe.get_cell(6, 6));
    assert_eq!(vec![(6, 6)], universe.live_cells());
}

#[test]
fn blinker_across_negative_axes() {
    let mut universe = Universe::default();
    universe.set_cell(-1, 0);
    universe.set_cell(0, 0);
    universe.set_cell(1, 0);
    universe.step();
    let expected: HashSet<(i64, i64)> = [(0, -1), (0, 0), (0, 1)].into_iter().collect();
    assert_eq!(expected, live_set(&universe));
}

#[test]
fn glider_travels_diagonally() {
    // The glider reproduces itself one cell down-right every four steps.
    let mut universe = Universe::default();
    universe.set_rle(0, 0, "bob$2bo$3o!").unwrap();
    let before = live_set(&universe);
    for _ in 0..4 {
        universe.step();
    }
    let moved: HashSet<(i64, i64)> = before.iter().map(|&(x, y)| (x + 1, y + 1)).collect();
    assert_eq!(moved, live_set(&universe));
}

#[test]
fn kill_cell_clears_one_cell_only() {
    let mut universe = Universe::default();
    universe.set_cell(0, 0);
    universe.set_cell(1, 0);
    universe.kill_cell(0, 0);
    assert_eq!(CellState::Dead, universe.get_cell(0, 0));
    assert_eq!(CellState::Alive, universe.get_cell(1, 0));
}

#[test]
fn rule_change_wakes_stable_tiles() {
    // A block is a still life under the standard rule; switching to a rule
    // without survival on 3 neighbors must make it move again.
    let mut universe = Universe::default();
    for &(x, y) in &[(10, 10), (11, 10), (10, 11), (11, 11)] {
        universe.set_cell(x, y);
    }
    universe.step();
    universe.step();
    assert_eq!(4, universe.live_cells().len());

    let b: Vec<u32> = vec![2];
    let s: Vec<u32> = vec![0];
    universe.set_rules(b.clone(), s.clone());
    let mut dense: HashSet<(i64, i64)> = live_set(&universe);
    universe.step();
    dense = dense_step(&dense, &b, &s);
    assert_eq!(dense, live_set(&universe));
    assert_ne!(4, universe.live_cells().len());
}
