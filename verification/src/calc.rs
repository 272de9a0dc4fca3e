use vstd::prelude::*;
use crate::tile::{Tile, tile_bit, win_bit, block_cell, block_neighbors, next_state, step_bit_fwd,
    step_bit_bwd};
use crate::rules::{RuleTable, table_entry, entry_bit, win_neighbors};

verus! {

// ---------------------------------------------------------------------------
// Bit-vector facts about the composite contexts.
// ---------------------------------------------------------------------------
/// Bits of a tile extended downward: the tile's rows 2..8 followed by the
/// top two rows of the tile below.
proof fn lemma_down_comp(a: u32, b: u32, o: u32)
    by (bit_vector)
    requires
        o == (a << 8u32) | (b >> 24u32),
    ensures
        forall|i: u32|
            i < 32 ==> #[trigger] ((o >> i) & 1) == (if i < 8 {
                (b >> ((i + 24) as u32)) & 1
            } else {
                (a >> ((i - 8) as u32)) & 1
            }),
{
}

/// Bits of a tile extended upward: the bottom two rows of the tile above
/// followed by the tile's rows 0..6.
proof fn lemma_up_comp(a: u32, b: u32, o: u32)
    by (bit_vector)
    requires
        o == (a >> 8u32) | (b << 24u32),
    ensures
        forall|i: u32|
            i < 32 ==> #[trigger] ((o >> i) & 1) == (if i >= 24 {
                (b >> ((i - 24) as u32)) & 1
            } else {
                (a >> ((i + 8) as u32)) & 1
            }),
{
}

/// Bits of a tile shifted two columns left with the left two columns of the
/// tile to its right appended: per 4-bit row, the high two bits come from
/// `a`'s low columns and the low two bits from `b`'s high columns.
proof fn lemma_right_comp(a: u32, b: u32, o: u32)
    by (bit_vector)
    requires
        o == ((a << 2u32) & 0xcccc_cccc) | ((b >> 2u32) & 0x3333_3333),
    ensures
        forall|i: u32|
            i < 32 ==> #[trigger] ((o >> i) & 1) == (if i % 4 >= 2 {
                (a >> ((i - 2) as u32)) & 1
            } else {
                (b >> ((i + 2) as u32)) & 1
            }),
{
}

/// Mirror image of `lemma_right_comp`, toward the tile to the left.
proof fn lemma_left_comp(a: u32, b: u32, o: u32)
    by (bit_vector)
    requires
        o == ((a >> 2u32) & 0x3333_3333) | ((b << 2u32) & 0xcccc_cccc),
    ensures
        forall|i: u32|
            i < 32 ==> #[trigger] ((o >> i) & 1) == (if i % 4 < 2 {
                (a >> ((i + 2) as u32)) & 1
            } else {
                (b >> ((i - 2) as u32)) & 1
            }),
{
}

/// The high 16-bit window of a 32-bit context.
proof fn lemma_win_hi(s: u32, w: u32)
    by (bit_vector)
    requires
        w == s >> 16u32,
    ensures
        w < 65536,
        forall|j: u32| j < 16 ==> #[trigger] ((w >> j) & 1) == ((s >> ((j + 16) as u32)) & 1),
{
}

/// The low 16-bit window of a 32-bit context.
proof fn lemma_win_lo(s: u32, w: u32)
    by (bit_vector)
    requires
        w == s & 0xffff,
    ensures
        w < 65536,
        forall|j: u32| j < 16 ==> #[trigger] ((w >> j) & 1) == ((s >> j) & 1),
{
}

/// Bits of a 4-bit result packed at offsets 0, 1, 4, 5.
proof fn lemma_pack4(b0: u32, b1: u32, b4: u32, b5: u32, v: u32)
    by (bit_vector)
    requires
        b0 < 2,
        b1 < 2,
        b4 < 2,
        b5 < 2,
        v == (b0 + 2 * b1 + 16 * b4 + 32 * b5) as u32,
    ensures
        v & 0x33 == v,
        ((v >> 0u32) & 1 == 1) == (b0 == 1),
        ((v >> 1u32) & 1 == 1) == (b1 == 1),
        ((v >> 4u32) & 1 == 1) == (b4 == 1),
        ((v >> 5u32) & 1 == 1) == (b5 == 1),
{
}

/// Bit `j + shift` of the assembled result equals bit `j` of the table entry
/// shifted by `shift`, for every entry position `j` in {0, 1, 4, 5}; the
/// eight shifted entries occupy disjoint bits.
#[verifier::rlimit(30)]
proof fn lemma_pack_result(
    l1: u32,
    l2: u32,
    l3: u32,
    l4: u32,
    l5: u32,
    l6: u32,
    l7: u32,
    l8: u32,
    res: u32,
    j: u32,
)
    by (bit_vector)
    requires
        j < 6 && j % 4 < 2,
        l1 & 0x33 == l1,
        l2 & 0x33 == l2,
        l3 & 0x33 == l3,
        l4 & 0x33 == l4,
        l5 & 0x33 == l5,
        l6 & 0x33 == l6,
        l7 & 0x33 == l7,
        l8 & 0x33 == l8,
        res == (l1 << 26u32) | (l5 << 24u32) | (l2 << 18u32) | (l6 << 16u32) | (l3 << 10u32) | (l7
            << 8u32) | (l4 << 2u32) | l8,
    ensures
        ((res >> ((j + 26) as u32)) & 1) == ((l1 >> j) & 1),
        ((res >> ((j + 24) as u32)) & 1) == ((l5 >> j) & 1),
        ((res >> ((j + 18) as u32)) & 1) == ((l2 >> j) & 1),
        ((res >> ((j + 16) as u32)) & 1) == ((l6 >> j) & 1),
        ((res >> ((j + 10) as u32)) & 1) == ((l3 >> j) & 1),
        ((res >> ((j + 8) as u32)) & 1) == ((l7 >> j) & 1),
        ((res >> ((j + 2) as u32)) & 1) == ((l4 >> j) & 1),
        ((res >> j) & 1) == ((l8 >> j) & 1),
{
}

// ---------------------------------------------------------------------------
// Tile-coordinate views of the composite contexts.
// ---------------------------------------------------------------------------
/// Tile-coordinate reading of `lemma_down_comp`.
proof fn lemma_down_tile(a: u32, b: u32, o: u32)
    requires
        o == (a << 8u32) | (b >> 24u32),
    ensures
        forall|x: int, y: int|
            0 <= x < 4 && 0 <= y < 8 ==> #[trigger] tile_bit(o, x, y) == (if y < 6 {
                tile_bit(a, x, y + 2)
            } else {
                tile_bit(b, x, y - 6)
            }),
{
    lemma_down_comp(a, b, o);
    assert forall|x: int, y: int| 0 <= x < 4 && 0 <= y < 8 implies #[trigger] tile_bit(o, x, y) == (
    if y < 6 {
        tile_bit(a, x, y + 2)
    } else {
        tile_bit(b, x, y - 6)
    }) by {
        let i: u32 = (31 - 4 * y - x) as u32;
        assert(((o >> i) & 1) == (if i < 8 {
            (b >> ((i + 24) as u32)) & 1
        } else {
            (a >> ((i - 8) as u32)) & 1
        }));
        if y < 6 {
            assert((i - 8) as u32 == (31 - 4 * (y + 2) - x) as u32);
        } else {
            assert((i + 24) as u32 == (31 - 4 * (y - 6) - x) as u32);
        }
    }
}

/// Tile-coordinate reading of `lemma_up_comp`.
proof fn lemma_up_tile(a: u32, b: u32, o: u32)
    requires
        o == (a >> 8u32) | (b << 24u32),
    ensures
        forall|x: int, y: int|
            0 <= x < 4 && 0 <= y < 8 ==> #[trigger] tile_bit(o, x, y) == (if y < 2 {
                tile_bit(b, x, y + 6)
            } else {
                tile_bit(a, x, y - 2)
            }),
{
    lemma_up_comp(a, b, o);
    assert forall|x: int, y: int| 0 <= x < 4 && 0 <= y < 8 implies #[trigger] tile_bit(o, x, y) == (
    if y < 2 {
        tile_bit(b, x, y + 6)
    } else {
        tile_bit(a, x, y - 2)
    }) by {
        let i: u32 = (31 - 4 * y - x) as u32;
        assert(((o >> i) & 1) == (if i >= 24 {
            (b >> ((i - 24) as u32)) & 1
        } else {
            (a >> ((i + 8) as u32)) & 1
        }));
        if y < 2 {
            assert((i - 24) as u32 == (31 - 4 * (y + 6) - x) as u32);
        } else {
            assert((i + 8) as u32 == (31 - 4 * (y - 2) - x) as u32);
        }
    }
}

/// Tile-coordinate reading of `lemma_right_comp`.
proof fn lemma_right_tile(a: u32, b: u32, o: u32)
    requires
        o == ((a << 2u32) & 0xcccc_cccc) | ((b >> 2u32) & 0x3333_3333),
    ensures
        forall|x: int, y: int|
            0 <= x < 4 && 0 <= y < 8 ==> #[trigger] tile_bit(o, x, y) == (if x < 2 {
                tile_bit(a, x + 2, y)
            } else {
                tile_bit(b, x - 2, y)
            }),
{
    lemma_right_comp(a, b, o);
    assert forall|x: int, y: int| 0 <= x < 4 && 0 <= y < 8 implies #[trigger] tile_bit(o, x, y) == (
    if x < 2 {
        tile_bit(a, x + 2, y)
    } else {
        tile_bit(b, x - 2, y)
    }) by {
        let i: u32 = (31 - 4 * y - x) as u32;
        assert(((o >> i) & 1) == (if i % 4 >= 2 {
            (a >> ((i - 2) as u32)) & 1
        } else {
            (b >> ((i + 2) as u32)) & 1
        }));
        if x < 2 {
            assert(i % 4 >= 2) by {
                assert(i == (28 - 4 * y) + (3 - x));
            };
            assert((i - 2) as u32 == (31 - 4 * y - (x + 2)) as u32);
        } else {
            assert(i % 4 < 2) by {
                assert(i == (28 - 4 * y) + (3 - x));
            };
            assert((i + 2) as u32 == (31 - 4 * y - (x - 2)) as u32);
        }
    }
}

/// Tile-coordinate reading of `lemma_left_comp`.
proof fn lemma_left_tile(a: u32, b: u32, o: u32)
    requires
        o == ((a >> 2u32) & 0x3333_3333) | ((b << 2u32) & 0xcccc_cccc),
    ensures
        forall|x: int, y: int|
            0 <= x < 4 && 0 <= y < 8 ==> #[trigger] tile_bit(o, x, y) == (if x < 2 {
                tile_bit(b, x + 2, y)
            } else {
                tile_bit(a, x - 2, y)
            }),
{
    lemma_left_comp(a, b, o);
    assert forall|x: int, y: int| 0 <= x < 4 && 0 <= y < 8 implies #[trigger] tile_bit(o, x, y) == (
    if x < 2 {
        tile_bit(b, x + 2, y)
    } else {
        tile_bit(a, x - 2, y)
    }) by {
        let i: u32 = (31 - 4 * y - x) as u32;
        assert(((o >> i) & 1) == (if i % 4 < 2 {
            (a >> ((i + 2) as u32)) & 1
        } else {
            (b >> ((i - 2) as u32)) & 1
        }));
        if x < 2 {
            assert(i % 4 >= 2) by {
                assert(i == (28 - 4 * y) + (3 - x));
            };
            assert((i - 2) as u32 == (31 - 4 * y - (x + 2)) as u32);
        } else {
            assert(i % 4 < 2) by {
                assert(i == (28 - 4 * y) + (3 - x));
            };
            assert((i + 2) as u32 == (31 - 4 * y - (x - 2)) as u32);
        }
    }
}

// ---------------------------------------------------------------------------
// Windows over the assembled 8x16 block.
// ---------------------------------------------------------------------------
/// The 16-bit window `w` shows exactly the 4x4 region of the block whose
/// top-left corner is `(ox, oy)`.
pub open spec fn win_covers(w: u32, t: u32, r: u32, d: u32, dr: u32, ox: int, oy: int) -> bool {
    forall|x: int, y: int|
        0 <= x < 4 && 0 <= y < 4 ==> #[trigger] win_bit(w, x, y) == block_cell(
            t,
            r,
            d,
            dr,
            x + ox,
            y + oy,
        )
}

/// The high window of a context whose tile bits show the block at `(ox, oy)`.
proof fn lemma_win_hi_tile(s: u32, w: u32, t: u32, r: u32, d: u32, dr: u32, ox: int, oy: int)
    requires
        w == s >> 16u32,
        forall|x: int, y: int|
            0 <= x < 4 && 0 <= y < 8 ==> #[trigger] tile_bit(s, x, y) == block_cell(
                t,
                r,
                d,
                dr,
                x + ox,
                y + oy,
            ),
    ensures
        w < 65536,
        win_covers(w, t, r, d, dr, ox, oy),
{
    lemma_win_hi(s, w);
    assert forall|x: int, y: int| 0 <= x < 4 && 0 <= y < 4 implies #[trigger] win_bit(w, x, y)
        == block_cell(t, r, d, dr, x + ox, y + oy) by {
        let j: u32 = (15 - 4 * y - x) as u32;
        assert(((w >> j) & 1) == ((s >> ((j + 16) as u32)) & 1));
        assert((j + 16) as u32 == (31 - 4 * y - x) as u32);
        assert(tile_bit(s, x, y) == block_cell(t, r, d, dr, x + ox, y + oy));
    }
}

/// The low window of a context whose tile bits show the block at `(ox, oy)`.
proof fn lemma_win_lo_tile(s: u32, w: u32, t: u32, r: u32, d: u32, dr: u32, ox: int, oy: int)
    requires
        w == s & 0xffff,
        forall|x: int, y: int|
            0 <= x < 4 && 0 <= y < 8 ==> #[trigger] tile_bit(s, x, y) == block_cell(
                t,
                r,
                d,
                dr,
                x + ox,
                y + oy,
            ),
    ensures
        w < 65536,
        win_covers(w, t, r, d, dr, ox, oy + 4),
{
    lemma_win_lo(s, w);
    assert forall|x: int, y: int| 0 <= x < 4 && 0 <= y < 4 implies #[trigger] win_bit(w, x, y)
        == block_cell(t, r, d, dr, x + ox, y + oy + 4) by {
        let j: u32 = (15 - 4 * y - x) as u32;
        assert(((w >> j) & 1) == ((s >> j) & 1));
        assert(j == (31 - 4 * (y + 4) - x) as u32);
        assert(tile_bit(s, x, y + 4) == block_cell(t, r, d, dr, x + ox, y + 4 + oy));
    }
}

/// A window that shows the block at `(ox, oy)` resolves its interior cell
/// `(wx, wy)` exactly as the per-cell rule resolves block cell
/// `(wx + ox, wy + oy)`.
proof fn lemma_entry_sem(
    w: u32,
    t: u32,
    r: u32,
    d: u32,
    dr: u32,
    ox: int,
    oy: int,
    births: Seq<u32>,
    survivals: Seq<u32>,
    wx: int,
    wy: int,
)
    requires
        win_covers(w, t, r, d, dr, ox, oy),
        1 <= wx < 3,
        1 <= wy < 3,
    ensures
        entry_bit(w, births, survivals, wx, wy) == next_state(
            block_cell(t, r, d, dr, wx + ox, wy + oy),
            block_neighbors(t, r, d, dr, wx + ox, wy + oy),
            births,
            survivals,
        ),
{
    assert(win_bit(w, wx, wy) == block_cell(t, r, d, dr, wx + ox, wy + oy));
    assert(win_neighbors(w, wx, wy) == block_neighbors(t, r, d, dr, wx + ox, wy + oy)) by {
        assert(win_bit(w, wx - 1, wy - 1) == block_cell(t, r, d, dr, wx - 1 + ox, wy - 1 + oy));
        assert(win_bit(w, wx, wy - 1) == block_cell(t, r, d, dr, wx + ox, wy - 1 + oy));
        assert(win_bit(w, wx + 1, wy - 1) == block_cell(t, r, d, dr, wx + 1 + ox, wy - 1 + oy));
        assert(win_bit(w, wx - 1, wy) == block_cell(t, r, d, dr, wx - 1 + ox, wy + oy));
        assert(win_bit(w, wx + 1, wy) == block_cell(t, r, d, dr, wx + 1 + ox, wy + oy));
        assert(win_bit(w, wx - 1, wy + 1) == block_cell(t, r, d, dr, wx - 1 + ox, wy + 1 + oy));
        assert(win_bit(w, wx, wy + 1) == block_cell(t, r, d, dr, wx + ox, wy + 1 + oy));
        assert(win_bit(w, wx + 1, wy + 1) == block_cell(t, r, d, dr, wx + 1 + ox, wy + 1 + oy));
    }
}

/// Bits 0, 1, 4, 5 of a table entry are the next states of the window's four
/// interior cells, and no other bit of the entry is set.
proof fn lemma_entry_bits(w: u32, births: Seq<u32>, survivals: Seq<u32>)
    ensures
        ({
            let v = table_entry(w, births, survivals);
            &&& v & 0x33 == v
            &&& (((v >> 0u32) & 1 == 1) == entry_bit(w, births, survivals, 2, 2))
            &&& (((v >> 1u32) & 1 == 1) == entry_bit(w, births, survivals, 1, 2))
            &&& (((v >> 4u32) & 1 == 1) == entry_bit(w, births, survivals, 2, 1))
            &&& (((v >> 5u32) & 1 == 1) == entry_bit(w, births, survivals, 1, 1))
        }),
{
    let b0: u32 = if entry_bit(w, births, survivals, 2, 2) {
        1
    } else {
        0
    };
    let b1: u32 = if entry_bit(w, births, survivals, 1, 2) {
        1
    } else {
        0
    };
    let b4: u32 = if entry_bit(w, births, survivals, 2, 1) {
        1
    } else {
        0
    };
    let b5: u32 = if entry_bit(w, births, survivals, 1, 1) {
        1
    } else {
        0
    };
    lemma_pack4(b0, b1, b4, b5, table_entry(w, births, survivals));
}

// ---------------------------------------------------------------------------
// The composite-lookup step for one tile.
// ---------------------------------------------------------------------------
/// Computes the next generation of the tile whose origin sits one cell right
/// of and below `tile`'s origin, from `tile` and its three forward neighbors,
/// by eight table lookups.  Each bit of the result is exactly what per-cell
/// neighbor counting over the assembled 8x16 block gives.
#[verifier::rlimit(60)]
pub(crate) fn calc_fwd(rt: &RuleTable, tile: Tile, right: Tile, down: Tile, downright: Tile) -> (res:
    Tile)
    requires
        rt.wf(),
    ensures
        forall|x: int, y: int|
            0 <= x < 4 && 0 <= y < 8 ==> #[trigger] tile_bit(res.0, x, y) == step_bit_fwd(
                tile.0,
                right.0,
                down.0,
                downright.0,
                rt.births@,
                rt.survivals@,
                x,
                y,
            ),
{
    let c = tile.0;
    let r0 = right.0;
    let d0 = down.0;
    let dr0 = downright.0;
    let dd = (c << 8u32) | (d0 >> 24u32);
    let rd = ((c << 2u32) & 0xcccc_cccc) | ((r0 >> 2u32) & 0x3333_3333);
    let rr = (r0 << 8u32) | (dr0 >> 24u32);
    let drd = ((dd << 2u32) & 0xcccc_cccc) | ((rr >> 2u32) & 0x3333_3333);

    let w1 = c >> 16u32;
    let w2 = dd >> 16u32;
    let w3 = c & 0xffff;
    let w4 = dd & 0xffff;
    let w5 = rd >> 16u32;
    let w6 = drd >> 16u32;
    let w7 = rd & 0xffff;
    let w8 = drd & 0xffff;

    proof {
        // The four contexts, read as 4x8 regions of the 8x16 block.
        assert forall|x: int, y: int| 0 <= x < 4 && 0 <= y < 8 implies #[trigger] tile_bit(c, x, y)
            == block_cell(c, r0, d0, dr0, x + 0, y + 0) by {}
        lemma_down_tile(c, d0, dd);
        assert forall|x: int, y: int| 0 <= x < 4 && 0 <= y < 8 implies #[trigger] tile_bit(dd, x, y)
            == block_cell(c, r0, d0, dr0, x + 0, y + 2) by {}
        lemma_right_tile(c, r0, rd);
        assert forall|x: int, y: int| 0 <= x < 4 && 0 <= y < 8 implies #[trigger] tile_bit(rd, x, y)
            == block_cell(c, r0, d0, dr0, x + 2, y + 0) by {}
        lemma_down_tile(r0, dr0, rr);
        assert forall|x: int, y: int| 0 <= x < 4 && 0 <= y < 8 implies #[trigger] tile_bit(rr, x, y)
            == block_cell(c, r0, d0, dr0, x + 4, y + 2) by {}
        lemma_right_tile(dd, rr, drd);
        assert forall|x: int, y: int| 0 <= x < 4 && 0 <= y < 8 implies #[trigger] tile_bit(
            drd,
            x,
            y,
        ) == block_cell(c, r0, d0, dr0, x + 2, y + 2) by {}
        // The eight 4x4 windows.
        lemma_win_hi_tile(c, w1, c, r0, d0, dr0, 0, 0);
        lemma_win_hi_tile(dd, w2, c, r0, d0, dr0, 0, 2);
        lemma_win_lo_tile(c, w3, c, r0, d0, dr0, 0, 0);
        lemma_win_lo_tile(dd, w4, c, r0, d0, dr0, 0, 2);
        lemma_win_hi_tile(rd, w5, c, r0, d0, dr0, 2, 0);
        lemma_win_hi_tile(drd, w6, c, r0, d0, dr0, 2, 2);
        lemma_win_lo_tile(rd, w7, c, r0, d0, dr0, 2, 0);
        lemma_win_lo_tile(drd, w8, c, r0, d0, dr0, 2, 2);
    }

    let l1 = rt.lookup(w1);
    let l2 = rt.lookup(w2);
    let l3 = rt.lookup(w3);
    let l4 = rt.lookup(w4);
    let l5 = rt.lookup(w5);
    let l6 = rt.lookup(w6);
    let l7 = rt.lookup(w7);
    let l8 = rt.lookup(w8);

    let res = (l1 << 26u32) | (l5 << 24u32) | (l2 << 18u32) | (l6 << 16u32) | (l3 << 10u32) | (l7
        << 8u32) | (l4 << 2u32) | l8;

    proof {
        let bs = rt.births@;
        let ss = rt.survivals@;
        lemma_entry_bits(w1, bs, ss);
        lemma_entry_bits(w2, bs, ss);
        lemma_entry_bits(w3, bs, ss);
        lemma_entry_bits(w4, bs, ss);
        lemma_entry_bits(w5, bs, ss);
        lemma_entry_bits(w6, bs, ss);
        lemma_entry_bits(w7, bs, ss);
        lemma_entry_bits(w8, bs, ss);
        assert forall|x: int, y: int| 0 <= x < 4 && 0 <= y < 8 implies #[trigger] tile_bit(
            res,
            x,
            y,
        ) == step_bit_fwd(c, r0, d0, dr0, bs, ss, x, y) by {
            let ox: int = if x < 2 {
                0
            } else {
                2
            };
            let oy: int = 2 * (y / 2);
            let wx = x - ox + 1;
            let wy = y - oy + 1;
            let j: u32 = ((2 - wx) + 4 * (2 - wy)) as u32;
            lemma_pack_result(l1, l2, l3, l4, l5, l6, l7, l8, res, j);
            let w = if ox == 0 {
                if oy == 0 {
                    w1
                } else if oy == 2 {
                    w2
                } else if oy == 4 {
                    w3
                } else {
                    w4
                }
            } else {
                if oy == 0 {
                    w5
                } else if oy == 2 {
                    w6
                } else if oy == 4 {
                    w7
                } else {
                    w8
                }
            };
            lemma_entry_sem(w, c, r0, d0, dr0, ox, oy, bs, ss, wx, wy);
            assert((31 - 4 * y - x) as u32 == (j + (26 - ox - 4 * oy)) as u32);
        }
    }
    Tile(res)
}

/// Computes the next generation of the tile whose origin sits one cell left
/// of and above `tile`'s origin, from `tile` and its three backward
/// neighbors, by eight table lookups.  Each bit of the result is exactly what
/// per-cell neighbor counting over the assembled 8x16 block gives.
#[verifier::rlimit(60)]
pub(crate) fn calc_bwd(rt: &RuleTable, tile: Tile, left: Tile, up: Tile, upleft: Tile) -> (res:
    Tile)
    requires
        rt.wf(),
    ensures
        forall|x: int, y: int|
            0 <= x < 4 && 0 <= y < 8 ==> #[trigger] tile_bit(res.0, x, y) == step_bit_bwd(
                tile.0,
                left.0,
                up.0,
                upleft.0,
                rt.births@,
                rt.survivals@,
                x,
                y,
            ),
{
    let c = tile.0;
    let l0 = left.0;
    let u0 = up.0;
    let ul0 = upleft.0;
    let ud = (c >> 8u32) | (u0 << 24u32);
    let ld = ((c >> 2u32) & 0x3333_3333) | ((l0 << 2u32) & 0xcccc_cccc);
    let lul = (l0 >> 8u32) | (ul0 << 24u32);
    let lud = ((ud >> 2u32) & 0x3333_3333) | ((lul << 2u32) & 0xcccc_cccc);

    let w1 = lud >> 16u32;
    let w2 = ld >> 16u32;
    let w3 = lud & 0xffff;
    let w4 = ld & 0xffff;
    let w5 = ud >> 16u32;
    let w6 = c >> 16u32;
    let w7 = ud & 0xffff;
    let w8 = c & 0xffff;

    proof {
        // The four contexts, read as 4x8 regions of the 8x16 block
        // `[upleft up / left tile]`.
        assert forall|x: int, y: int| 0 <= x < 4 && 0 <= y < 8 implies #[trigger] tile_bit(c, x, y)
            == block_cell(ul0, u0, l0, c, x + 4, y + 8) by {}
        lemma_up_tile(c, u0, ud);
        assert forall|x: int, y: int| 0 <= x < 4 && 0 <= y < 8 implies #[trigger] tile_bit(ud, x, y)
            == block_cell(ul0, u0, l0, c, x + 4, y + 6) by {}
        lemma_left_tile(c, l0, ld);
        assert forall|x: int, y: int| 0 <= x < 4 && 0 <= y < 8 implies #[trigger] tile_bit(ld, x, y)
            == block_cell(ul0, u0, l0, c, x + 2, y + 8) by {}
        lemma_up_tile(l0, ul0, lul);
        assert forall|x: int, y: int| 0 <= x < 4 && 0 <= y < 8 implies #[trigger] tile_bit(
            lul,
            x,
            y,
        ) == block_cell(ul0, u0, l0, c, x + 0, y + 6) by {}
        lemma_left_tile(ud, lul, lud);
        assert forall|x: int, y: int| 0 <= x < 4 && 0 <= y < 8 implies #[trigger] tile_bit(
            lud,
            x,
            y,
        ) == block_cell(ul0, u0, l0, c, x + 2, y + 6) by {}
        // The eight 4x4 windows.
        lemma_win_hi_tile(lud, w1, ul0, u0, l0, c, 2, 6);
        lemma_win_hi_tile(ld, w2, ul0, u0, l0, c, 2, 8);
        lemma_win_lo_tile(lud, w3, ul0, u0, l0, c, 2, 6);
        lemma_win_lo_tile(ld, w4, ul0, u0, l0, c, 2, 8);
        lemma_win_hi_tile(ud, w5, ul0, u0, l0, c, 4, 6);
        lemma_win_hi_tile(c, w6, ul0, u0, l0, c, 4, 8);
        lemma_win_lo_tile(ud, w7, ul0, u0, l0, c, 4, 6);
        lemma_win_lo_tile(c, w8, ul0, u0, l0, c, 4, 8);
    }

    let l1 = rt.lookup(w1);
    let l2 = rt.lookup(w2);
    let l3 = rt.lookup(w3);
    let l4 = rt.lookup(w4);
    let l5 = rt.lookup(w5);
    let l6 = rt.lookup(w6);
    let l7 = rt.lookup(w7);
    let l8 = rt.lookup(w8);

    let res = (l1 << 26u32) | (l5 << 24u32) | (l2 << 18u32) | (l6 << 16u32) | (l3 << 10u32) | (l7
        << 8u32) | (l4 << 2u32) | l8;

    proof {
        let bs = rt.births@;
        let ss = rt.survivals@;
        lemma_entry_bits(w1, bs, ss);
        lemma_entry_bits(w2, bs, ss);
        lemma_entry_bits(w3, bs, ss);
        lemma_entry_bits(w4, bs, ss);
        lemma_entry_bits(w5, bs, ss);
        lemma_entry_bits(w6, bs, ss);
        lemma_entry_bits(w7, bs, ss);
        lemma_entry_bits(w8, bs, ss);
        assert forall|x: int, y: int| 0 <= x < 4 && 0 <= y < 8 implies #[trigger] tile_bit(
            res,
            x,
            y,
        ) == step_bit_bwd(c, l0, u0, ul0, bs, ss, x, y) by {
            let ox: int = if x < 2 {
                2
            } else {
                4
            };
            let oy: int = 6 + 2 * (y / 2);
            let wx = x + 3 - ox;
            let wy = y + 7 - oy;
            let j: u32 = ((2 - wx) + 4 * (2 - wy)) as u32;
            lemma_pack_result(l1, l2, l3, l4, l5, l6, l7, l8, res, j);
            let w = if ox == 2 {
                if oy == 6 {
                    w1
                } else if oy == 8 {
                    w2
                } else if oy == 10 {
                    w3
                } else {
                    w4
                }
            } else {
                if oy == 6 {
                    w5
                } else if oy == 8 {
                    w6
                } else if oy == 10 {
                    w7
                } else {
                    w8
                }
            };
            lemma_entry_sem(w, ul0, u0, l0, c, ox, oy, bs, ss, wx, wy);
            assert((31 - 4 * y - x) as u32 == (j + (52 - ox - 4 * oy)) as u32);
        }
    }
    Tile(res)
}

} // verus!
