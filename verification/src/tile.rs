use vstd::prelude::*;
use vstd::arithmetic::div_mod::lemma_fundamental_div_mod;

verus! {

/// A bit-packed block of 4x8 cells, row-major, with bit position
/// `31 - (4*row + col)` for `row` in `[0,8)`, `col` in `[0,4)`.
/// Bit value 1 means the cell is alive.
#[derive(Clone, Copy, PartialEq, Eq, Structural, Debug)]
pub struct Tile(pub u32);

/// The signed 2D address of one tile in the sparse grid.  `0` grows to the
/// right, `1` grows down.  Arithmetic on tile addresses wraps around, so the
/// address space has no edge effects.
#[derive(Clone, Copy, PartialEq, Eq, Structural, Hash, Debug)]
pub struct TCoord(pub i64, pub i64);

impl TCoord {
    /// Componentwise wrapping addition of tile addresses.
    pub fn plus(self, other: TCoord) -> (r: TCoord)
        ensures
            r.0 == self.0.wrapping_add(other.0),
            r.1 == self.1.wrapping_add(other.1),
    {
        TCoord(self.0.wrapping_add(other.0), self.1.wrapping_add(other.1))
    }

    /// Componentwise wrapping subtraction of tile addresses.
    pub fn minus(self, other: TCoord) -> (r: TCoord)
        ensures
            r.0 == self.0.wrapping_sub(other.0),
            r.1 == self.1.wrapping_sub(other.1),
    {
        TCoord(self.0.wrapping_sub(other.0), self.1.wrapping_sub(other.1))
    }
}

/// Truth of the packed bit for the cell at column `x`, row `y` of a 4x8 tile,
/// for `x` in `[0,4)` and `y` in `[0,8)`.
pub open spec fn tile_bit(t: u32, x: int, y: int) -> bool {
    (t >> ((31 - 4 * y - x) as u32)) & 1 == 1
}

/// Truth of the bit for the cell at column `x`, row `y` of a 4x4 window
/// packed into the low 16 bits of `w`, for `x`, `y` in `[0,4)`.
pub open spec fn win_bit(w: u32, x: int, y: int) -> bool {
    (w >> ((15 - 4 * y - x) as u32)) & 1 == 1
}

/// An 8x16 block of cells assembled from a tile `t` and its three forward
/// neighbors: `r` to the right, `d` below, `dr` diagonally below-right.
/// Column `x` in `[0,8)`, row `y` in `[0,16)`.
pub open spec fn block_cell(t: u32, r: u32, d: u32, dr: u32, x: int, y: int) -> bool {
    if 0 <= x < 4 && 0 <= y < 8 {
        tile_bit(t, x, y)
    } else if 4 <= x < 8 && 0 <= y < 8 {
        tile_bit(r, x - 4, y)
    } else if 0 <= x < 4 && 8 <= y < 16 {
        tile_bit(d, x, y - 8)
    } else if 4 <= x < 8 && 8 <= y < 16 {
        tile_bit(dr, x - 4, y - 8)
    } else {
        false
    }
}

pub open spec fn cell_count(b: bool) -> nat {
    if b {
        1
    } else {
        0
    }
}

/// How many of the eight neighbors of block cell `(x, y)` are alive.
pub open spec fn block_neighbors(t: u32, r: u32, d: u32, dr: u32, x: int, y: int) -> nat {
    cell_count(block_cell(t, r, d, dr, x - 1, y - 1)) + cell_count(
        block_cell(t, r, d, dr, x, y - 1),
    ) + cell_count(block_cell(t, r, d, dr, x + 1, y - 1)) + cell_count(
        block_cell(t, r, d, dr, x - 1, y),
    ) + cell_count(block_cell(t, r, d, dr, x + 1, y)) + cell_count(
        block_cell(t, r, d, dr, x - 1, y + 1),
    ) + cell_count(block_cell(t, r, d, dr, x, y + 1)) + cell_count(
        block_cell(t, r, d, dr, x + 1, y + 1),
    )
}

/// The two-state automaton rule: a live cell stays alive when its neighbor
/// count is in `survivals`; a dead cell becomes alive when its neighbor count
/// is in `births`.
pub open spec fn next_state(alive: bool, n: nat, births: Seq<u32>, survivals: Seq<u32>) -> bool {
    if alive {
        survivals.contains(n as u32)
    } else {
        births.contains(n as u32)
    }
}

/// Next state of bit `(x, y)` of the tile produced from `t` and its forward
/// neighbors.  The produced tile's origin sits one cell right of and below
/// `t`'s origin, so bit `(x, y)` speaks of block cell `(x + 1, y + 1)`.
pub open spec fn step_bit_fwd(
    t: u32,
    r: u32,
    d: u32,
    dr: u32,
    births: Seq<u32>,
    survivals: Seq<u32>,
    x: int,
    y: int,
) -> bool {
    next_state(
        block_cell(t, r, d, dr, x + 1, y + 1),
        block_neighbors(t, r, d, dr, x + 1, y + 1),
        births,
        survivals,
    )
}

/// Next state of bit `(x, y)` of the tile produced from `t` and its backward
/// neighbors: `l` to the left, `u` above, `ul` diagonally above-left.  The
/// produced tile's origin sits one cell left of and above `t`'s origin; in
/// the 8x16 block `[ul u / l t]` that cell is block cell `(x + 3, y + 7)`.
pub open spec fn step_bit_bwd(
    t: u32,
    l: u32,
    u: u32,
    ul: u32,
    births: Seq<u32>,
    survivals: Seq<u32>,
    x: int,
    y: int,
) -> bool {
    next_state(
        block_cell(ul, u, l, t, x + 3, y + 7),
        block_neighbors(ul, u, l, t, x + 3, y + 7),
        births,
        survivals,
    )
}

/// Every single-bit extract is 0 or 1.
pub proof fn lemma_bit_extract_bound()
    by (bit_vector)
    ensures
        forall|v: u32, k: u32| #[trigger] ((v >> k) & 1) < 2,
{
}

/// Two values that agree on every one of the 32 bit positions are equal.
proof fn lemma_u32_from_bits(a: u32, b: u32)
    by (bit_vector)
    requires
        ((a >> 0u32) & 1) == ((b >> 0u32) & 1),
        ((a >> 1u32) & 1) == ((b >> 1u32) & 1),
        ((a >> 2u32) & 1) == ((b >> 2u32) & 1),
        ((a >> 3u32) & 1) == ((b >> 3u32) & 1),
        ((a >> 4u32) & 1) == ((b >> 4u32) & 1),
        ((a >> 5u32) & 1) == ((b >> 5u32) & 1),
        ((a >> 6u32) & 1) == ((b >> 6u32) & 1),
        ((a >> 7u32) & 1) == ((b >> 7u32) & 1),
        ((a >> 8u32) & 1) == ((b >> 8u32) & 1),
        ((a >> 9u32) & 1) == ((b >> 9u32) & 1),
        ((a >> 10u32) & 1) == ((b >> 10u32) & 1),
        ((a >> 11u32) & 1) == ((b >> 11u32) & 1),
        ((a >> 12u32) & 1) == ((b >> 12u32) & 1),
        ((a >> 13u32) & 1) == ((b >> 13u32) & 1),
        ((a >> 14u32) & 1) == ((b >> 14u32) & 1),
        ((a >> 15u32) & 1) == ((b >> 15u32) & 1),
        ((a >> 16u32) & 1) == ((b >> 16u32) & 1),
        ((a >> 17u32) & 1) == ((b >> 17u32) & 1),
        ((a >> 18u32) & 1) == ((b >> 18u32) & 1),
        ((a >> 19u32) & 1) == ((b >> 19u32) & 1),
        ((a >> 20u32) & 1) == ((b >> 20u32) & 1),
        ((a >> 21u32) & 1) == ((b >> 21u32) & 1),
        ((a >> 22u32) & 1) == ((b >> 22u32) & 1),
        ((a >> 23u32) & 1) == ((b >> 23u32) & 1),
        ((a >> 24u32) & 1) == ((b >> 24u32) & 1),
        ((a >> 25u32) & 1) == ((b >> 25u32) & 1),
        ((a >> 26u32) & 1) == ((b >> 26u32) & 1),
        ((a >> 27u32) & 1) == ((b >> 27u32) & 1),
        ((a >> 28u32) & 1) == ((b >> 28u32) & 1),
        ((a >> 29u32) & 1) == ((b >> 29u32) & 1),
        ((a >> 30u32) & 1) == ((b >> 30u32) & 1),
        ((a >> 31u32) & 1) == ((b >> 31u32) & 1),
    ensures
        a == b,
{
}

/// Two tiles that agree on every cell are the same packed value.
pub proof fn lemma_tile_ext(a: u32, b: u32)
    requires
        forall|x: int, y: int|
            0 <= x < 4 && 0 <= y < 8 ==> #[trigger] tile_bit(a, x, y) == tile_bit(b, x, y),
    ensures
        a == b,
{
    lemma_bit_extract_bound();
    assert forall|q: u32| q < 32 implies #[trigger] ((a >> q) & 1) == ((b >> q) & 1) by {
        let yy = ((31 - q) as int) / 4;
        let xx = ((31 - q) as int) % 4;
        lemma_fundamental_div_mod((31 - q) as int, 4);
        assert(0 <= xx < 4);
        assert(0 <= yy < 8);
        assert(tile_bit(a, xx, yy) == tile_bit(b, xx, yy));
        assert((31 - 4 * yy - xx) as u32 == q);
    }
    lemma_u32_from_bits(a, b);
}

/// The all-dead tile has no live cell.
pub proof fn lemma_zero_tile()
    by (bit_vector)
    ensures
        forall|k: u32| #[trigger] ((0u32 >> k) & 1) == 0,
{
}

/// Setting one bit leaves every other bit as it was.
proof fn lemma_or_bit(v: u32, p: u32, w: u32)
    by (bit_vector)
    requires
        p < 32,
        w == v | (1u32 << p),
    ensures
        forall|q: u32|
            q < 32 ==> ((#[trigger] (w >> q) & 1 == 1) == (if q == p {
                true
            } else {
                (v >> q) & 1 == 1
            })),
{
}

/// Clearing one bit leaves every other bit as it was.
proof fn lemma_andnot_bit(v: u32, p: u32, w: u32)
    by (bit_vector)
    requires
        p < 32,
        w == v & !(1u32 << p),
    ensures
        forall|q: u32|
            q < 32 ==> ((#[trigger] (w >> q) & 1 == 1) == (if q == p {
                false
            } else {
                (v >> q) & 1 == 1
            })),
{
}

/// Flipping one bit leaves every other bit as it was.
proof fn lemma_xor_bit(v: u32, p: u32, w: u32)
    by (bit_vector)
    requires
        p < 32,
        w == v ^ (1u32 << p),
    ensures
        forall|q: u32|
            q < 32 ==> ((#[trigger] (w >> q) & 1 == 1) == (if q == p {
                !((v >> q) & 1 == 1)
            } else {
                (v >> q) & 1 == 1
            })),
{
}

/// Writing cell `(tx, ty)` of a tile: `w` agrees with `v` on every cell but
/// `(tx, ty)`, which holds the written value.  `mode` selects the write:
/// set when `Some(true)`, clear when `Some(false)`, flip when `None`.
pub proof fn lemma_tile_write(v: u32, w: u32, tx: int, ty: int, mode: Option<bool>)
    requires
        0 <= tx < 4,
        0 <= ty < 8,
        w == (match mode {
            Some(true) => v | (1u32 << ((31 - 4 * ty - tx) as u32)),
            Some(false) => v & !(1u32 << ((31 - 4 * ty - tx) as u32)),
            None => v ^ (1u32 << ((31 - 4 * ty - tx) as u32)),
        }),
    ensures
        forall|x: int, y: int|
            0 <= x < 4 && 0 <= y < 8 ==> #[trigger] tile_bit(w, x, y) == (if x == tx && y == ty {
                match mode {
                    Some(u) => u,
                    None => !tile_bit(v, x, y),
                }
            } else {
                tile_bit(v, x, y)
            }),
{
    let p: u32 = (31 - 4 * ty - tx) as u32;
    match mode {
        Some(true) => lemma_or_bit(v, p, w),
        Some(false) => lemma_andnot_bit(v, p, w),
        None => lemma_xor_bit(v, p, w),
    }
    assert forall|x: int, y: int| 0 <= x < 4 && 0 <= y < 8 implies #[trigger] tile_bit(w, x, y) == (
    if x == tx && y == ty {
        match mode {
            Some(u) => u,
            None => !tile_bit(v, x, y),
        }
    } else {
        tile_bit(v, x, y)
    }) by {
        let q: u32 = (31 - 4 * y - x) as u32;
        assert(((w >> q) & 1 == 1) == (if q == p {
            match mode {
                Some(u) => u,
                None => !((v >> q) & 1 == 1),
            }
        } else {
            (v >> q) & 1 == 1
        }));
        if x == tx && y == ty {
            assert(q == p);
        } else {
            assert(31 - 4 * y - x != 31 - 4 * ty - tx);
            assert(q != p);
        }
    }
}

} // verus!
