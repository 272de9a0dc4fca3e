use vstd::prelude::*;
use crate::tile::tile_bit;
use vstd::arithmetic::div_mod::{lemma_fundamental_div_mod, lemma_fundamental_div_mod_converse_div,
    lemma_fundamental_div_mod_converse_mod};

verus! {

/// The tile value stored under `k`, with absent addresses read as all-dead.
pub open spec fn map_at(m: Map<(i64, i64), u32>, k: (i64, i64)) -> u32 {
    if m.contains_key(k) {
        m[k]
    } else {
        0
    }
}

/// The effective coordinate used for addressing: on odd generations the tile
/// origin is offset by one cell, so 1 is subtracted, wrapping around.
pub open spec fn eff(v: i64, odd: bool) -> i64 {
    if odd {
        v.wrapping_sub(1)
    } else {
        v
    }
}

/// The tile index of a cell coordinate along the 4-wide axis: floor division
/// by 4, so negative coordinates resolve to the correct tile across zero.
pub open spec fn tdiv4(v: i64) -> i64 {
    ((v as int) / 4) as i64
}

/// The in-tile column of a cell coordinate: the non-negative remainder mod 4.
pub open spec fn tmod4(v: i64) -> int {
    (v as int) % 4
}

/// The tile index of a cell coordinate along the 8-tall axis.
pub open spec fn tdiv8(v: i64) -> i64 {
    ((v as int) / 8) as i64
}

/// The in-tile row of a cell coordinate: the non-negative remainder mod 8.
pub open spec fn tmod8(v: i64) -> int {
    (v as int) % 8
}

/// The address of the tile holding the (effective) cell `(x, y)`.
pub open spec fn cell_key(x: i64, y: i64) -> (i64, i64) {
    (tdiv4(x), tdiv8(y))
}

/// Whether the (effective) cell `(x, y)` is alive in the tile map `m`.
pub open spec fn alive_in(m: Map<(i64, i64), u32>, x: i64, y: i64) -> bool {
    tile_bit(map_at(m, cell_key(x, y)), tmod4(x), tmod8(y))
}

/// An arithmetic shift right by 2 splits off floor division by 4; the masked
/// low bits are the non-negative remainder.
proof fn lemma_split4_bits(v: i64)
    by (bit_vector)
    ensures
        0 <= (v & 3) < 4,
        v == 4 * (v >> 2u32) + (v & 3),
{
}

/// An arithmetic shift right by 3 splits off floor division by 8.
proof fn lemma_split8_bits(v: i64)
    by (bit_vector)
    ensures
        0 <= (v & 7) < 8,
        v == 8 * (v >> 3u32) + (v & 7),
{
}

/// Tile index and in-tile column of a cell coordinate along the 4-wide axis.
pub(crate) fn split4(v: i64) -> (r: (i64, u32))
    ensures
        r.0 == tdiv4(v),
        r.1 == tmod4(v),
        r.1 < 4,
{
    proof {
        lemma_split4_bits(v);
        lemma_fundamental_div_mod_converse_div(v as int, 4, (v >> 2u32) as int, (v & 3) as int);
        lemma_fundamental_div_mod_converse_mod(v as int, 4, (v >> 2u32) as int, (v & 3) as int);
    }
    (v >> 2u32, (v & 3) as u32)
}

/// Tile index and in-tile row of a cell coordinate along the 8-tall axis.
pub(crate) fn split8(v: i64) -> (r: (i64, u32))
    ensures
        r.0 == tdiv8(v),
        r.1 == tmod8(v),
        r.1 < 8,
{
    proof {
        lemma_split8_bits(v);
        lemma_fundamental_div_mod_converse_div(v as int, 8, (v >> 3u32) as int, (v & 7) as int);
        lemma_fundamental_div_mod_converse_mod(v as int, 8, (v >> 3u32) as int, (v & 7) as int);
    }
    (v >> 3u32, (v & 7) as u32)
}

/// Two cell coordinates with the same tile index and the same in-tile offset
/// are the same coordinate.
pub proof fn lemma_addr_unique(x1: i64, y1: i64, x2: i64, y2: i64)
    requires
        cell_key(x1, y1) == cell_key(x2, y2),
        tmod4(x1) == tmod4(x2),
        tmod8(y1) == tmod8(y2),
    ensures
        x1 == x2,
        y1 == y2,
{
    lemma_fundamental_div_mod(x1 as int, 4);
    lemma_fundamental_div_mod(x2 as int, 4);
    lemma_fundamental_div_mod(y1 as int, 8);
    lemma_fundamental_div_mod(y2 as int, 8);
}

/// Subtracting and then adding 1 with wraparound returns to the start, and
/// equal offset coordinates come from equal coordinates.
pub proof fn lemma_eff_bijective(a: i64, b: i64)
    ensures
        a.wrapping_sub(1).wrapping_add(1) == a,
        a.wrapping_add(1).wrapping_sub(1) == a,
        a.wrapping_sub(1) == b.wrapping_sub(1) ==> a == b,
{
}

/// Whether every cell of the tile at address `k` is a representable
/// coordinate.  Every address that a cell resolves to is in this range;
/// addresses beyond it can only enter the maps through frontier propagation
/// at the far ends of the coordinate space, and no cell maps to them.
pub open spec fn in_key_range(k: (i64, i64)) -> bool {
    &&& -0x2000_0000_0000_0000 <= k.0 <= 0x1fff_ffff_ffff_ffff
    &&& -0x1000_0000_0000_0000 <= k.1 <= 0x0fff_ffff_ffff_ffff
}

/// The cell coordinate whose address is tile `k`, offset `(tx, ty)`: the
/// inverse of the addressing of `cell_key` under `in_key_range`.
pub open spec fn decode_cell(k: (i64, i64), tx: int, ty: int, odd: bool) -> (i64, i64) {
    let x0 = (4 * k.0 + tx) as i64;
    let y0 = (8 * k.1 + ty) as i64;
    if odd {
        (x0.wrapping_add(1), y0.wrapping_add(1))
    } else {
        (x0, y0)
    }
}

/// Decoding a tile address and offset gives the one cell that resolves back
/// to that address and offset.
pub proof fn lemma_decode_addr(k: (i64, i64), tx: int, ty: int, odd: bool)
    requires
        in_key_range(k),
        0 <= tx < 4,
        0 <= ty < 8,
    ensures
        ({
            let p = decode_cell(k, tx, ty, odd);
            &&& cell_key(eff(p.0, odd), eff(p.1, odd)) == k
            &&& tmod4(eff(p.0, odd)) == tx
            &&& tmod8(eff(p.1, odd)) == ty
        }),
{
    let x0 = (4 * k.0 + tx) as i64;
    let y0 = (8 * k.1 + ty) as i64;
    let p = decode_cell(k, tx, ty, odd);
    lemma_eff_bijective(x0, x0);
    lemma_eff_bijective(y0, y0);
    assert(eff(p.0, odd) == x0);
    assert(eff(p.1, odd) == y0);
    lemma_fundamental_div_mod_converse_div(x0 as int, 4, k.0 as int, tx);
    lemma_fundamental_div_mod_converse_mod(x0 as int, 4, k.0 as int, tx);
    lemma_fundamental_div_mod_converse_div(y0 as int, 8, k.1 as int, ty);
    lemma_fundamental_div_mod_converse_mod(y0 as int, 8, k.1 as int, ty);
}

/// Every cell's address is in range, and decoding that address returns the
/// cell.
pub proof fn lemma_addr_decode(x: i64, y: i64, odd: bool)
    ensures
        ({
            let xe = eff(x, odd);
            let ye = eff(y, odd);
            let k = cell_key(xe, ye);
            &&& in_key_range(k)
            &&& decode_cell(k, tmod4(xe), tmod8(ye), odd) == (x, y)
        }),
{
    let xe = eff(x, odd);
    let ye = eff(y, odd);
    lemma_fundamental_div_mod(xe as int, 4);
    lemma_fundamental_div_mod(ye as int, 8);
    lemma_eff_bijective(x, x);
    lemma_eff_bijective(y, y);
}

} // verus!
