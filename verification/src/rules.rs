use vstd::prelude::*;
use crate::tile::{win_bit, cell_count, next_state, lemma_bit_extract_bound};

verus! {

/// How many of the eight neighbors of window cell `(x, y)` are alive, for a
/// 4x4 window packed into the low 16 bits of `w` and `x`, `y` in `[1,3)`.
pub open spec fn win_neighbors(w: u32, x: int, y: int) -> nat {
    cell_count(win_bit(w, x - 1, y - 1)) + cell_count(win_bit(w, x, y - 1)) + cell_count(
        win_bit(w, x + 1, y - 1),
    ) + cell_count(win_bit(w, x - 1, y)) + cell_count(win_bit(w, x + 1, y)) + cell_count(
        win_bit(w, x - 1, y + 1),
    ) + cell_count(win_bit(w, x, y + 1)) + cell_count(win_bit(w, x + 1, y + 1))
}

/// Next state of the interior window cell `(x, y)` under the given rule.
pub open spec fn entry_bit(w: u32, births: Seq<u32>, survivals: Seq<u32>, x: int, y: int) -> bool {
    next_state(win_bit(w, x, y), win_neighbors(w, x, y), births, survivals)
}

/// The 4-bit packed table entry for the 16-bit window `w`: the next states of
/// the four interior cells of the window, at bit offsets 0 (cell `(2,2)`),
/// 1 (cell `(1,2)`), 4 (cell `(2,1)`) and 5 (cell `(1,1)`), so that a shifted
/// copy of the entry lands directly in its final tile position.
pub open spec fn table_entry(w: u32, births: Seq<u32>, survivals: Seq<u32>) -> u32 {
    ((if entry_bit(w, births, survivals, 2, 2) {
        1int
    } else {
        0int
    }) + (if entry_bit(w, births, survivals, 1, 2) {
        2int
    } else {
        0int
    }) + (if entry_bit(w, births, survivals, 2, 1) {
        16int
    } else {
        0int
    }) + (if entry_bit(w, births, survivals, 1, 1) {
        32int
    } else {
        0int
    })) as u32
}

/// A rule specification compiled into a 65536-entry lookup table from a
/// 16-bit neighborhood context to a 4-bit packed result.
pub struct RuleTable {
    /// Live-neighbor counts that make a dead cell become alive.
    pub births: Vec<u32>,
    /// Live-neighbor counts that keep a live cell alive.
    pub survivals: Vec<u32>,
    /// The compiled table, one entry per 16-bit window.
    pub table: Vec<u32>,
}

impl RuleTable {
    /// The table matches the rule specification it was built from.
    pub open spec fn wf(&self) -> bool {
        &&& self.table@.len() == 65536
        &&& forall|i: int|
            0 <= i < 65536 ==> self.table@[i] == table_entry(i as u32, self.births@, self.survivals@)
    }

    /// Compiles the rule specification into the full lookup table.  A
    /// neighbor count can only be 0 to 8, so rule values outside that range
    /// are rejected here, before the table is built.
    pub fn new(b: Vec<u32>, s: Vec<u32>) -> (r: RuleTable)
        requires
            forall|i: int| 0 <= i < b@.len() ==> b@[i] <= 8,
            forall|i: int| 0 <= i < s@.len() ==> s@[i] <= 8,
        ensures
            r.wf(),
            r.births@ == b@,
            r.survivals@ == s@,
    {
        let mut table: Vec<u32> = Vec::new();
        let mut idx: usize = 0;
        while idx < 65536
            invariant
                idx <= 65536,
                table@.len() == idx,
                forall|i: int| 0 <= i < idx ==> table@[i] == table_entry(i as u32, b@, s@),
            decreases 65536 - idx,
        {
            let entry = entry_for(idx as u32, &b, &s);
            table.push(entry);
            idx += 1;
        }
        RuleTable { births: b, survivals: s, table }
    }

    /// One table lookup: the packed next states for the window `w`.
    pub fn lookup(&self, w: u32) -> (r: u32)
        requires
            self.wf(),
            w < 65536,
        ensures
            r == table_entry(w, self.births@, self.survivals@),
    {
        self.table[w as usize]
    }
}

impl Default for RuleTable {
    /// The table for the most widely known rule of the family: births on 3
    /// neighbors, survival on 2 or 3.
    fn default() -> (r: RuleTable)
        ensures
            r.wf(),
            r.births@ == seq![3u32],
            r.survivals@ == seq![2u32, 3u32],
    {
        let b: Vec<u32> = vec![3];
        let s: Vec<u32> = vec![2, 3];
        let r = RuleTable::new(b, s);
        proof {
            assert(r.births@ =~= seq![3u32]);
            assert(r.survivals@ =~= seq![2u32, 3u32]);
        }
        r
    }
}

/// Live-neighbor count of interior window cell (2,2): bits of the cells
/// (1..4, 1..4) without the center.
fn count22(w: u32) -> (n: u32)
    ensures
        n == win_neighbors(w, 2, 2),
{
    proof {
        lemma_bit_extract_bound();
    }
    ((w >> 10u32) & 1) + ((w >> 9u32) & 1) + ((w >> 8u32) & 1) + ((w >> 6u32) & 1) + ((w >> 4u32)
        & 1) + ((w >> 2u32) & 1) + ((w >> 1u32) & 1) + ((w >> 0u32) & 1)
}

/// Live-neighbor count of interior window cell (1,2): bits of the cells
/// (0..3, 1..4) without the center.
fn count12(w: u32) -> (n: u32)
    ensures
        n == win_neighbors(w, 1, 2),
{
    proof {
        lemma_bit_extract_bound();
    }
    ((w >> 11u32) & 1) + ((w >> 10u32) & 1) + ((w >> 9u32) & 1) + ((w >> 7u32) & 1) + ((w >> 5u32)
        & 1) + ((w >> 3u32) & 1) + ((w >> 2u32) & 1) + ((w >> 1u32) & 1)
}

/// Live-neighbor count of interior window cell (2,1): bits of the cells
/// (1..4, 0..3) without the center.
fn count21(w: u32) -> (n: u32)
    ensures
        n == win_neighbors(w, 2, 1),
{
    proof {
        lemma_bit_extract_bound();
    }
    ((w >> 14u32) & 1) + ((w >> 13u32) & 1) + ((w >> 12u32) & 1) + ((w >> 10u32) & 1) + ((w >> 8u32)
        & 1) + ((w >> 6u32) & 1) + ((w >> 5u32) & 1) + ((w >> 4u32) & 1)
}

/// Live-neighbor count of interior window cell (1,1): bits of the cells
/// (0..3, 0..3) without the center.
fn count11(w: u32) -> (n: u32)
    ensures
        n == win_neighbors(w, 1, 1),
{
    proof {
        lemma_bit_extract_bound();
    }
    ((w >> 15u32) & 1) + ((w >> 14u32) & 1) + ((w >> 13u32) & 1) + ((w >> 11u32) & 1) + ((w >> 9u32)
        & 1) + ((w >> 7u32) & 1) + ((w >> 6u32) & 1) + ((w >> 5u32) & 1)
}

/// The packed table entry for one window context, resolved by extracting,
/// for each of the four interior cells, the cell's own bit and its eight
/// neighbor bits.
#[verifier::rlimit(60)]
fn entry_for(w: u32, b: &Vec<u32>, s: &Vec<u32>) -> (entry: u32)
    ensures
        entry == table_entry(w, b@, s@),
{
    proof {
        lemma_bit_extract_bound();
    }
    let a22 = (w >> 5u32) & 1;
    let n22 = count22(w);
    let a12 = (w >> 6u32) & 1;
    let n12 = count12(w);
    let a21 = (w >> 9u32) & 1;
    let n21 = count21(w);
    let a11 = (w >> 10u32) & 1;
    let n11 = count11(w);

    let e22: u32 = if next_count(a22 == 1, n22, b, s) {
        1
    } else {
        0
    };
    let e12: u32 = if next_count(a12 == 1, n12, b, s) {
        1
    } else {
        0
    };
    let e21: u32 = if next_count(a21 == 1, n21, b, s) {
        1
    } else {
        0
    };
    let e11: u32 = if next_count(a11 == 1, n11, b, s) {
        1
    } else {
        0
    };

    let entry: u32 = e22 + 2 * e12 + 16 * e21 + 32 * e11;
    proof {
        assert(win_bit(w, 2, 2) == (a22 == 1));
        assert(win_bit(w, 1, 2) == (a12 == 1));
        assert(win_bit(w, 2, 1) == (a21 == 1));
        assert(win_bit(w, 1, 1) == (a11 == 1));
        assert(entry == table_entry(w, b@, s@));
    }
    entry
}

/// Whether a cell with the given state and live-neighbor count is alive in
/// the next generation.
fn next_count(alive: bool, n: u32, b: &Vec<u32>, s: &Vec<u32>) -> (r: bool)
    ensures
        r == next_state(alive, n as nat, b@, s@),
{
    if alive {
        has_count(s, n)
    } else {
        has_count(b, n)
    }
}

/// Whether `x` occurs in `v`.
fn has_count(v: &Vec<u32>, x: u32) -> (r: bool)
    ensures
        r == v@.contains(x),
{
    let mut i: usize = 0;
    while i < v.len()
        invariant
            i <= v@.len(),
            forall|j: int| 0 <= j < i ==> v@[j] != x,
        decreases v@.len() - i,
    {
        if v[i] == x {
            assert(v@[i as int] == x);
            return true;
        }
        i += 1;
    }
    false
}

} // verus!
