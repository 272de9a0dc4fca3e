use vstd::prelude::*;
use crate::universe::Universe;
use vstd::string::StrSliceExecFns;

verus! {

/// Why pattern parsing stopped early.  The only malformed input a
/// run-length-encoded pattern can have is a run count too large to
/// accumulate.
#[derive(Clone, Copy, PartialEq, Eq, Structural, Debug)]
pub enum ParseError {
    CountOverflow,
}

/// One cell write decoded from pattern text.
#[derive(Clone, Copy, PartialEq, Eq, Structural, Debug)]
pub struct CellWrite {
    pub x: i64,
    pub y: i64,
    pub alive: bool,
}

/// The parser state after some prefix of the pattern text: the cursor, the
/// column parsing restarts at on a row break, the pending run count, whether
/// the cursor stands at the start of a line, whether the current line is a
/// header or comment being skipped, whether `!` ended the pattern, whether a
/// run count overflowed, and the cell writes decoded so far.
pub struct RleState {
    pub x: i64,
    pub y: i64,
    pub start_x: i64,
    pub repeat: Option<u32>,
    pub line_start: bool,
    pub skipping: bool,
    pub done: bool,
    pub failed: bool,
    pub writes: Seq<CellWrite>,
}

/// Whitespace, as Unicode defines it; ignored inside a pattern line.
pub open spec fn is_space_char(c: char) -> bool {
    let u = c as u32;
    ||| u == 32
    ||| u == 9
    ||| u == 11
    ||| u == 12
    ||| u == 13
    ||| u == 0x85
    ||| u == 0xA0
    ||| u == 0x1680
    ||| (0x2000 <= u && u <= 0x200A)
    ||| u == 0x2028
    ||| u == 0x2029
    ||| u == 0x202F
    ||| u == 0x3000
}

/// A decimal digit.
pub open spec fn is_digit_char(c: char) -> bool {
    48 <= (c as u32) && (c as u32) <= 57
}

/// `x` advanced `n` cells to the right, wrapping around.
pub open spec fn advanced(x: i64, n: nat) -> i64
    decreases n,
{
    if n == 0 {
        x
    } else {
        advanced(x, (n - 1) as nat).wrapping_add(1)
    }
}

/// The run of `n` writes emitted for one run-length command: consecutive
/// cells starting at `(x, y)`.
pub open spec fn run_writes(x: i64, y: i64, n: nat, alive: bool) -> Seq<CellWrite> {
    Seq::new(n, |i: int| CellWrite { x: advanced(x, i as nat), y, alive })
}

/// How many times the pending run count repeats a command: once when no
/// count was accumulated.
pub open spec fn reps(st: RleState) -> nat {
    match st.repeat {
        None => 1,
        Some(n) => n as nat,
    }
}

/// The parser state at the start of a pattern.
pub open spec fn rle_init(x: i64, y: i64) -> RleState {
    RleState {
        x,
        y,
        start_x: x,
        repeat: None,
        line_start: true,
        skipping: false,
        done: false,
        failed: false,
        writes: Seq::empty(),
    }
}

/// One character of pattern text applied to the parser state.  Lines whose
/// first character is `#` or `x` are skipped; `!` ends the pattern; `b` or
/// `B` emits a run of dead cells; `$` breaks the row; digits accumulate a
/// base-10 run count, failing beyond the supported width; whitespace is
/// ignored; any other character emits a run of live cells.
pub open spec fn rle_step(st: RleState, c: char) -> RleState {
    if st.done || st.failed {
        st
    } else if c == '\n' {
        RleState { line_start: true, skipping: false, repeat: None, ..st }
    } else if st.skipping {
        st
    } else if st.line_start && (c == '#' || c == 'x') {
        RleState { skipping: true, line_start: false, ..st }
    } else {
        let st1 = RleState { line_start: false, ..st };
        if c == '!' {
            RleState { done: true, ..st1 }
        } else if c == 'b' || c == 'B' {
            RleState {
                x: advanced(st1.x, reps(st1)),
                repeat: None,
                writes: st1.writes + run_writes(st1.x, st1.y, reps(st1), false),
                ..st1
            }
        } else if c == '$' {
            RleState { x: st1.start_x, y: advanced(st1.y, reps(st1)), repeat: None, ..st1 }
        } else if is_space_char(c) {
            st1
        } else if is_digit_char(c) {
            let d = (c as u32) - 48;
            match st1.repeat {
                None => RleState { repeat: Some(d as u32), ..st1 },
                Some(p) => if 10 * (p as int) + d > 0x7fff_ffff {
                    RleState { failed: true, ..st1 }
                } else {
                    RleState { repeat: Some((10 * (p as int) + d) as u32), ..st1 }
                },
            }
        } else {
            RleState {
                x: advanced(st1.x, reps(st1)),
                repeat: None,
                writes: st1.writes + run_writes(st1.x, st1.y, reps(st1), true),
                ..st1
            }
        }
    }
}

/// The parser state after the first `i` characters of the pattern.
pub open spec fn rle_at(cs: Seq<char>, x: i64, y: i64, i: int) -> RleState
    decreases i,
{
    if i <= 0 {
        rle_init(x, y)
    } else {
        rle_step(rle_at(cs, x, y, i - 1), cs[i - 1])
    }
}

/// The parser state after the whole pattern.
pub open spec fn rle_parse(cs: Seq<char>, x: i64, y: i64) -> RleState {
    rle_at(cs, x, y, cs.len() as int)
}

/// The last write to cell `(a, b)` in a sequence of writes, if any: the one
/// that decides the cell's final state.
pub open spec fn last_write(ws: Seq<CellWrite>, a: i64, b: i64) -> Option<bool>
    decreases ws.len(),
{
    if ws.len() == 0 {
        None
    } else if ws.last().x == a && ws.last().y == b {
        Some(ws.last().alive)
    } else {
        last_write(ws.drop_last(), a, b)
    }
}

/// Appending one write decides that write's cell and leaves every other
/// cell's last write as it was.
proof fn lemma_last_write_push(ws: Seq<CellWrite>, w: CellWrite, a: i64, b: i64)
    ensures
        last_write(ws.push(w), a, b) == (if a == w.x && b == w.y {
            Some(w.alive)
        } else {
            last_write(ws, a, b)
        }),
{
    assert(ws.push(w).drop_last() =~= ws);
}

/// Once the parser is done or failed, further characters change nothing.
proof fn lemma_rle_absorbed(cs: Seq<char>, x: i64, y: i64, j: int, i: int)
    requires
        0 <= j <= i <= cs.len(),
        rle_at(cs, x, y, j).done || rle_at(cs, x, y, j).failed,
    ensures
        rle_at(cs, x, y, i) == rle_at(cs, x, y, j),
    decreases i - j,
{
    if i > j {
        lemma_rle_absorbed(cs, x, y, j, i - 1);
    }
}

/// Whitespace, as Unicode defines it.
fn char_is_space(c: char) -> (r: bool)
    ensures
        r == is_space_char(c),
{
    let u = c as u32;
    u == 32 || u == 9 || u == 11 || u == 12 || u == 13 || u == 0x85 || u == 0xA0 || u == 0x1680 || (
    0x2000 <= u && u <= 0x200A) || u == 0x2028 || u == 0x2029 || u == 0x202F || u == 0x3000
}

impl Universe {
    /// Applies run-length-encoded pattern text at the anchor `(x, y)`:
    /// every decoded cell write is performed in order, so the final state of
    /// each cell is its last decoded write, or its old state when the
    /// pattern never writes it.  A run count too large to accumulate stops
    /// parsing with an error; the writes decoded before it stay applied.
    #[verifier::rlimit(60)]
    pub fn set_rle(&mut self, x: i64, y: i64, rle: &str) -> (r: Result<(), ParseError>)
        ensures
            final(self).wf() == old(self).wf(),
            final(self).generation == old(self).generation,
            final(self).rule_table == old(self).rule_table,
            final(self).other_tiles() == old(self).other_tiles(),
            old(self).active_set().subset_of(final(self).active_set()),
            ({
                let st = rle_parse(rle@, x, y);
                &&& r == (if st.failed {
                    Err::<(), ParseError>(ParseError::CountOverflow)
                } else {
                    Ok::<(), ParseError>(())
                })
                &&& forall|a: i64, b: i64|
                    #[trigger] final(self).cell_alive(a, b) == (match last_write(st.writes, a, b) {
                        Some(v) => v,
                        None => old(self).cell_alive(a, b),
                    })
            }),
    {
        let n = rle.unicode_len();
        let mut cs: Vec<char> = Vec::new();
        let mut i: usize = 0;
        while i < n
            invariant
                n == rle@.len(),
                i <= n,
                cs@ == rle@.take(i as int),
            decreases n - i,
        {
            cs.push(rle.get_char(i));
            proof {
                assert(cs@ =~= rle@.take(i + 1));
            }
            i += 1;
        }
        proof {
            assert(cs@ =~= rle@);
        }

        let ghost base = *old(self);
        let start_x = x;
        let mut cx = x;
        let mut cy = y;
        let mut repeat: Option<u32> = None;
        let mut line_start: bool = true;
        let mut skipping: bool = false;
        let mut j: usize = 0;
        while j < n
            invariant
                old(self).wf() == self.wf(),
                old(self).generation == self.generation,
                old(self).rule_table == self.rule_table,
                old(self).other_tiles() == self.other_tiles(),
                old(self).active_set().subset_of(self.active_set()),
                n == rle@.len(),
                cs@ == rle@,
                j <= n,
                base == *old(self),
                ({
                    let st = rle_at(rle@, x, y, j as int);
                    &&& !st.done && !st.failed
                    &&& st.x == cx
                    &&& st.y == cy
                    &&& st.start_x == start_x
                    &&& st.repeat == repeat
                    &&& st.line_start == line_start
                    &&& st.skipping == skipping
                    &&& (match repeat {
                        Some(p) => p <= 0x7fff_ffff,
                        None => true,
                    })
                    &&& forall|a: i64, b: i64|
                        #[trigger] self.cell_alive(a, b) == (match last_write(st.writes, a, b) {
                            Some(v) => v,
                            None => old(self).cell_alive(a, b),
                        })
                }),
            decreases n - j,
        {
            let ghost st = rle_at(rle@, x, y, j as int);
            let c = cs[j];
            proof {
                assert(rle_at(rle@, x, y, j + 1) == rle_step(st, c));
            }
            if c == '\n' {
                line_start = true;
                skipping = false;
                repeat = None;
            } else if skipping {
            } else if line_start && (c == '#' || c == 'x') {
                skipping = true;
                line_start = false;
            } else {
                line_start = false;
                if c == '!' {
                    proof {
                        lemma_rle_absorbed(rle@, x, y, j + 1, n as int);
                    }
                    return Ok(());
                } else if c == 'b' || c == 'B' {
                    let count: u32 = match repeat {
                        None => 1,
                        Some(p) => p,
                    };
                    self.emit_run(cx, cy, count, false, Ghost(st.writes), Ghost(base));
                    cx = advance_by(cx, count);
                    repeat = None;
                } else if c == '$' {
                    let count: u32 = match repeat {
                        None => 1,
                        Some(p) => p,
                    };
                    cy = advance_by(cy, count);
                    cx = start_x;
                    repeat = None;
                } else if char_is_space(c) {
                } else {
                    let u = c as u32;
                    if u >= 48 && u <= 57 {
                        let d = u - 48;
                        match repeat {
                            None => {
                                repeat = Some(d);
                            },
                            Some(p) => {
                                if p > (0x7fff_ffff - d) / 10 {
                                    proof {
                                        vstd::arithmetic::div_mod::lemma_fundamental_div_mod(
                                            0x7fff_ffff - d,
                                            10,
                                        );
                                        assert(rle_step(st, c).failed);
                                        lemma_rle_absorbed(rle@, x, y, j + 1, n as int);
                                    }
                                    return Err(ParseError::CountOverflow);
                                }
                                proof {
                                    vstd::arithmetic::div_mod::lemma_fundamental_div_mod(
                                        0x7fff_ffff - d,
                                        10,
                                    );
                                }
                                repeat = Some(10 * p + d);
                            },
                        }
                    } else {
                        let count: u32 = match repeat {
                            None => 1,
                            Some(p) => p,
                        };
                        self.emit_run(cx, cy, count, true, Ghost(st.writes), Ghost(base));
                        cx = advance_by(cx, count);
                        repeat = None;
                    }
                }
            }
            j += 1;
        }
        Ok(())
    }

    /// Performs one run of `count` consecutive cell writes starting at
    /// `(x0, y0)`, as one run-length command decodes to.  `prior` are the
    /// writes already applied on top of the baseline universe `base`.
    fn emit_run(
        &mut self,
        x0: i64,
        y0: i64,
        count: u32,
        alive: bool,
        prior: Ghost<Seq<CellWrite>>,
        base: Ghost<Universe>,
    )
        requires
            forall|a: i64, b: i64|
                #[trigger] old(self).cell_alive(a, b) == (match last_write(prior@, a, b) {
                    Some(v) => v,
                    None => base@.cell_alive(a, b),
                }),
        ensures
            final(self).wf() == old(self).wf(),
            final(self).generation == old(self).generation,
            final(self).rule_table == old(self).rule_table,
            final(self).other_tiles() == old(self).other_tiles(),
            old(self).active_set().subset_of(final(self).active_set()),
            forall|a: i64, b: i64|
                #[trigger] final(self).cell_alive(a, b) == (match last_write(
                    prior@ + run_writes(x0, y0, count as nat, alive),
                    a,
                    b,
                ) {
                    Some(v) => v,
                    None => base@.cell_alive(a, b),
                }),
    {
        proof {
            assert(prior@ + run_writes(x0, y0, 0, alive) =~= prior@);
        }
        let mut k: u32 = 0;
        let mut cur = x0;
        while k < count
            invariant
                k <= count,
                cur == advanced(x0, k as nat),
                self.wf() == old(self).wf(),
                self.generation == old(self).generation,
                self.rule_table == old(self).rule_table,
                self.other_tiles() == old(self).other_tiles(),
                old(self).active_set().subset_of(self.active_set()),
                forall|a: i64, b: i64|
                    #[trigger] self.cell_alive(a, b) == (match last_write(
                        prior@ + run_writes(x0, y0, k as nat, alive),
                        a,
                        b,
                    ) {
                        Some(v) => v,
                        None => base@.cell_alive(a, b),
                    }),
            decreases count - k,
        {
            if alive {
                self.set_cell(cur, y0);
            } else {
                self.kill_cell(cur, y0);
            }
            proof {
                let w = CellWrite { x: cur, y: y0, alive };
                let ws = prior@ + run_writes(x0, y0, k as nat, alive);
                assert(prior@ + run_writes(x0, y0, (k + 1) as nat, alive) =~= ws.push(w));
                assert forall|a: i64, b: i64|
                    #[trigger] self.cell_alive(a, b) == (match last_write(ws.push(w), a, b) {
                        Some(v) => v,
                        None => base@.cell_alive(a, b),
                    }) by {
                    lemma_last_write_push(ws, w, a, b);
                }
            }
            cur = cur.wrapping_add(1);
            k += 1;
        }
    }
}

/// `x0` advanced `count` cells, wrapping around.
fn advance_by(x0: i64, count: u32) -> (r: i64)
    ensures
        r == advanced(x0, count as nat),
{
    let mut k: u32 = 0;
    let mut cur = x0;
    while k < count
        invariant
            k <= count,
            cur == advanced(x0, k as nat),
        decreases count - k,
    {
        cur = cur.wrapping_add(1);
        k += 1;
    }
    cur
}

} // verus!
