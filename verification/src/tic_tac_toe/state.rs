//! The incremental board representation that the search works on.
use vstd::prelude::*;
use std::collections::HashMap;
use std::time::Instant;
use crate::tic_tac_toe::board::{C_EMPTY, C_X, C_O, C_WALL, SIDE_X, SIDE_O, mark};
use crate::tic_tac_toe::lines::{
    build_lines_3, build_lines_4, line_cells, lines_cells, lines_sorted_in_board, lines_through,
    u16s_as_ints, all_lines, line_ok, lemma_line_increasing,
};
use crate::tic_tac_toe::zobrist::{
    build_zobrist, splitmix64, zobrist_hash, zobrist_fold, zobrist_key, splitmix_mix, splitmix_step,
    GOLDEN_GAMMA, lemma_zobrist_hash_update,
};
use crate::tic_tac_toe::clock::{instant_now, instant_reached};
use crate::tic_tac_toe::ordering::scores_descending;
use crate::tic_tac_toe::ordering::{lemma_sorted_first, sort_by_score_desc, move_to_front, sorted_by_score, lemma_sorted_by_score};

verus! {

broadcast use vstd::std_specs::hash::group_hash_axioms;

/// The factor by which a finished game's score outweighs any static evaluation.
pub const TERMINAL_SCALE: i32 = 1000000;

/// The number of plies for which the search keeps killer moves.
pub const MAX_PLY: usize = 32;

/// How a stored search value relates to the true value of the position.
#[derive(Clone, Copy, PartialEq, Eq)]
pub enum TTBound {
    Exact,
    Lower,
    Upper,
}

/// What the transposition table remembers of a searched position.
#[derive(Clone, Copy)]
pub struct TTEntry {
    pub depth: u8,
    pub value: i32,
    pub best_move: u16,
    pub bound: TTBound,
    /// The position (cells and side to move) the entry was made for.
    pub position: Ghost<(Seq<u8>, i32)>,
}

/// A cell of the board that the agent is asked to play on.
#[derive(Clone, Copy, Debug, PartialEq, Eq)]
pub enum Cell {
    Empty,
    X,
    O,
    Wall,
}

/// The code of a cell.
pub open spec fn cell_code(c: Cell) -> u8 {
    match c {
        Cell::Empty => C_EMPTY,
        Cell::X => C_X,
        Cell::O => C_O,
        Cell::Wall => C_WALL,
    }
}

/// The cells of a board, row after row.
pub open spec fn board_codes(board: Seq<Vec<Cell>>, n: int) -> Seq<u8> {
    Seq::new((n * n) as nat, |idx: int| cell_code(board[idx / n]@[idx % n]))
}

/// The number of the first `t` cells named by `w` that hold `c`.
pub open spec fn count_marks(cells: Seq<u8>, w: Seq<int>, c: u8, t: nat) -> nat
    decreases t,
{
    if t == 0 {
        0
    } else {
        count_marks(cells, w, c, (t - 1) as nat) + if cells[w[t - 1]] == c {
            1nat
        } else {
            0nat
        }
    }
}

/// The number of cells of a line that hold `c`.
pub open spec fn line_count<const L: usize>(cells: Seq<u8>, line: [u16; L], c: u8) -> nat {
    count_marks(cells, line_cells(line), c, L as nat)
}

/// The counters of a family of lines agree with the cells.
pub open spec fn counts_match<const L: usize>(
    cells: Seq<u8>,
    lines: Seq<[u16; L]>,
    xs: Seq<u8>,
    os: Seq<u8>,
) -> bool {
    &&& xs.len() == lines.len()
    &&& os.len() == lines.len()
    &&& forall|k: int|
        0 <= k < lines.len() ==> (#[trigger] xs[k]) as nat == line_count(cells, lines[k], C_X)
            && os[k] as nat == line_count(cells, lines[k], C_O)
}

/// For every cell, the list of the lines through it, in increasing order.
pub open spec fn index_matches<const L: usize>(
    lines: Seq<[u16; L]>,
    per_cell: Seq<Vec<u16>>,
    cell_count: int,
) -> bool {
    &&& per_cell.len() == cell_count
    &&& forall|idx: int|
        0 <= idx < cell_count ==> u16s_as_ints(#[trigger] per_cell[idx]@) == lines_through(
            lines_cells(lines),
            idx,
            lines.len(),
        )
}

/// The lines through a cell are listed in increasing order, and exactly those lines are listed.
pub proof fn lemma_lines_through(lines: Seq<Seq<int>>, idx: int, kc: nat)
    ensures
        forall|k: int| #[trigger] lines_through(lines, idx, kc).contains(k) <==> (0 <= k < kc
            && lines[k].contains(idx)),
        forall|a: int, b: int|
            0 <= a < b < lines_through(lines, idx, kc).len() ==> #[trigger] lines_through(
                lines,
                idx,
                kc,
            )[a] < #[trigger] lines_through(lines, idx, kc)[b],
        forall|a: int|
            0 <= a < lines_through(lines, idx, kc).len() ==> 0 <= #[trigger] lines_through(
                lines,
                idx,
                kc,
            )[a] < kc,
    decreases kc,
{
    if kc > 0 {
        lemma_lines_through(lines, idx, (kc - 1) as nat);
        let prev = lines_through(lines, idx, (kc - 1) as nat);
        if lines[kc - 1].contains(idx) {
            let cur = prev.push(kc - 1);
            assert forall|k: int| #[trigger] cur.contains(k) <==> (0 <= k < kc && lines[k].contains(
                idx,
            )) by {
                if cur.contains(k) {
                    let a = choose|a: int| 0 <= a < cur.len() && cur[a] == k;
                    if a < prev.len() {
                        assert(prev.contains(k));
                    }
                }
                if 0 <= k < kc && lines[k].contains(idx) {
                    if k < kc - 1 {
                        assert(prev.contains(k));
                        let a = choose|a: int| 0 <= a < prev.len() && prev[a] == k;
                        assert(cur[a] == k);
                    } else {
                        assert(cur[cur.len() - 1] == k);
                    }
                }
            }
        } else {
            assert forall|k: int| #[trigger] prev.contains(k) <==> (0 <= k < kc && lines[k].contains(
                idx,
            )) by {}
        }
    }
}

/// At most `t` of the first `t` named cells hold `c`.
pub proof fn lemma_count_marks_le(cells: Seq<u8>, w: Seq<int>, c: u8, t: nat)
    ensures
        count_marks(cells, w, c, t) <= t,
    decreases t,
{
    if t > 0 {
        lemma_count_marks_le(cells, w, c, (t - 1) as nat);
    }
}

/// Changing one cell changes the count of a window only if the window holds that cell.
pub proof fn lemma_count_marks_update(cells: Seq<u8>, w: Seq<int>, c: u8, t: nat, i: int, v: u8)
    requires
        0 <= i < cells.len(),
        t <= w.len(),
        forall|a: int, b: int| 0 <= a < b < t ==> #[trigger] w[a] != #[trigger] w[b],
        forall|a: int| 0 <= a < t ==> 0 <= #[trigger] w[a] < cells.len(),
    ensures
        count_marks(cells.update(i, v), w, c, t) == count_marks(cells, w, c, t) + if w.take(
            t as int,
        ).contains(i) {
            (if v == c {
                1int
            } else {
                0int
            }) - (if cells[i] == c {
                1int
            } else {
                0int
            })
        } else {
            0int
        },
    decreases t,
{
    if t > 0 {
        lemma_count_marks_update(cells, w, c, (t - 1) as nat, i, v);
        let tm = (t - 1) as int;
        assert(0 <= w[tm] < cells.len());
        if w[tm] == i {
            assert(w.take(t as int).contains(i)) by {
                assert(w.take(t as int)[tm] == i);
            }
            assert(!w.take(tm).contains(i)) by {
                if w.take(tm).contains(i) {
                    let a = choose|a: int| 0 <= a < tm && #[trigger] w.take(tm)[a] == i;
                    assert(w[a] == w[tm]);
                }
            }
        } else {
            assert(w.take(t as int).contains(i) == w.take(tm).contains(i)) by {
                if w.take(t as int).contains(i) {
                    let a = choose|a: int| 0 <= a < t && #[trigger] w.take(t as int)[a] == i;
                    assert(w.take(tm)[a] == i);
                }
                if w.take(tm).contains(i) {
                    let a = choose|a: int| 0 <= a < tm && #[trigger] w.take(tm)[a] == i;
                    assert(w.take(t as int)[a] == i);
                }
            }
        }
    }
}

/// Setting an empty cell to `m` adds one to the count of `m` on every line through it
/// and leaves every other count as it was.
pub proof fn lemma_line_count_set_empty<const L: usize>(
    cells: Seq<u8>,
    line: [u16; L],
    cell_count: int,
    i: int,
    m: u8,
    c: u8,
)
    requires
        cells.len() == cell_count,
        line_ok(line, cell_count),
        0 <= i < cell_count,
        cells[i] == C_EMPTY,
        c != C_EMPTY,
    ensures
        line_count(cells.update(i, m), line, c) == line_count(cells, line, c) + if line_cells(
            line,
        ).contains(i) && m == c {
            1int
        } else {
            0int
        },
        line_count(cells, line, c) <= L,
{
    let w = line_cells(line);
    assert forall|a: int, b: int| 0 <= a < b < L implies #[trigger] w[a] != #[trigger] w[b] by {
        lemma_line_increasing(line, cell_count, a, b);
    }
    assert forall|a: int| 0 <= a < L implies 0 <= #[trigger] w[a] < cells.len() by {
        assert(line@[a] as int == w[a]);
    }
    lemma_count_marks_update(cells, w, c, L as nat, i, m);
    assert(w.take(L as int) =~= w);
    lemma_count_marks_le(cells, w, c, L as nat);
}

/// Emptying a cell that holds `m` takes one from the count of `m` on every line through it
/// and leaves every other count as it was.
pub proof fn lemma_line_count_clear<const L: usize>(
    cells: Seq<u8>,
    line: [u16; L],
    cell_count: int,
    i: int,
    c: u8,
)
    requires
        cells.len() == cell_count,
        line_ok(line, cell_count),
        0 <= i < cell_count,
        c != C_EMPTY,
    ensures
        line_count(cells.update(i, C_EMPTY), line, c) == line_count(cells, line, c) - if line_cells(
            line,
        ).contains(i) && cells[i] == c {
            1int
        } else {
            0int
        },
        line_cells(line).contains(i) && cells[i] == c ==> line_count(cells, line, c) >= 1,
{
    let w = line_cells(line);
    assert forall|a: int, b: int| 0 <= a < b < L implies #[trigger] w[a] != #[trigger] w[b] by {
        lemma_line_increasing(line, cell_count, a, b);
    }
    assert forall|a: int| 0 <= a < L implies 0 <= #[trigger] w[a] < cells.len() by {
        assert(line@[a] as int == w[a]);
    }
    lemma_count_marks_update(cells, w, c, L as nat, i, C_EMPTY);
    assert(w.take(L as int) =~= w);
}

/// One line's counters after an empty cell becomes `m`.
proof fn lemma_one_line_set<const L: usize>(
    cells: Seq<u8>,
    line: [u16; L],
    cc: int,
    idx: int,
    m: u8,
    listed: bool,
    x_old: u8,
    o_old: u8,
    x_new: u8,
    o_new: u8,
)
    requires
        cells.len() == cc,
        line_ok(line, cc),
        0 <= idx < cc,
        cells[idx] == C_EMPTY,
        m == C_X || m == C_O,
        listed == line_cells(line).contains(idx),
        x_old as nat == line_count(cells, line, C_X),
        o_old as nat == line_count(cells, line, C_O),
        x_new as int == x_old + if m == C_X && listed { 1int } else { 0int },
        o_new as int == o_old + if m == C_O && listed { 1int } else { 0int },
    ensures
        x_new as nat == line_count(cells.update(idx, m), line, C_X),
        o_new as nat == line_count(cells.update(idx, m), line, C_O),
{
    lemma_line_count_set_empty(cells, line, cc, idx, m, C_X);
    lemma_line_count_set_empty(cells, line, cc, idx, m, C_O);
}

/// One line's counters after a cell holding `m` is emptied.
proof fn lemma_one_line_clear<const L: usize>(
    cells: Seq<u8>,
    line: [u16; L],
    cc: int,
    idx: int,
    m: u8,
    listed: bool,
    x_old: u8,
    o_old: u8,
    x_new: u8,
    o_new: u8,
)
    requires
        cells.len() == cc,
        line_ok(line, cc),
        0 <= idx < cc,
        cells[idx] == m,
        m == C_X || m == C_O,
        listed == line_cells(line).contains(idx),
        x_old as nat == line_count(cells, line, C_X),
        o_old as nat == line_count(cells, line, C_O),
        x_new as int == x_old - if m == C_X && listed { 1int } else { 0int },
        o_new as int == o_old - if m == C_O && listed { 1int } else { 0int },
    ensures
        x_new as nat == line_count(cells.update(idx, C_EMPTY), line, C_X),
        o_new as nat == line_count(cells.update(idx, C_EMPTY), line, C_O),
{
    lemma_line_count_clear(cells, line, cc, idx, C_X);
    lemma_line_count_clear(cells, line, cc, idx, C_O);
}

/// After an empty cell becomes `m` and the counters of the lines through it are
/// raised for `m`, the counters agree with the new cells.
#[verifier::spinoff_prover]
#[verifier::rlimit(50)]
proof fn lemma_counts_after_set<const L: usize>(
    cells: Seq<u8>,
    lines: Seq<[u16; L]>,
    per_cell: Seq<Vec<u16>>,
    xs: Seq<u8>,
    os: Seq<u8>,
    new_xs: Seq<u8>,
    new_os: Seq<u8>,
    idx: int,
    m: u8,
    cc: int,
)
    requires
        cells.len() == cc,
        0 <= idx < cc,
        cells[idx] == C_EMPTY,
        m == C_X || m == C_O,
        lines_sorted_in_board(lines, cc),
        counts_match(cells, lines, xs, os),
        index_matches(lines, per_cell, cc),
        new_xs.len() == xs.len(),
        new_os.len() == os.len(),
        forall|k: int|
            0 <= k < xs.len() ==> #[trigger] new_xs[k] as int == xs[k] + if m == C_X
                && u16s_as_ints(per_cell[idx]@).contains(k) {
                1int
            } else {
                0int
            },
        forall|k: int|
            0 <= k < os.len() ==> #[trigger] new_os[k] as int == os[k] + if m == C_O
                && u16s_as_ints(per_cell[idx]@).contains(k) {
                1int
            } else {
                0int
            },
    ensures
        counts_match(cells.update(idx, m), lines, new_xs, new_os),
{
    lemma_lines_through(lines_cells(lines), idx, lines.len());
    assert forall|k: int| 0 <= k < lines.len() implies (#[trigger] new_xs[k]) as nat == line_count(
        cells.update(idx, m),
        lines[k],
        C_X,
    ) && new_os[k] as nat == line_count(cells.update(idx, m), lines[k], C_O) by {
        assert(lines_cells(lines)[k] == line_cells(lines[k]));
        lemma_one_line_set(cells, lines[k], cc, idx, m, u16s_as_ints(per_cell[idx]@).contains(k), xs[k], os[k], new_xs[k], new_os[k]);
    }
}

/// After a cell holding `m` is emptied and the counters of the lines through it are
/// lowered for `m`, the counters agree with the new cells.
#[verifier::spinoff_prover]
#[verifier::rlimit(50)]
proof fn lemma_counts_after_clear<const L: usize>(
    cells: Seq<u8>,
    lines: Seq<[u16; L]>,
    per_cell: Seq<Vec<u16>>,
    xs: Seq<u8>,
    os: Seq<u8>,
    new_xs: Seq<u8>,
    new_os: Seq<u8>,
    idx: int,
    m: u8,
    cc: int,
)
    requires
        cells.len() == cc,
        0 <= idx < cc,
        cells[idx] == m,
        m == C_X || m == C_O,
        lines_sorted_in_board(lines, cc),
        counts_match(cells, lines, xs, os),
        index_matches(lines, per_cell, cc),
        new_xs.len() == xs.len(),
        new_os.len() == os.len(),
        forall|k: int|
            0 <= k < xs.len() ==> #[trigger] new_xs[k] as int == xs[k] - if m == C_X
                && u16s_as_ints(per_cell[idx]@).contains(k) {
                1int
            } else {
                0int
            },
        forall|k: int|
            0 <= k < os.len() ==> #[trigger] new_os[k] as int == os[k] - if m == C_O
                && u16s_as_ints(per_cell[idx]@).contains(k) {
                1int
            } else {
                0int
            },
    ensures
        counts_match(cells.update(idx, C_EMPTY), lines, new_xs, new_os),
{
    lemma_lines_through(lines_cells(lines), idx, lines.len());
    assert forall|k: int| 0 <= k < lines.len() implies (#[trigger] new_xs[k]) as nat == line_count(
        cells.update(idx, C_EMPTY),
        lines[k],
        C_X,
    ) && new_os[k] as nat == line_count(cells.update(idx, C_EMPTY), lines[k], C_O) by {
        assert(lines_cells(lines)[k] == line_cells(lines[k]));
        lemma_one_line_clear(cells, lines[k], cc, idx, m, u16s_as_ints(per_cell[idx]@).contains(k), xs[k], os[k], new_xs[k], new_os[k]);
    }
}

/// The list of lines through a cell is increasing, names only existing lines, and names
/// the lines whose counters may be raised (or, for a taken cell, lowered).
#[verifier::spinoff_prover]
proof fn lemma_cell_list<const L: usize>(
    cells: Seq<u8>,
    lines: Seq<[u16; L]>,
    per_cell: Seq<Vec<u16>>,
    xs: Seq<u8>,
    os: Seq<u8>,
    idx: int,
    cc: int,
)
    requires
        cells.len() == cc,
        0 <= idx < cc,
        lines_sorted_in_board(lines, cc),
        counts_match(cells, lines, xs, os),
        index_matches(lines, per_cell, cc),
    ensures
        forall|a: int, b: int|
            0 <= a < b < per_cell[idx]@.len() ==> #[trigger] per_cell[idx]@[a]
                < #[trigger] per_cell[idx]@[b],
        forall|a: int| 0 <= a < per_cell[idx]@.len() ==> (#[trigger] per_cell[idx]@[a] as int) < xs.len(),
        forall|a: int|
            0 <= a < per_cell[idx]@.len() ==> xs[#[trigger] per_cell[idx]@[a] as int] <= L && os[per_cell[idx]@[a] as int] <= L,
        forall|a: int|
            0 <= a < per_cell[idx]@.len() ==> (cells[idx] == C_X ==> xs[#[trigger] per_cell[idx]@[a] as int] >= 1),
        forall|a: int|
            0 <= a < per_cell[idx]@.len() ==> (cells[idx] == C_O ==> os[#[trigger] per_cell[idx]@[a] as int] >= 1),
{
    let ls = lines_cells(lines);
    lemma_lines_through(ls, idx, lines.len());
    let list = per_cell[idx]@;
    assert(u16s_as_ints(list) == lines_through(ls, idx, lines.len()));
    assert forall|a: int, b: int| 0 <= a < b < list.len() implies #[trigger] list[a] < #[trigger] list[b] by {
        assert(u16s_as_ints(list)[a] == list[a] as int);
        assert(u16s_as_ints(list)[b] == list[b] as int);
    }
    assert forall|a: int| 0 <= a < list.len() implies (#[trigger] list[a] as int) < xs.len()
        && xs[list[a] as int] <= L && os[list[a] as int] <= L
        && (cells[idx] == C_X ==> xs[list[a] as int] >= 1)
        && (cells[idx] == C_O ==> os[list[a] as int] >= 1) by {
        let k = list[a] as int;
        assert(u16s_as_ints(list)[a] == k);
        assert(u16s_as_ints(list).contains(k));
        assert(0 <= k < lines.len());
        assert(xs[k] as nat == line_count(cells, lines[k], C_X) && os[k] as nat == line_count(cells, lines[k], C_O));
        assert(ls[k] == line_cells(lines[k]));
        assert(line_ok(lines[k], cc));
        lemma_line_count_clear(cells, lines[k], cc, idx, C_X);
        lemma_line_count_clear(cells, lines[k], cc, idx, C_O);
        lemma_count_marks_le(cells, line_cells(lines[k]), C_X, L as nat);
        lemma_count_marks_le(cells, line_cells(lines[k]), C_O, L as nat);
    }
}

/// Adds one to (or takes one from) the counters at the positions `ks`.
fn bump_counts(counts: &mut Vec<u8>, ks: &Vec<u16>, up: bool)
    requires
        forall|a: int, b: int| 0 <= a < b < ks@.len() ==> #[trigger] ks@[a] < #[trigger] ks@[b],
        forall|a: int| 0 <= a < ks@.len() ==> (#[trigger] ks@[a] as int) < old(counts)@.len(),
        forall|a: int|
            0 <= a < ks@.len() ==> if up {
                old(counts)@[#[trigger] ks@[a] as int] < 255
            } else {
                old(counts)@[#[trigger] ks@[a] as int] > 0
            },
    ensures
        final(counts)@.len() == old(counts)@.len(),
        forall|k: int|
            0 <= k < old(counts)@.len() ==> #[trigger] final(counts)@[k] as int == old(counts)@[k]
                + if u16s_as_ints(ks@).contains(k) {
                if up {
                    1int
                } else {
                    -1int
                }
            } else {
                0int
            },
{
    let ghost start = counts@;
    let mut t: usize = 0;
    while t < ks.len()
        invariant
            t <= ks@.len(),
            counts@.len() == start.len(),
            forall|a: int, b: int| 0 <= a < b < ks@.len() ==> #[trigger] ks@[a] < #[trigger] ks@[b],
            forall|a: int| 0 <= a < ks@.len() ==> (#[trigger] ks@[a] as int) < start.len(),
            forall|a: int|
                0 <= a < ks@.len() ==> if up {
                    start[#[trigger] ks@[a] as int] < 255
                } else {
                    start[#[trigger] ks@[a] as int] > 0
                },
            forall|k: int|
                0 <= k < start.len() ==> #[trigger] counts@[k] as int == start[k] + if u16s_as_ints(
                    ks@,
                ).take(t as int).contains(k) {
                    if up {
                        1int
                    } else {
                        -1int
                    }
                } else {
                    0int
                },
        decreases ks@.len() - t,
    {
        let k = ks[t] as usize;
        let ghost before = counts@;
        assert(!u16s_as_ints(ks@).take(t as int).contains(k as int)) by {
            if u16s_as_ints(ks@).take(t as int).contains(k as int) {
                let a = choose|a: int| 0 <= a < t && #[trigger] u16s_as_ints(ks@).take(t as int)[a] == k as int;
                assert(ks@[a] < ks@[t as int]);
            }
        }
        if up {
            counts[k] = counts[k] + 1;
        } else {
            counts[k] = counts[k] - 1;
        }
        assert forall|x: int| 0 <= x < start.len() implies #[trigger] counts@[x] as int == start[x] + if u16s_as_ints(
            ks@,
        ).take(t + 1).contains(x) {
            if up {
                1int
            } else {
                -1int
            }
        } else {
            0int
        } by {
            let now = u16s_as_ints(ks@).take(t + 1);
            let was = u16s_as_ints(ks@).take(t as int);
            if x == k as int {
                assert(now[t as int] == x);
            } else {
                assert(counts@[x] == before[x]);
                if now.contains(x) {
                    let a = choose|a: int| 0 <= a < t + 1 && #[trigger] now[a] == x;
                    assert(was[a] == x);
                }
                if was.contains(x) {
                    let a = choose|a: int| 0 <= a < t && #[trigger] was[a] == x;
                    assert(now[a] == x);
                }
            }
        }
        t = t + 1;
    }
    assert(u16s_as_ints(ks@).take(ks@.len() as int) =~= u16s_as_ints(ks@));
}

/// The row and column of cell `x` of an `n` by `n` board are in range and give `x` back.
pub proof fn lemma_row_col(n: int, x: int)
    requires
        n > 0,
        0 <= x < n * n,
    ensures
        0 <= x / n < n,
        0 <= x % n < n,
        x == (x / n) * n + x % n,
{
    vstd::arithmetic::div_mod::lemma_fundamental_div_mod(x, n);
    vstd::arithmetic::div_mod::lemma_mod_pos_bound(x, n);
    let q = x / n;
    let r = x % n;
    assert(q * n == n * q) by (nonlinear_arith);
    assert(0 <= q < n) by (nonlinear_arith)
        requires
            x == n * q + r,
            0 <= r < n,
            0 <= x < n * n,
            n > 0,
    ;
}

/// The cell at row `r` and column `c`.
pub proof fn lemma_row_col_converse(n: int, r: int, c: int)
    requires
        0 <= r < n,
        0 <= c < n,
    ensures
        (r * n + c) / n == r,
        (r * n + c) % n == c,
        0 <= r * n + c < n * n,
{
    vstd::arithmetic::div_mod::lemma_fundamental_div_mod_converse(r * n + c, n, r, c);
    assert(0 <= r * n + c < n * n) by (nonlinear_arith)
        requires
            0 <= r < n,
            0 <= c < n,
    ;
}

/// Two cells are neighbours (or the same cell): their rows and their columns differ by at most one.
pub open spec fn neighbors(n: int, a: int, b: int) -> bool {
    &&& -1 <= a / n - b / n <= 1
    &&& -1 <= a % n - b % n <= 1
}

/// Cell `x` is next to a cell that is not empty (a stone or a wall).
pub open spec fn touches_stone(cells: Seq<u8>, n: int, x: int) -> bool {
    exists|y: int| 0 <= y < n * n && cells[y] != C_EMPTY && #[trigger] neighbors(n, x, y)
}

/// Cell `x` is empty and next to a cell that is not empty.
pub open spec fn is_candidate(cells: Seq<u8>, n: int, x: int) -> bool {
    &&& 0 <= x < n * n
    &&& cells[x] == C_EMPTY
    &&& touches_stone(cells, n, x)
}

/// Some cell is not empty.
pub open spec fn any_stone(cells: Seq<u8>, n: int) -> bool {
    exists|y: int| 0 <= y < n * n && #[trigger] cells[y] != C_EMPTY
}

/// Every cell is taken (by a stone or a wall).
pub open spec fn board_full(cells: Seq<u8>, n: int) -> bool {
    forall|i: int| 0 <= i < n * n ==> #[trigger] cells[i] != C_EMPTY
}

/// Some cell is empty.
pub open spec fn any_empty(cells: Seq<u8>, n: int) -> bool {
    exists|y: int| 0 <= y < n * n && #[trigger] cells[y] == C_EMPTY
}

/// Some empty cell is next to a cell that is not empty.
pub open spec fn any_candidate(cells: Seq<u8>, n: int) -> bool {
    exists|x: int| #[trigger] is_candidate(cells, n, x)
}

/// The centre cell of the board.
pub open spec fn center(n: int) -> int {
    (n / 2) * n + n / 2
}

/// The first cell from `y` on that is not empty and is next to `x`; `n * n` when there is none.
pub open spec fn first_stone_from(cells: Seq<u8>, n: int, x: int, y: int) -> int
    decreases n * n - y,
{
    if y >= n * n {
        n * n
    } else if cells[y] != C_EMPTY && neighbors(n, x, y) {
        y
    } else {
        first_stone_from(cells, n, x, y + 1)
    }
}

/// The place of cell `x` in the scan that finds the moves: the stones are visited in
/// increasing order and, around each, the neighbouring cells row by row, left to right;
/// `x` is found at the first stone next to it.
pub open spec fn scan_key(cells: Seq<u8>, n: int, x: int) -> int {
    let y = first_stone_from(cells, n, x, 0);
    y * 9 + (x / n - y / n + 1) * 3 + (x % n - y % n + 1)
}

/// When `y` is the first cell from `s` on that is not empty and is next to `x`, the scan
/// from `s` finds it.
pub proof fn lemma_first_stone_from(cells: Seq<u8>, n: int, x: int, s: int, y: int)
    requires
        0 <= s <= y < n * n,
        cells[y] != C_EMPTY,
        neighbors(n, x, y),
        forall|z: int| s <= z < y ==> !(cells[z] != C_EMPTY && #[trigger] neighbors(n, x, z)),
    ensures
        first_stone_from(cells, n, x, s) == y,
    decreases y - s,
{
    if s < y {
        assert(!(cells[s] != C_EMPTY && neighbors(n, x, s)));
        lemma_first_stone_from(cells, n, x, s + 1, y);
    }
}

/// The moves the search considers: the empty cells next to a stone or wall, in the order
/// of the scan that finds them (see `scan_key`); all empty cells, in increasing order, when
/// there is none such; the centre on an empty board. Each move is listed once.
pub open spec fn moves_ok(cells: Seq<u8>, n: int, moves: Seq<int>) -> bool {
    &&& forall|a: int, b: int| 0 <= a < b < moves.len() ==> #[trigger] moves[a] != #[trigger] moves[b]
    &&& if !any_stone(cells, n) {
        moves == seq![center(n)]
    } else if any_candidate(cells, n) {
        &&& forall|x: int| #[trigger] moves.contains(x) <==> is_candidate(cells, n, x)
        &&& forall|a: int, b: int|
            0 <= a < b < moves.len() ==> scan_key(cells, n, #[trigger] moves[a]) < scan_key(
                cells,
                n,
                #[trigger] moves[b],
            )
    } else {
        &&& forall|x: int| #[trigger] moves.contains(x) <==> (0 <= x < n * n && cells[x] == C_EMPTY)
        &&& forall|a: int, b: int| 0 <= a < b < moves.len() ==> #[trigger] moves[a] < #[trigger] moves[b]
    }
}

/// Every move names an empty cell, and there is a move exactly when there is an empty cell.
pub proof fn lemma_moves_ok_legal(cells: Seq<u8>, n: int, moves: Seq<int>)
    requires
        n >= 1,
        cells.len() == n * n,
        moves_ok(cells, n, moves),
    ensures
        forall|a: int| 0 <= a < moves.len() ==> 0 <= #[trigger] moves[a] < n * n && cells[moves[a]] == C_EMPTY,
        moves.len() > 0 <==> any_empty(cells, n),
{
    if !any_stone(cells, n) {
        lemma_row_col_converse(n, n / 2, n / 2);
        assert(cells[center(n)] == C_EMPTY);
        assert(moves[0] == center(n));
    } else {
        assert forall|a: int| 0 <= a < moves.len() implies 0 <= #[trigger] moves[a] < n * n && cells[moves[a]] == C_EMPTY by {
            assert(moves.contains(moves[a]));
        }
        if moves.len() > 0 {
            assert(cells[moves[0]] == C_EMPTY);
        }
        if any_empty(cells, n) {
            if any_candidate(cells, n) {
                let x = choose|x: int| #[trigger] is_candidate(cells, n, x);
                assert(moves.contains(x));
            } else {
                let y = choose|y: int| 0 <= y < n * n && #[trigger] cells[y] == C_EMPTY;
                assert(moves.contains(y));
            }
        }
    }
}

/// The score of the first `k` lines of three: one point for each line that X holds
/// entirely, minus one for each that O holds entirely.
pub open spec fn completed_lines_score(cells: Seq<u8>, lines: Seq<[u16; 3]>, k: nat) -> int
    decreases k,
{
    if k == 0 {
        0
    } else {
        completed_lines_score(cells, lines, (k - 1) as nat) + if line_count(cells, lines[k - 1], C_X)
            == 3 {
            1int
        } else if line_count(cells, lines[k - 1], C_O) == 3 {
            -1int
        } else {
            0int
        }
    }
}

/// The weight of a line of three with `x` X cells and `o` O cells.
pub open spec fn weight3(x: int, o: int) -> int {
    if x > 0 && o > 0 {
        0
    } else if x > 0 {
        if x == 3 {
            100
        } else if x == 2 {
            20
        } else if x == 1 {
            2
        } else {
            0
        }
    } else if o > 0 {
        if o == 3 {
            -100
        } else if o == 2 {
            -20
        } else if o == 1 {
            -2
        } else {
            0
        }
    } else {
        0
    }
}

/// The weight of a line of four with `x` X cells and `o` O cells.
pub open spec fn weight4(x: int, o: int) -> int {
    if x > 0 && o > 0 {
        0
    } else if x > 0 {
        if x == 4 {
            40
        } else if x == 3 {
            25
        } else {
            0
        }
    } else if o > 0 {
        if o == 4 {
            -40
        } else if o == 3 {
            -25
        } else {
            0
        }
    } else {
        0
    }
}

/// The count of a finished game over a single line of three: one when X holds its three
/// cells, minus one when O does, and nothing otherwise.
pub proof fn lemma_completed_line_one(cells: Seq<u8>, line: [u16; 3])
    ensures
        completed_lines_score(cells, seq![line], 1) == if cells[line@[0] as int] == C_X && cells[line@[1] as int]
            == C_X && cells[line@[2] as int] == C_X {
            1int
        } else if cells[line@[0] as int] == C_O && cells[line@[1] as int] == C_O && cells[line@[2] as int] == C_O {
            -1int
        } else {
            0int
        },
{
    let w = line_cells(line);
    assert(w[0] == line@[0] as int && w[1] == line@[1] as int && w[2] == line@[2] as int);
    reveal_with_fuel(count_marks, 4);
    assert(seq![line][0] == line);
    assert(completed_lines_score(cells, seq![line], 0) == 0);
}

/// The count of a finished game over the first `k` lines depends only on those lines.
proof fn lemma_completed_lines_prefix(cells: Seq<u8>, a: Seq<[u16; 3]>, b: Seq<[u16; 3]>, k: nat)
    requires
        k <= a.len(),
        k <= b.len(),
        forall|i: int| 0 <= i < k ==> #[trigger] a[i] == b[i],
    ensures
        completed_lines_score(cells, a, k) == completed_lines_score(cells, b, k),
    decreases k,
{
    if k > 0 {
        lemma_completed_lines_prefix(cells, a, b, (k - 1) as nat);
        assert(a[k - 1] == b[k - 1]);
    }
}

/// The count of a finished game over two lists of lines is the sum of the counts over
/// each: every line counts on its own, once.
pub proof fn lemma_completed_lines_append(cells: Seq<u8>, a: Seq<[u16; 3]>, b: Seq<[u16; 3]>)
    ensures
        completed_lines_score(cells, a + b, (a + b).len()) == completed_lines_score(cells, a, a.len())
            + completed_lines_score(cells, b, b.len()),
    decreases b.len(),
{
    if b.len() == 0 {
        assert(a + b =~= a);
    } else {
        let b0 = b.drop_last();
        lemma_completed_lines_append(cells, a, b0);
        lemma_completed_lines_prefix(cells, a + b, a + b0, (a + b0).len());
        lemma_completed_lines_prefix(cells, b, b0, b0.len());
        assert((a + b)[(a + b).len() - 1] == b[b.len() - 1]);
    }
}

/// How a line is weighed, for every count of stones: a line holding stones of both sides
/// is worth nothing; an open line is worth as much for X as it is against O; an open line of
/// three counts from one stone on and an open line of four from three stones on, each worth
/// more with every further stone (2, 20, 100 for lines of three; 25, 40 for lines of four).
pub proof fn lemma_line_weights(x: int, o: int)
    requires
        0 <= x,
        0 <= o,
    ensures
        x > 0 && o > 0 ==> weight3(x, o) == 0 && weight4(x, o) == 0,
        weight3(x, o) == -weight3(o, x),
        weight4(x, o) == -weight4(o, x),
        x <= 3 ==> (weight3(x, 0) > 0 <==> x >= 1),
        x <= 4 ==> (weight4(x, 0) > 0 <==> x >= 3),
        1 <= x < 3 ==> weight3(x, 0) < weight3(x + 1, 0),
        3 <= x < 4 ==> weight4(x, 0) < weight4(x + 1, 0),
        x == 1 ==> weight3(x, 0) == 2 && weight3(x + 1, 0) == 10 * weight3(x, 0) && weight3(x + 2, 0) == 5
            * weight3(x + 1, 0),
        x == 3 ==> weight4(x, 0) == 25 && weight4(x + 1, 0) - weight4(x, 0) == 15,
{
}

/// The summed weights of the first `k` lines of three.
pub open spec fn weights3(cells: Seq<u8>, lines: Seq<[u16; 3]>, k: nat) -> int
    decreases k,
{
    if k == 0 {
        0
    } else {
        weights3(cells, lines, (k - 1) as nat) + weight3(
            line_count(cells, lines[k - 1], C_X) as int,
            line_count(cells, lines[k - 1], C_O) as int,
        )
    }
}

/// The summed weights of the first `k` lines of four.
pub open spec fn weights4(cells: Seq<u8>, lines: Seq<[u16; 4]>, k: nat) -> int
    decreases k,
{
    if k == 0 {
        0
    } else {
        weights4(cells, lines, (k - 1) as nat) + weight4(
            line_count(cells, lines[k - 1], C_X) as int,
            line_count(cells, lines[k - 1], C_O) as int,
        )
    }
}

/// The summed weights of the first `k` lines of three, from their counts of X and O cells.
pub open spec fn count_weights3(xs: Seq<u8>, os: Seq<u8>, k: nat) -> int
    decreases k,
{
    if k == 0 {
        0
    } else {
        count_weights3(xs, os, (k - 1) as nat) + weight3(xs[k - 1] as int, os[k - 1] as int)
    }
}

/// The summed weights of the first `k` lines of four, from their counts of X and O cells.
pub open spec fn count_weights4(xs: Seq<u8>, os: Seq<u8>, k: nat) -> int
    decreases k,
{
    if k == 0 {
        0
    } else {
        count_weights4(xs, os, (k - 1) as nat) + weight4(xs[k - 1] as int, os[k - 1] as int)
    }
}

/// Counters that match the cells give the same weights as the cells.
proof fn lemma_weights_from_counts3(cells: Seq<u8>, lines: Seq<[u16; 3]>, xs: Seq<u8>, os: Seq<u8>, k: nat)
    requires
        counts_match(cells, lines, xs, os),
        k <= lines.len(),
    ensures
        weights3(cells, lines, k) == count_weights3(xs, os, k),
    decreases k,
{
    if k > 0 {
        lemma_weights_from_counts3(cells, lines, xs, os, (k - 1) as nat);
        assert(xs[k - 1] as nat == line_count(cells, lines[k - 1], C_X));
    }
}

/// Counters that match the cells give the same weights as the cells.
proof fn lemma_weights_from_counts4(cells: Seq<u8>, lines: Seq<[u16; 4]>, xs: Seq<u8>, os: Seq<u8>, k: nat)
    requires
        counts_match(cells, lines, xs, os),
        k <= lines.len(),
    ensures
        weights4(cells, lines, k) == count_weights4(xs, os, k),
    decreases k,
{
    if k > 0 {
        lemma_weights_from_counts4(cells, lines, xs, os, (k - 1) as nat);
        assert(xs[k - 1] as nat == line_count(cells, lines[k - 1], C_X));
    }
}

/// Exchanging the X and O counts negates the weights.
proof fn lemma_count_weights_swap(xs3: Seq<u8>, os3: Seq<u8>, xs4: Seq<u8>, os4: Seq<u8>, k3: nat, k4: nat)
    ensures
        count_weights3(os3, xs3, k3) == -count_weights3(xs3, os3, k3),
        count_weights4(os4, xs4, k4) == -count_weights4(xs4, os4, k4),
    decreases k3 + k4,
{
    if k3 > 0 {
        lemma_count_weights_swap(xs3, os3, xs4, os4, (k3 - 1) as nat, k4);
    }
    if k4 > 0 {
        lemma_count_weights_swap(xs3, os3, xs4, os4, k3, (k4 - 1) as nat);
    }
}

/// The cells with X and O exchanged.
pub open spec fn swap_sides(cells: Seq<u8>) -> Seq<u8> {
    cells.map_values(|c: u8| if c == C_X { C_O } else if c == C_O { C_X } else { c })
}

/// Exchanging X and O exchanges the counts of X and O cells among the cells `w` names.
proof fn lemma_count_marks_swap(cells: Seq<u8>, w: Seq<int>, t: nat)
    requires
        t <= w.len(),
        forall|a: int| 0 <= a < t ==> 0 <= #[trigger] w[a] < cells.len(),
    ensures
        count_marks(swap_sides(cells), w, C_X, t) == count_marks(cells, w, C_O, t),
        count_marks(swap_sides(cells), w, C_O, t) == count_marks(cells, w, C_X, t),
    decreases t,
{
    if t > 0 {
        lemma_count_marks_swap(cells, w, (t - 1) as nat);
        assert(0 <= w[t - 1] < cells.len());
    }
}

/// A cell holds X or O but not both: the two counts add up to at most the number of cells.
proof fn lemma_count_marks_both(cells: Seq<u8>, w: Seq<int>, t: nat)
    ensures
        count_marks(cells, w, C_X, t) + count_marks(cells, w, C_O, t) <= t,
    decreases t,
{
    if t > 0 {
        lemma_count_marks_both(cells, w, (t - 1) as nat);
    }
}

/// Exchanging X and O exchanges the counts of X and O cells on a line of the board.
proof fn lemma_line_count_swap<const L: usize>(cells: Seq<u8>, line: [u16; L])
    requires
        line_ok(line, cells.len() as int),
    ensures
        line_count(swap_sides(cells), line, C_X) == line_count(cells, line, C_O),
        line_count(swap_sides(cells), line, C_O) == line_count(cells, line, C_X),
{
    let w = line_cells(line);
    assert forall|a: int| 0 <= a < L implies 0 <= #[trigger] w[a] < cells.len() by {
        assert(w[a] == line@[a] as int);
    }
    lemma_count_marks_swap(cells, w, L as nat);
}

/// Exchanging X and O negates the score and the weights of the first `k` lines of three.
proof fn lemma_swap_negates_3(cells: Seq<u8>, lines: Seq<[u16; 3]>, k: nat)
    requires
        lines_sorted_in_board(lines, cells.len() as int),
        k <= lines.len(),
    ensures
        completed_lines_score(swap_sides(cells), lines, k) == -completed_lines_score(cells, lines, k),
        weights3(swap_sides(cells), lines, k) == -weights3(cells, lines, k),
    decreases k,
{
    if k > 0 {
        lemma_swap_negates_3(cells, lines, (k - 1) as nat);
        assert(line_ok(lines[k - 1], cells.len() as int));
        lemma_line_count_swap(cells, lines[k - 1]);
        lemma_count_marks_both(cells, line_cells(lines[k - 1]), 3);
    }
}

/// Exchanging X and O negates the weights of the first `k` lines of four.
proof fn lemma_swap_negates_4(cells: Seq<u8>, lines: Seq<[u16; 4]>, k: nat)
    requires
        lines_sorted_in_board(lines, cells.len() as int),
        k <= lines.len(),
    ensures
        weights4(swap_sides(cells), lines, k) == -weights4(cells, lines, k),
    decreases k,
{
    if k > 0 {
        lemma_swap_negates_4(cells, lines, (k - 1) as nat);
        assert(line_ok(lines[k - 1], cells.len() as int));
        lemma_line_count_swap(cells, lines[k - 1]);
    }
}

/// Exchanging X and O on the board negates its score and its static evaluation.
pub proof fn lemma_swap_sides_negates(cells: Seq<u8>, l3: Seq<[u16; 3]>, l4: Seq<[u16; 4]>)
    requires
        lines_sorted_in_board(l3, cells.len() as int),
        lines_sorted_in_board(l4, cells.len() as int),
    ensures
        completed_lines_score(swap_sides(cells), l3, l3.len()) == -completed_lines_score(cells, l3, l3.len()),
        weights3(swap_sides(cells), l3, l3.len()) + weights4(swap_sides(cells), l4, l4.len()) == -(
        weights3(cells, l3, l3.len()) + weights4(cells, l4, l4.len())),
{
    lemma_swap_negates_3(cells, l3, l3.len());
    lemma_swap_negates_4(cells, l4, l4.len());
}

/// `count` flags, all down.
fn falses(count: usize) -> (v: Vec<bool>)
    ensures
        v@.len() == count,
        forall|i: int| 0 <= i < count ==> !(#[trigger] v@[i]),
{
    let mut v: Vec<bool> = Vec::with_capacity(count);
    let mut i: usize = 0;
    while i < count
        invariant
            i <= count,
            v@.len() == i,
            forall|j: int| 0 <= j < i ==> !(#[trigger] v@[j]),
        decreases count - i,
    {
        v.push(false);
        i = i + 1;
    }
    v
}

/// `count` zeros.
fn zeros_i32(count: usize) -> (v: Vec<i32>)
    ensures
        v@.len() == count,
        forall|i: int| 0 <= i < count ==> #[trigger] v@[i] == 0,
{
    let mut v: Vec<i32> = Vec::with_capacity(count);
    let mut i: usize = 0;
    while i < count
        invariant
            i <= count,
            v@.len() == i,
            forall|j: int| 0 <= j < i ==> #[trigger] v@[j] == 0,
        decreases count - i,
    {
        v.push(0);
        i = i + 1;
    }
    v
}

/// The number of X cells and of O cells on every line of 3.
fn count_lines_3(cells: &Vec<u8>, lines: &Vec<[u16; 3]>) -> (r: (Vec<u8>, Vec<u8>))
    requires
        lines_sorted_in_board(lines@, cells@.len() as int),
    ensures
        counts_match(cells@, lines@, r.0@, r.1@),
{
    let mut xs: Vec<u8> = Vec::with_capacity(lines.len());
    let mut os: Vec<u8> = Vec::with_capacity(lines.len());
    let mut k: usize = 0;
    while k < lines.len()
        invariant
            lines_sorted_in_board(lines@, cells@.len() as int),
            k <= lines@.len(),
            xs@.len() == k,
            os@.len() == k,
            forall|q: int|
                0 <= q < k ==> (#[trigger] xs@[q]) as nat == line_count(cells@, lines@[q], C_X)
                    && os@[q] as nat == line_count(cells@, lines@[q], C_O),
        decreases lines@.len() - k,
    {
        let line = lines[k];
        assert(line_ok(line, cells@.len() as int));
        let ghost w = line_cells(line);
        let mut x: u8 = 0;
        let mut o: u8 = 0;
        let mut t: usize = 0;
        while t < 3
            invariant
                line_ok(line, cells@.len() as int),
                w == line_cells(line),
                t <= 3,
                x as nat == count_marks(cells@, w, C_X, t as nat),
                o as nat == count_marks(cells@, w, C_O, t as nat),
                x <= t,
                o <= t,
            decreases 3 - t,
        {
            assert(w[t as int] == line@[t as int] as int);
            let c = cells[line[t] as usize];
            if c == C_X {
                x = x + 1;
            } else if c == C_O {
                o = o + 1;
            }
            t = t + 1;
        }
        let ghost old_xs = xs@;
        let ghost old_os = os@;
        xs.push(x);
        os.push(o);
        proof {
            assert forall|q: int|
                0 <= q < k + 1 implies (#[trigger] xs@[q]) as nat == line_count(cells@, lines@[q], C_X)
                    && os@[q] as nat == line_count(cells@, lines@[q], C_O) by {
                if q == k as int {
                    assert(lines@[q] == line);
                    assert(xs@[q] == x && os@[q] == o);
                    assert(line_count(cells@, line, C_X) == count_marks(cells@, w, C_X, 3));
                    assert(line_count(cells@, line, C_O) == count_marks(cells@, w, C_O, 3));
                } else {
                    assert(xs@[q] == old_xs[q] && os@[q] == old_os[q]);
                }
            }
        }
        k = k + 1;
    }
    (xs, os)
}

/// The number of X cells and of O cells on every line of 4.
fn count_lines_4(cells: &Vec<u8>, lines: &Vec<[u16; 4]>) -> (r: (Vec<u8>, Vec<u8>))
    requires
        lines_sorted_in_board(lines@, cells@.len() as int),
    ensures
        counts_match(cells@, lines@, r.0@, r.1@),
{
    let mut xs: Vec<u8> = Vec::with_capacity(lines.len());
    let mut os: Vec<u8> = Vec::with_capacity(lines.len());
    let mut k: usize = 0;
    while k < lines.len()
        invariant
            lines_sorted_in_board(lines@, cells@.len() as int),
            k <= lines@.len(),
            xs@.len() == k,
            os@.len() == k,
            forall|q: int|
                0 <= q < k ==> (#[trigger] xs@[q]) as nat == line_count(cells@, lines@[q], C_X)
                    && os@[q] as nat == line_count(cells@, lines@[q], C_O),
        decreases lines@.len() - k,
    {
        let line = lines[k];
        assert(line_ok(line, cells@.len() as int));
        let ghost w = line_cells(line);
        let mut x: u8 = 0;
        let mut o: u8 = 0;
        let mut t: usize = 0;
        while t < 4
            invariant
                line_ok(line, cells@.len() as int),
                w == line_cells(line),
                t <= 4,
                x as nat == count_marks(cells@, w, C_X, t as nat),
                o as nat == count_marks(cells@, w, C_O, t as nat),
                x <= t,
                o <= t,
            decreases 4 - t,
        {
            assert(w[t as int] == line@[t as int] as int);
            let c = cells[line[t] as usize];
            if c == C_X {
                x = x + 1;
            } else if c == C_O {
                o = o + 1;
            }
            t = t + 1;
        }
        let ghost old_xs = xs@;
        let ghost old_os = os@;
        xs.push(x);
        os.push(o);
        proof {
            assert forall|q: int|
                0 <= q < k + 1 implies (#[trigger] xs@[q]) as nat == line_count(cells@, lines@[q], C_X)
                    && os@[q] as nat == line_count(cells@, lines@[q], C_O) by {
                if q == k as int {
                    assert(lines@[q] == line);
                    assert(xs@[q] == x && os@[q] == o);
                    assert(line_count(cells@, line, C_X) == count_marks(cells@, w, C_X, 4));
                    assert(line_count(cells@, line, C_O) == count_marks(cells@, w, C_O, 4));
                } else {
                    assert(xs@[q] == old_xs[q] && os@[q] == old_os[q]);
                }
            }
        }
        k = k + 1;
    }
    (xs, os)
}

/// Every scored move names an empty cell of the board.
pub open spec fn all_moves_legal(cells: Seq<u8>, cc: int, s: Seq<(i64, u16)>) -> bool {
    forall|i: int| 0 <= i < s.len() ==> (#[trigger] s[i].1 as int) < cc && cells[s[i].1 as int] == C_EMPTY
}

/// Reordering scored moves keeps them legal.
pub proof fn lemma_legal_permutation(cells: Seq<u8>, cc: int, a: Seq<(i64, u16)>, b: Seq<(i64, u16)>)
    requires
        all_moves_legal(cells, cc, a),
        a.to_multiset() == b.to_multiset(),
    ensures
        all_moves_legal(cells, cc, b),
{
    broadcast use vstd::seq_lib::group_to_multiset_ensures;
    assert forall|i: int| 0 <= i < b.len() implies (#[trigger] b[i].1 as int) < cc && cells[b[i].1 as int] == C_EMPTY by {
        assert(b.contains(b[i]));
        assert(b.to_multiset().contains(b[i]));
        assert(a.contains(b[i]));
        let j = choose|j: int| 0 <= j < a.len() && a[j] == b[i];
    }
}

/// A cell the search may choose: the centre on a board without stones; otherwise an
/// empty cell next to a stone or wall when there is one; otherwise any empty cell.
pub open spec fn is_searched_move(cells: Seq<u8>, n: int, x: int) -> bool {
    if !any_stone(cells, n) {
        x == center(n)
    } else if any_candidate(cells, n) {
        is_candidate(cells, n, x)
    } else {
        0 <= x < n * n && cells[x] == C_EMPTY
    }
}

/// The moves the search considers, by rows and columns: on a board with a stone (or wall)
/// at row `r`, column `c`, every empty cell of the eight around it is considered, and
/// every considered cell is empty; on a board without any, only the centre is.
pub proof fn lemma_searched_moves_by_place(cells: Seq<u8>, n: int, r: int, c: int, dr: int, dc: int)
    requires
        n >= 1,
        cells.len() == n * n,
        0 <= r < n,
        0 <= c < n,
        -1 <= dr <= 1,
        -1 <= dc <= 1,
        0 <= r + dr < n,
        0 <= c + dc < n,
    ensures
        cells[r * n + c] != C_EMPTY && cells[(r + dr) * n + (c + dc)] == C_EMPTY ==> is_searched_move(
            cells,
            n,
            (r + dr) * n + (c + dc),
        ),
        forall|x: int| #[trigger] is_searched_move(cells, n, x) && any_stone(cells, n) ==> 0 <= x < n * n
            && cells[x] == C_EMPTY,
        !any_stone(cells, n) ==> forall|x: int| #[trigger] is_searched_move(cells, n, x) <==> x == (n / 2) * n + n / 2,
{
    lemma_row_col_converse(n, r, c);
    lemma_row_col_converse(n, r + dr, c + dc);
    let y = r * n + c;
    let x = (r + dr) * n + (c + dc);
    if cells[y] != C_EMPTY && cells[x] == C_EMPTY {
        assert(neighbors(n, x, y));
        assert(touches_stone(cells, n, x));
        assert(is_candidate(cells, n, x));
        assert(any_candidate(cells, n));
        assert(any_stone(cells, n));
    }
}

/// Every move that the moves list holds is one the search may choose, and names an empty
/// cell.
pub proof fn lemma_searched_moves(cells: Seq<u8>, n: int, moves: Seq<int>)
    requires
        n >= 1,
        cells.len() == n * n,
        moves_ok(cells, n, moves),
    ensures
        forall|a: int| 0 <= a < moves.len() ==> #[trigger] is_searched_move(cells, n, moves[a]),
        forall|x: int| #[trigger] is_searched_move(cells, n, x) ==> 0 <= x < n * n && cells[x] == C_EMPTY,
{
    assert forall|a: int| 0 <= a < moves.len() implies #[trigger] is_searched_move(cells, n, moves[a]) by {
        assert(moves.contains(moves[a]));
    }
    assert forall|x: int| #[trigger] is_searched_move(cells, n, x) implies 0 <= x < n * n && cells[x] == C_EMPTY by {
        if !any_stone(cells, n) {
            lemma_row_col_converse(n, n / 2, n / 2);
            assert(cells[center(n)] == C_EMPTY);
        }
    }
}

/// Every scored move is one the search may choose.
pub open spec fn all_moves_searched(cells: Seq<u8>, n: int, s: Seq<(i64, u16)>) -> bool {
    forall|i: int| 0 <= i < s.len() ==> is_searched_move(cells, n, #[trigger] s[i].1 as int)
}

/// Reordering scored moves keeps them among the moves the search may choose.
pub proof fn lemma_searched_permutation(cells: Seq<u8>, n: int, a: Seq<(i64, u16)>, b: Seq<(i64, u16)>)
    requires
        all_moves_searched(cells, n, a),
        a.to_multiset() == b.to_multiset(),
    ensures
        all_moves_searched(cells, n, b),
{
    broadcast use vstd::seq_lib::group_to_multiset_ensures;
    assert forall|i: int| 0 <= i < b.len() implies is_searched_move(cells, n, #[trigger] b[i].1 as int) by {
        assert(b.contains(b[i]));
        assert(b.to_multiset().contains(b[i]));
        assert(a.contains(b[i]));
        let j = choose|j: int| 0 <= j < a.len() && a[j] == b[i];
    }
}

/// The number of empty cells.
pub open spec fn empty_count(cells: Seq<u8>) -> int
    decreases cells.len(),
{
    if cells.len() == 0 {
        0
    } else {
        empty_count(cells.drop_last()) + if cells.last() == C_EMPTY {
            1int
        } else {
            0int
        }
    }
}

/// Filling an empty cell leaves one empty cell less.
pub proof fn lemma_empty_count_fill(cells: Seq<u8>, i: int, v: u8)
    requires
        0 <= i < cells.len(),
        cells[i] == C_EMPTY,
        v != C_EMPTY,
    ensures
        empty_count(cells.update(i, v)) == empty_count(cells) - 1,
    decreases cells.len(),
{
    let u = cells.update(i, v);
    if i == cells.len() - 1 {
        assert(u.drop_last() =~= cells.drop_last());
    } else {
        assert(u.drop_last() =~= cells.drop_last().update(i, v));
        lemma_empty_count_fill(cells.drop_last(), i, v);
    }
}

/// A value below every value a position can have: the best of no move at all.
pub open spec fn no_move_value() -> int {
    -0x1_0000_0000_0000int
}

/// The value for `side` of playing the cell `x` of `cells`, `d` plies deep: the negation
/// of the value of the position that follows for the other side.
pub open spec fn child_value(
    l3: Seq<[u16; 3]>,
    l4: Seq<[u16; 4]>,
    n: int,
    d: nat,
    cells: Seq<u8>,
    side: i32,
    x: int,
) -> int
    decreases d, 3int, 0int,
{
    -game_value(l3, l4, n, d, cells.update(x, mark(side)), (-side) as i32)
}

/// The negamax value for `side` of the position `cells` of an `n` by `n` board with the
/// lines `l3` and `l4`, searched `d` plies deep over the moves the search considers (see
/// `is_searched_move`): a full board is worth its score times `TERMINAL_SCALE`, a position
/// at depth zero its static evaluation, and any other the best of its moves.
pub open spec fn game_value(l3: Seq<[u16; 3]>, l4: Seq<[u16; 4]>, n: int, d: nat, cells: Seq<u8>, side: i32) -> int
    decreases d, 2int, 0int,
{
    if board_full(cells, n) {
        completed_lines_score(cells, l3, l3.len()) * TERMINAL_SCALE * side
    } else if d == 0 {
        (weights3(cells, l3, l3.len()) + weights4(cells, l4, l4.len())) * side
    } else {
        best_child(l3, l4, n, (d - 1) as nat, cells, side, n * n)
    }
}

/// The best value for `side` of the moves among the cells below `k` (`no_move_value()`
/// when there is none).
pub open spec fn best_child(
    l3: Seq<[u16; 3]>,
    l4: Seq<[u16; 4]>,
    n: int,
    d: nat,
    cells: Seq<u8>,
    side: i32,
    k: int,
) -> int
    decreases d + 1, 1int, if k > 0 { k } else { 0 },
{
    if k <= 0 {
        no_move_value()
    } else {
        let rest = best_child(l3, l4, n, d, cells, side, k - 1);
        if is_searched_move(cells, n, k - 1) {
            let v = child_value(l3, l4, n, d, cells, side, k - 1);
            if v > rest {
                v
            } else {
                rest
            }
        } else {
            rest
        }
    }
}

/// The best of the moves below `k` is at most any bound of all of them.
pub proof fn lemma_best_child_at_most(
    l3: Seq<[u16; 3]>,
    l4: Seq<[u16; 4]>,
    n: int,
    d: nat,
    cells: Seq<u8>,
    side: i32,
    k: int,
    b: int,
)
    requires
        b >= no_move_value(),
        forall|x: int| 0 <= x < k && is_searched_move(cells, n, x) ==> #[trigger] child_value(l3, l4, n, d, cells, side, x) <= b,
    ensures
        best_child(l3, l4, n, d, cells, side, k) <= b,
    decreases k,
{
    if k > 0 {
        lemma_best_child_at_most(l3, l4, n, d, cells, side, k - 1, b);
        if is_searched_move(cells, n, k - 1) {
            assert(child_value(l3, l4, n, d, cells, side, k - 1) <= b);
        }
    }
}

/// The best of the moves below `k` is at least the value of each of them.
pub proof fn lemma_best_child_at_least(
    l3: Seq<[u16; 3]>,
    l4: Seq<[u16; 4]>,
    n: int,
    d: nat,
    cells: Seq<u8>,
    side: i32,
    k: int,
    x: int,
)
    requires
        0 <= x < k,
        is_searched_move(cells, n, x),
    ensures
        best_child(l3, l4, n, d, cells, side, k) >= child_value(l3, l4, n, d, cells, side, x),
    decreases k,
{
    if x < k - 1 {
        lemma_best_child_at_least(l3, l4, n, d, cells, side, k - 1, x);
    }
}

/// The key under which the search files the position `cells` with `side` to move: the
/// hash of the cells, with the turn key mixed in when X is to move.
pub open spec fn position_key(keys: Seq<[u64; 4]>, turn_key: u64, cells: Seq<u8>, side: i32) -> u64 {
    zobrist_hash(keys, cells) ^ if side == SIDE_X {
        turn_key
    } else {
        0u64
    }
}

/// No two of the positions in `v` share a key.
pub open spec fn keys_distinct_on(keys: Seq<[u64; 4]>, turn_key: u64, v: Set<(Seq<u8>, i32)>) -> bool {
    forall|p: (Seq<u8>, i32), q: (Seq<u8>, i32)|
        #![trigger v.contains(p), v.contains(q)]
        v.contains(p) && v.contains(q) && position_key(keys, turn_key, p.0, p.1) == position_key(
            keys,
            turn_key,
            q.0,
            q.1,
        ) ==> p == q
}

/// Positions whose keys are told apart stay told apart in a smaller set.
pub proof fn lemma_keys_distinct_subset(keys: Seq<[u64; 4]>, turn_key: u64, small: Set<(Seq<u8>, i32)>, big: Set<(Seq<u8>, i32)>)
    requires
        keys_distinct_on(keys, turn_key, big),
        forall|p: (Seq<u8>, i32)| #[trigger] small.contains(p) ==> big.contains(p),
    ensures
        keys_distinct_on(keys, turn_key, small),
{
    assert forall|p: (Seq<u8>, i32), q: (Seq<u8>, i32)|
        #![trigger small.contains(p), small.contains(q)]
        small.contains(p) && small.contains(q) && position_key(keys, turn_key, p.0, p.1) == position_key(
            keys,
            turn_key,
            q.0,
            q.1,
        ) implies p == q by {
        assert(big.contains(p) && big.contains(q));
    }
}

/// `c` is a position that play can lead to from `root`: the same size, the cells taken
/// in `root` unchanged, and every other cell empty, X or O.
pub open spec fn extends(root: Seq<u8>, c: Seq<u8>) -> bool {
    &&& c.len() == root.len()
    &&& forall|i: int|
        0 <= i < root.len() ==> if root[i] != C_EMPTY {
            #[trigger] c[i] == root[i]
        } else {
            c[i] == C_EMPTY || c[i] == C_X || c[i] == C_O
        }
}

/// What play can lead to from a position reached by one move, it can lead to from before
/// the move.
pub proof fn lemma_extends_after_move(root: Seq<u8>, x: int, side: i32, c: Seq<u8>)
    requires
        0 <= x < root.len(),
        root[x] == C_EMPTY,
        extends(root.update(x, mark(side)), c),
    ensures
        extends(root, c),
{
    assert forall|i: int| 0 <= i < root.len() implies if root[i] != C_EMPTY {
        #[trigger] c[i] == root[i]
    } else {
        c[i] == C_EMPTY || c[i] == C_X || c[i] == C_O
    } by {
        assert(root.update(x, mark(side))[i] == if i == x { mark(side) } else { root[i] });
    }
}

/// A stored value is what its bound says of the true value `v`: equal, at most, or at least.
pub open spec fn entry_sound(e: TTEntry, v: int) -> bool {
    match e.bound {
        TTBound::Exact => e.value == v,
        TTBound::Lower => v >= e.value,
        TTBound::Upper => v <= e.value,
    }
}

/// Every entry of the table was made for one of the positions of `visited`, filed under
/// that position's key: the depth it was searched to, less the number of empty cells, is at
/// most `level`, and its value is bound as it says by the negamax value of that depth.
pub open spec fn table_sound(
    tt: Map<u64, TTEntry>,
    visited: Set<(Seq<u8>, i32)>,
    keys: Seq<[u64; 4]>,
    turn_key: u64,
    l3: Seq<[u16; 3]>,
    l4: Seq<[u16; 4]>,
    n: int,
    level: int,
) -> bool {
    forall|key: u64|
        #![trigger tt.contains_key(key)]
        tt.contains_key(key) ==> {
            let pos = tt[key].position@;
            &&& visited.contains(pos)
            &&& position_key(keys, turn_key, pos.0, pos.1) == key
            &&& pos.0.len() == n * n
            &&& (pos.1 == SIDE_X || pos.1 == SIDE_O)
            &&& tt[key].depth - empty_count(pos.0) <= level
            &&& entry_sound(tt[key], game_value(l3, l4, n, tt[key].depth as nat, pos.0, pos.1))
        }
}

/// A table sound at one level is sound at every higher level and with more positions
/// visited; an empty table is sound.
pub proof fn lemma_table_sound_mono(
    tt: Map<u64, TTEntry>,
    visited: Set<(Seq<u8>, i32)>,
    more: Set<(Seq<u8>, i32)>,
    keys: Seq<[u64; 4]>,
    turn_key: u64,
    l3: Seq<[u16; 3]>,
    l4: Seq<[u16; 4]>,
    n: int,
    level: int,
    higher: int,
)
    requires
        table_sound(tt, visited, keys, turn_key, l3, l4, n, level) || tt == Map::<u64, TTEntry>::empty(),
        level <= higher,
        forall|p: (Seq<u8>, i32)| #[trigger] visited.contains(p) ==> more.contains(p),
    ensures
        table_sound(tt, more, keys, turn_key, l3, l4, n, higher),
{
}

/// What a fail-soft alpha-beta search answers for the window `(alpha, beta)`: the value
/// itself when it lies inside, and otherwise a bound on the same side of the window.
pub open spec fn window_answer(r: int, alpha: int, beta: int, v: int) -> bool {
    &&& (alpha < r < beta ==> r == v)
    &&& (r <= alpha ==> v <= r)
    &&& (r >= beta ==> v >= r)
}

/// Each scored list names the move `x`.
pub open spec fn lists_move(s: Seq<(i64, u16)>, x: int) -> bool {
    exists|a: int| 0 <= a < s.len() && #[trigger] s[a].1 as int == x
}

/// Reordering scored moves keeps the moves they name.
pub proof fn lemma_lists_permutation(a: Seq<(i64, u16)>, b: Seq<(i64, u16)>)
    requires
        a.to_multiset() == b.to_multiset(),
    ensures
        forall|x: int| lists_move(a, x) <==> lists_move(b, x),
{
    broadcast use vstd::seq_lib::group_to_multiset_ensures;
    assert forall|x: int| lists_move(a, x) <==> lists_move(b, x) by {
        if lists_move(a, x) {
            let i = choose|i: int| 0 <= i < a.len() && #[trigger] a[i].1 as int == x;
            assert(a.contains(a[i]));
            assert(a.to_multiset().contains(a[i]));
            assert(b.contains(a[i]));
            let j = choose|j: int| 0 <= j < b.len() && b[j] == a[i];
            assert(b[j].1 as int == x);
        }
        if lists_move(b, x) {
            let i = choose|i: int| 0 <= i < b.len() && #[trigger] b[i].1 as int == x;
            assert(b.contains(b[i]));
            assert(b.to_multiset().contains(b[i]));
            assert(a.contains(b[i]));
            let j = choose|j: int| 0 <= j < a.len() && a[j] == b[i];
            assert(a[j].1 as int == x);
        }
    }
}

/// The moves list holds exactly the moves the search may choose.
pub proof fn lemma_moves_are_searched(cells: Seq<u8>, n: int, moves: Seq<int>)
    requires
        n >= 1,
        cells.len() == n * n,
        moves_ok(cells, n, moves),
    ensures
        forall|x: int| #[trigger] moves.contains(x) <==> is_searched_move(cells, n, x),
{
    lemma_searched_moves(cells, n, moves);
    assert forall|x: int| #[trigger] moves.contains(x) <==> is_searched_move(cells, n, x) by {
        if moves.contains(x) {
            let a = choose|a: int| 0 <= a < moves.len() && moves[a] == x;
            assert(is_searched_move(cells, n, moves[a]));
        }
        if is_searched_move(cells, n, x) && !any_stone(cells, n) {
            assert(moves[0] == x);
        }
    }
}

/// `(score, mv)` is what a finished root search of `d` plies answers for `side` in the
/// window `(-(i32::MAX / 2), i32::MAX / 2)`: a score strictly inside is the negamax value
/// and `mv` a move worth it; a score at the floor bounds the value from above.
pub open spec fn root_answer(s: State, d: int, side: i32, score: int, mv: int) -> bool {
    let v = s.spec_value(d as nat, side);
    &&& (-(i32::MAX / 2) < score < i32::MAX / 2 ==> score == v && child_value(
        s.spec_line3s(),
        s.spec_line4s(),
        s.spec_n(),
        (d - 1) as nat,
        s.spec_cells(),
        side,
        mv,
    ) == score)
    &&& (score <= -(i32::MAX / 2) ==> v <= score)
}

/// The static evaluation, for `side`, of the position that playing `x` leads to: what the
/// root search first orders its moves by.
pub open spec fn one_ply_score(l3: Seq<[u16; 3]>, l4: Seq<[u16; 4]>, cells: Seq<u8>, side: i32, x: int) -> int {
    (weights3(cells.update(x, mark(side)), l3, l3.len()) + weights4(cells.update(x, mark(side)), l4, l4.len()))
        * side
}

/// Every scored move carries its one-ply score.
pub open spec fn scored_by_one_ply(l3: Seq<[u16; 3]>, l4: Seq<[u16; 4]>, cells: Seq<u8>, side: i32, s: Seq<(i64, u16)>) -> bool {
    forall|a: int| 0 <= a < s.len() ==> #[trigger] s[a].0 == one_ply_score(l3, l4, cells, side, s[a].1 as int)
}

/// Reordering scored moves keeps them scored by their one-ply score.
pub proof fn lemma_one_ply_permutation(
    l3: Seq<[u16; 3]>,
    l4: Seq<[u16; 4]>,
    cells: Seq<u8>,
    side: i32,
    a: Seq<(i64, u16)>,
    b: Seq<(i64, u16)>,
)
    requires
        scored_by_one_ply(l3, l4, cells, side, a),
        a.to_multiset() == b.to_multiset(),
    ensures
        scored_by_one_ply(l3, l4, cells, side, b),
{
    broadcast use vstd::seq_lib::group_to_multiset_ensures;
    assert forall|i: int| 0 <= i < b.len() implies #[trigger] b[i].0 == one_ply_score(l3, l4, cells, side, b[i].1 as int) by {
        assert(b.contains(b[i]));
        assert(b.to_multiset().contains(b[i]));
        assert(a.contains(b[i]));
        let j = choose|j: int| 0 <= j < a.len() && a[j] == b[i];
        assert(a[j].0 == one_ply_score(l3, l4, cells, side, a[j].1 as int));
    }
}

/// `mv` is a move the search considers whose one-ply score no other such move beats.
pub open spec fn best_one_ply(s: State, side: i32, mv: int) -> bool {
    &&& is_searched_move(s.spec_cells(), s.spec_n(), mv)
    &&& forall|y: int|
        #[trigger] is_searched_move(s.spec_cells(), s.spec_n(), y) ==> one_ply_score(
            s.spec_line3s(),
            s.spec_line4s(),
            s.spec_cells(),
            side,
            y,
        ) <= one_ply_score(s.spec_line3s(), s.spec_line4s(), s.spec_cells(), side, mv)
}

/// `x` comes before `y` in the order in which the moves are listed: the scan order when
/// some empty cell is next to a stone or wall, else the order of the cells.
pub open spec fn scan_before(cells: Seq<u8>, n: int, x: int, y: int) -> bool {
    if any_candidate(cells, n) {
        scan_key(cells, n, x) < scan_key(cells, n, y)
    } else {
        x < y
    }
}

/// `mv` is the move a root search answers before any search finishes: of best one-ply
/// score, and the first such move in the order in which the moves are listed.
pub open spec fn fallback_move(s: State, side: i32, mv: int) -> bool {
    &&& best_one_ply(s, side, mv)
    &&& forall|y: int|
        #[trigger] is_searched_move(s.spec_cells(), s.spec_n(), y) && scan_before(s.spec_cells(), s.spec_n(), y, mv)
            ==> one_ply_score(s.spec_line3s(), s.spec_line4s(), s.spec_cells(), side, y) < one_ply_score(
            s.spec_line3s(),
            s.spec_line4s(),
            s.spec_cells(),
            side,
            mv,
        )
}

/// `new` extends `old`: the earlier readings of the clock stay as they were.
pub open spec fn readings_extend(new: Seq<bool>, old: Seq<bool>) -> bool {
    &&& new.len() >= old.len()
    &&& forall|k: int| 0 <= k < old.len() ==> #[trigger] new[k] == old[k]
}

/// No reading of the clock from position `from` on found the deadline reached.
pub open spec fn no_alarm_since(rs: Seq<bool>, from: int) -> bool {
    forall|k: int| from <= k < rs.len() ==> !#[trigger] rs[k]
}

/// The deepest a root search goes: one ply per empty cell, at most 31.
pub open spec fn depth_cap(cells: Seq<u8>) -> int {
    if empty_count(cells) < 31 {
        empty_count(cells)
    } else {
        31
    }
}

/// The root search looks as far as the end of the game whenever it can: with at most
/// `MAX_PLY - 1` empty cells it searches one ply per empty cell, so that its deepest search
/// fills the board, and otherwise `MAX_PLY - 1` plies. Playing a move on such a board
/// leaves one ply less to search.
pub proof fn lemma_depth_cap(cells: Seq<u8>, i: int, v: u8)
    requires
        0 <= i < cells.len(),
        cells[i] == C_EMPTY,
        v != C_EMPTY,
    ensures
        depth_cap(cells) >= 1,
        depth_cap(cells) <= MAX_PLY - 1,
        depth_cap(cells) <= empty_count(cells),
        empty_count(cells) <= MAX_PLY - 1 ==> depth_cap(cells) == empty_count(cells),
        empty_count(cells) >= MAX_PLY - 1 ==> depth_cap(cells) == MAX_PLY - 1,
        empty_count(cells) <= MAX_PLY - 1 ==> depth_cap(cells.update(i, v)) == depth_cap(cells) - 1,
{
    lemma_empty_count_pos(cells, i);
    lemma_empty_count_fill(cells, i, v);
}

/// `(score, mv)` is what a root search for `side` that last finished depth `d` answers:
/// the answer of that depth (see `root_answer`), after every shallower depth was worth
/// less than half a won game, so that the deepening went on.
pub open spec fn answer_at_depth(s: State, side: i32, d: int, score: int, mv: int) -> bool {
    &&& 1 <= d <= 31
    &&& root_answer(s, d, side, score, mv)
    &&& forall|e: int| 1 <= e < d ==> #[trigger] s.spec_value(e as nat, side) < TERMINAL_SCALE / 2
}

/// The count of empty cells is never negative.
pub proof fn lemma_empty_count_nonneg(cells: Seq<u8>)
    ensures
        empty_count(cells) >= 0,
    decreases cells.len(),
{
    if cells.len() > 0 {
        lemma_empty_count_nonneg(cells.drop_last());
    }
}

/// A sequence without an empty cell counts none.
pub proof fn lemma_empty_count_none(cells: Seq<u8>)
    requires
        forall|i: int| 0 <= i < cells.len() ==> #[trigger] cells[i] != C_EMPTY,
    ensures
        empty_count(cells) == 0,
    decreases cells.len(),
{
    if cells.len() > 0 {
        lemma_empty_count_none(cells.drop_last());
    }
}

/// A sequence with an empty cell counts at least one.
pub proof fn lemma_empty_count_pos(cells: Seq<u8>, y: int)
    requires
        0 <= y < cells.len(),
        cells[y] == C_EMPTY,
    ensures
        empty_count(cells) >= 1,
    decreases cells.len(),
{
    if y == cells.len() - 1 {
        lemma_empty_count_nonneg(cells.drop_last());
    } else {
        lemma_empty_count_pos(cells.drop_last(), y);
    }
}

/// The node counter after one more node (wrapping around at `u64::MAX`).
pub open spec fn next_node_count(nodes: u64) -> u64 {
    if nodes == u64::MAX {
        0
    } else {
        (nodes + 1) as u64
    }
}

/// The position and the tables that the search keeps up to date.
pub struct State {
    n: usize,
    cells: Vec<u8>,
    zobrist: Vec<[u64; 4]>,
    turn_key: u64,
    hash: u64,
    tt: HashMap<u64, TTEntry>,
    line3s: Vec<[u16; 3]>,
    line3_x: Vec<u8>,
    line3_o: Vec<u8>,
    cell_to_l3: Vec<Vec<u16>>,
    line4s: Vec<[u16; 4]>,
    line4_x: Vec<u8>,
    line4_o: Vec<u8>,
    cell_to_l4: Vec<Vec<u16>>,
    killers: Vec<[i32; 2]>,
    history: Vec<i32>,
    nodes: u64,
    deadline: Instant,
    time_up: bool,
    visited: Ghost<Set<(Seq<u8>, i32)>>,
    searched: Ghost<nat>,
    readings: Ghost<Seq<bool>>,
}

impl State {
    /// The side length of the board.
    pub closed spec fn spec_n(&self) -> int {
        self.n as int
    }

    /// The cells, row after row.
    pub closed spec fn spec_cells(&self) -> Seq<u8> {
        self.cells@
    }

    /// The incrementally maintained position hash.
    pub closed spec fn spec_hash(&self) -> u64 {
        self.hash
    }

    /// The key of cell `idx` in state `c`.
    pub closed spec fn spec_key(&self, idx: int, c: int) -> u64 {
        self.zobrist@[idx]@[c]
    }

    /// The hash of the cells alone, without the side to move.
    pub closed spec fn spec_cells_hash(&self) -> u64 {
        zobrist_hash(self.zobrist@, self.cells@)
    }

    /// The key that marks the side to move in the hash.
    pub closed spec fn spec_turn_key(&self) -> u64 {
        self.turn_key
    }

    /// The number of nodes searched (calls of `negamax`), without wrapping around.
    pub closed spec fn spec_searched(&self) -> nat {
        self.searched@
    }

    /// What each reading of the clock said so far, in order: whether the deadline had
    /// been reached.
    pub closed spec fn spec_readings(&self) -> Seq<bool> {
        self.readings@
    }

    /// The positions (cells and side to move) whose table entry the search has looked up.
    pub closed spec fn spec_visited(&self) -> Set<(Seq<u8>, i32)> {
        self.visited@
    }

    /// Whether the search has run out of time.
    pub closed spec fn spec_time_up(&self) -> bool {
        self.time_up
    }

    /// The time at which the search must stop.
    pub closed spec fn spec_deadline(&self) -> Instant {
        self.deadline
    }

    /// The two killer moves kept for every ply (`-1` for none).
    pub closed spec fn spec_killers(&self) -> Seq<[i32; 2]> {
        self.killers@
    }

    /// The history score of every cell, which orders the moves.
    pub closed spec fn spec_history(&self) -> Seq<i32> {
        self.history@
    }

    /// The lines of three, as lists of cells.
    pub closed spec fn spec_lines3(&self) -> Seq<Seq<int>> {
        lines_cells(self.line3s@)
    }

    /// The lines of four, as lists of cells.
    pub closed spec fn spec_lines4(&self) -> Seq<Seq<int>> {
        lines_cells(self.line4s@)
    }

    /// The internal invariant of the state.
    pub closed spec fn wf(&self) -> bool {
        let cc = self.n * self.n;
        &&& 1 <= self.n <= 128
        &&& self.cells@.len() == cc
        &&& forall|i: int| 0 <= i < cc ==> #[trigger] self.cells@[i] <= C_WALL
        &&& self.zobrist@.len() == cc
        &&& lines_sorted_in_board(self.line3s@, cc)
        &&& lines_sorted_in_board(self.line4s@, cc)
        &&& self.line3s@.len() <= 4 * cc
        &&& self.line4s@.len() <= 4 * cc
        &&& counts_match(self.cells@, self.line3s@, self.line3_x@, self.line3_o@)
        &&& counts_match(self.cells@, self.line4s@, self.line4_x@, self.line4_o@)
        &&& index_matches(self.line3s@, self.cell_to_l3@, cc)
        &&& index_matches(self.line4s@, self.cell_to_l4@, cc)
        &&& self.killers@.len() == MAX_PLY
        &&& self.history@.len() == cc
        &&& forall|key: u64| #[trigger] self.tt@.contains_key(key) ==> self.tt@[key].value != i32::MIN
    }

    /// The tables that never change once the state is built.
    pub closed spec fn same_tables(&self, other: &State) -> bool {
        &&& self.n == other.n
        &&& self.zobrist@ == other.zobrist@
        &&& self.turn_key == other.turn_key
        &&& self.line3s@ == other.line3s@
        &&& self.cell_to_l3@ == other.cell_to_l3@
        &&& self.line4s@ == other.line4s@
        &&& self.cell_to_l4@ == other.cell_to_l4@
    }

    /// The data that only the search itself changes.
    pub closed spec fn same_search_data(&self, other: &State) -> bool {
        &&& self.tt@ == other.tt@
        &&& self.killers@ == other.killers@
        &&& self.history@ == other.history@
        &&& self.nodes == other.nodes
        &&& self.deadline == other.deadline
        &&& self.time_up == other.time_up
        &&& self.visited@ == other.visited@
        &&& self.searched@ == other.searched@
        &&& self.readings@ == other.readings@
    }

    /// The same position: same cells, same hash, same line counters.
    pub closed spec fn same_position(&self, other: &State) -> bool {
        &&& self.cells@ == other.cells@
        &&& self.hash == other.hash
        &&& self.line3_x@ == other.line3_x@
        &&& self.line3_o@ == other.line3_o@
        &&& self.line4_x@ == other.line4_x@
        &&& self.line4_o@ == other.line4_o@
    }

    /// The score of the position: complete X lines of three minus complete O lines.
    pub open spec fn spec_score(&self) -> int {
        completed_lines_score(self.spec_cells(), self.spec_line3s(), self.spec_line3s().len())
    }

    /// The static evaluation of the position, from X's point of view.
    pub open spec fn spec_heuristic(&self) -> int {
        weights3(self.spec_cells(), self.spec_line3s(), self.spec_line3s().len()) + weights4(
            self.spec_cells(),
            self.spec_line4s(),
            self.spec_line4s().len(),
        )
    }

    /// The number of lines of three.
    pub open spec fn spec_line3_total(&self) -> int {
        self.spec_line3s().len() as int
    }

    /// The number of lines of four.
    pub open spec fn spec_line4_total(&self) -> int {
        self.spec_line4s().len() as int
    }

    /// Every cell is taken (by a stone or a wall).
    pub open spec fn spec_full(&self) -> bool {
        board_full(self.spec_cells(), self.spec_n())
    }

    /// Builds the search state of a board of `n` rows (one to 128, so that cell numbers and
    /// line positions fit in 16 bits), each of at least `n` cells (only
    /// the first `n` of each row are read): the cell codes row after row, the key table,
    /// the hash of the cells, the lines with their counters, and empty search tables.
    pub fn from_board(board: &Vec<Vec<Cell>>) -> (s: State)
        requires
            1 <= board@.len() <= 128,
            forall|i: int| 0 <= i < board@.len() ==> (#[trigger] board@[i])@.len() >= board@.len(),
        ensures
            s.wf(),
            s.spec_n() == board@.len(),
            s.spec_cells() == board_codes(board@, board@.len() as int),
            forall|idx: int, c: int|
                0 <= idx < s.spec_n() * s.spec_n() && 0 <= c < 4 ==> #[trigger] s.spec_key(idx, c)
                    == zobrist_key(board@.len() as usize, idx, c),
            s.spec_turn_key() == splitmix_mix(splitmix_step(GOLDEN_GAMMA ^ (board@.len() as u64))),
            s.spec_hash() == s.spec_cells_hash(),
            s.spec_lines3() == all_lines(s.spec_cells(), s.spec_n(), 3),
            s.spec_lines4() == all_lines(s.spec_cells(), s.spec_n(), 4),
            s.spec_tt_is_empty(),
            !s.spec_time_up(),
            s.spec_nodes() == 0,
            s.spec_visited() == Set::<(Seq<u8>, i32)>::empty(),
            s.spec_searched() == 0,
            s.spec_readings() == Seq::<bool>::empty(),
            s.spec_killers() == Seq::new(MAX_PLY as nat, |q: int| [-1i32, -1i32]),
            s.spec_history() == Seq::new((s.spec_n() * s.spec_n()) as nat, |i: int| 0i32),
    {
        let n = board.len();
        let ghost ni = n as int;
        assert(n * n <= 16384) by (nonlinear_arith)
            requires
                n <= 128,
        ;
        let mut cells: Vec<u8> = Vec::with_capacity(n * n);
        let mut i: usize = 0;
        while i < n
            invariant
                n == board@.len(),
                ni == n,
                1 <= n <= 128,
                n * n <= 16384,
                forall|r: int| 0 <= r < board@.len() ==> (#[trigger] board@[r])@.len() >= board@.len(),
                i <= n,
                cells@.len() == i * n,
                forall|x: int| 0 <= x < i * n ==> #[trigger] cells@[x] == cell_code(board@[x / ni]@[x % ni]),
            decreases n - i,
        {
            let mut j: usize = 0;
            assert((i + 1) * n <= n * n) by (nonlinear_arith)
                requires
                    i < n,
            ;
            while j < n
                invariant
                    n == board@.len(),
                    ni == n,
                    1 <= n <= 128,
                    n * n <= 16384,
                    forall|r: int| 0 <= r < board@.len() ==> (#[trigger] board@[r])@.len() >= board@.len(),
                    i < n,
                    j <= n,
                    (i + 1) * n <= n * n,
                    cells@.len() == i * n + j,
                    forall|x: int| 0 <= x < i * n + j ==> #[trigger] cells@[x] == cell_code(board@[x / ni]@[x % ni]),
                decreases n - j,
            {
                let code = match &board[i][j] {
                    Cell::Empty => C_EMPTY,
                    Cell::X => C_X,
                    Cell::O => C_O,
                    Cell::Wall => C_WALL,
                };
                proof {
                    lemma_row_col_converse(ni, i as int, j as int);
                }
                cells.push(code);
                j = j + 1;
            }
            assert(i * n + n == (i + 1) * n) by (nonlinear_arith);
            i = i + 1;
        }
        let ghost cs = cells@;
        assert(cs =~= board_codes(board@, ni));
        let zobrist = build_zobrist(n);
        let mut turn_seed = GOLDEN_GAMMA ^ n as u64;
        let turn_key = splitmix64(&mut turn_seed);
        let mut hash: u64 = 0;
        let mut idx: usize = 0;
        while idx < cells.len()
            invariant
                cells@ == cs,
                cs.len() == n * n,
                zobrist@.len() == n * n,
                forall|x: int| 0 <= x < cs.len() ==> #[trigger] cs[x] <= C_WALL,
                idx <= cs.len(),
                hash == zobrist_fold(zobrist@, cs, idx as nat),
            decreases cs.len() - idx,
        {
            hash = hash ^ zobrist[idx][cells[idx] as usize];
            idx = idx + 1;
        }
        let (line3s, cell_to_l3) = build_lines_3(cells.as_slice(), n);
        let (line4s, cell_to_l4) = build_lines_4(cells.as_slice(), n);
        let (line3_x, line3_o) = count_lines_3(&cells, &line3s);
        let (line4_x, line4_o) = count_lines_4(&cells, &line4s);
        assert(4 * n * n == 4 * (n * n)) by (nonlinear_arith);
        let mut killers: Vec<[i32; 2]> = Vec::with_capacity(MAX_PLY);
        let mut p: usize = 0;
        while p < MAX_PLY
            invariant
                p <= MAX_PLY,
                killers@.len() == p,
                forall|q: int| 0 <= q < p ==> #[trigger] killers@[q] == [-1i32, -1i32],
            decreases MAX_PLY - p,
        {
            killers.push([-1, -1]);
            p = p + 1;
        }
        let history = zeros_i32(n * n);
        assert(killers@ =~= Seq::new(MAX_PLY as nat, |q: int| [-1i32, -1i32]));
        assert(history@ =~= Seq::new((n * n) as nat, |i: int| 0i32));
        State {
            n,
            cells,
            zobrist,
            turn_key,
            hash,
            tt: HashMap::with_capacity(4096),
            line3s,
            line3_x,
            line3_o,
            cell_to_l3,
            line4s,
            line4_x,
            line4_o,
            cell_to_l4,
            killers,
            history,
            nodes: 0,
            deadline: instant_now(),
            time_up: false,
            visited: Ghost(Set::empty()),
            searched: Ghost(0nat),
            readings: Ghost(Seq::empty()),
        }
    }

    /// The transposition table holds nothing.
    pub closed spec fn spec_tt_is_empty(&self) -> bool {
        self.tt@ == Map::<u64, TTEntry>::empty()
    }

    /// The transposition table: for each position key, what was learnt of it.
    pub closed spec fn spec_tt(&self) -> Map<u64, TTEntry> {
        self.tt@
    }

    /// The lines of three, as stored.
    pub closed spec fn spec_line3s(&self) -> Seq<[u16; 3]> {
        self.line3s@
    }

    /// How many X cells each line of three holds.
    pub closed spec fn spec_line3_x(&self) -> Seq<u8> {
        self.line3_x@
    }

    /// How many O cells each line of three holds.
    pub closed spec fn spec_line3_o(&self) -> Seq<u8> {
        self.line3_o@
    }

    /// How many X cells each line of four holds.
    pub closed spec fn spec_line4_x(&self) -> Seq<u8> {
        self.line4_x@
    }

    /// How many O cells each line of four holds.
    pub closed spec fn spec_line4_o(&self) -> Seq<u8> {
        self.line4_o@
    }

    /// The lines of four, as stored.
    pub closed spec fn spec_line4s(&self) -> Seq<[u16; 4]> {
        self.line4s@
    }

    /// The key table, four keys per cell.
    pub closed spec fn spec_keys(&self) -> Seq<[u64; 4]> {
        self.zobrist@
    }

    /// The negamax value of the position for `side`, searched `d` plies deep.
    pub open spec fn spec_value(&self, d: nat, side: i32) -> int {
        game_value(self.spec_line3s(), self.spec_line4s(), self.spec_n(), d, self.spec_cells(), side)
    }

    /// What the search relies on to answer the negamax value for `side` to move at
    /// `depth`: the hash is the key of the position, and the transposition table is sound
    /// at this depth's level, each entry made for a visited position.
    pub open spec fn search_premises(&self, depth: int, side: i32) -> bool {
        &&& self.spec_hash() == position_key(self.spec_keys(), self.spec_turn_key(), self.spec_cells(), side)
        &&& table_sound(
            self.spec_tt(),
            self.spec_visited(),
            self.spec_keys(),
            self.spec_turn_key(),
            self.spec_line3s(),
            self.spec_line4s(),
            self.spec_n(),
            depth - empty_count(self.spec_cells()),
        )
    }

    /// Whether the search must stop: once the time is up it stays up; otherwise the
    /// clock is read only on every 2048th node (when the node counter's low eleven bits
    /// are zero), compared with the deadline, recorded (`spec_readings`), and handed to
    /// `note_deadline`. What the clock says cannot be predicted.
    pub fn check_time(&mut self) -> (r: bool)
        requires
            old(self).wf(),
        ensures
            final(self).wf(),
            final(self).same_tables(old(self)),
            final(self).same_position(old(self)),
            final(self).same_search_data_but_time(old(self)),
            r == final(self).spec_time_up(),
            old(self).spec_time_up() ==> r,
            !old(self).spec_time_up() && old(self).spec_nodes() & 0x7ffu64 != 0 ==> !r,
            !old(self).spec_time_up() && old(self).spec_nodes() & 0x7ffu64 == 0 ==> final(self).spec_readings()
                == old(self).spec_readings().push(r),
            old(self).spec_time_up() || old(self).spec_nodes() & 0x7ffu64 != 0 ==> final(self).spec_readings()
                == old(self).spec_readings(),
    {
        let mut reached = false;
        if !self.time_up && self.nodes & 0x7ffu64 == 0 {
            let now = instant_now();
            reached = instant_reached(now, self.deadline);
            self.readings = Ghost(self.readings@.push(reached));
        }
        self.note_deadline(reached)
    }

    /// Records what a reading of the clock said: `reached` is whether the clock was at or
    /// past the deadline. A time already up stays up; the reading counts only on every
    /// 2048th node (the node counter's low eleven bits zero), where the time is up exactly
    /// when the deadline was reached. Answers whether the time is up.
    pub fn note_deadline(&mut self, reached: bool) -> (r: bool)
        requires
            old(self).wf(),
        ensures
            final(self).wf(),
            final(self).same_tables(old(self)),
            final(self).same_position(old(self)),
            final(self).same_search_data_but_time(old(self)),
            r == final(self).spec_time_up(),
            old(self).spec_time_up() ==> r,
            !old(self).spec_time_up() && old(self).spec_nodes() & 0x7ffu64 != 0 ==> !r,
            !old(self).spec_time_up() && old(self).spec_nodes() & 0x7ffu64 == 0 ==> r == reached,
            final(self).spec_readings() == old(self).spec_readings(),
    {
        if self.time_up {
            return true;
        }
        if self.nodes & 0x7ffu64 == 0 && reached {
            self.time_up = true;
            return true;
        }
        false
    }

    /// The number of nodes searched.
    pub closed spec fn spec_nodes(&self) -> u64 {
        self.nodes
    }

    /// The same search data, except perhaps whether the time is up.
    pub closed spec fn same_search_data_but_time(&self, other: &State) -> bool {
        &&& self.tt@ == other.tt@
        &&& self.killers@ == other.killers@
        &&& self.history@ == other.history@
        &&& self.nodes == other.nodes
        &&& self.deadline == other.deadline
        &&& self.visited@ == other.visited@
        &&& self.searched@ == other.searched@
    }

    /// The cells, row after row (codes `C_EMPTY`, `C_X`, `C_O`, `C_WALL`).
    pub fn cells(&self) -> (c: &Vec<u8>)
        ensures
            c@ == self.spec_cells(),
    {
        &self.cells
    }

    /// The position hash.
    pub fn hash(&self) -> (h: u64)
        ensures
            h == self.spec_hash(),
    {
        self.hash
    }

    /// The row and column of cell `idx`.
    pub fn idx_to_rc(&self, idx: usize) -> (rc: (usize, usize))
        requires
            self.wf(),
        ensures
            rc.0 == idx / (self.spec_n() as usize),
            rc.1 == idx % (self.spec_n() as usize),
    {
        (idx / self.n, idx % self.n)
    }

    /// The score of the position: one point for every line of three that X holds
    /// entirely, minus one for every line that O holds entirely.
    pub fn actual_score(&self) -> (r: i32)
        requires
            self.wf(),
        ensures
            r == self.spec_score(),
            -self.spec_line3_total() <= r <= self.spec_line3_total(),
    {
        let mut score: i32 = 0;
        let mut k: usize = 0;
        assert(self.line3s@.len() <= 65536) by (nonlinear_arith)
            requires
                self.line3s@.len() <= 4 * (self.n * self.n),
                self.n <= 128,
        ;
        while k < self.line3s.len()
            invariant
                self.wf(),
                k <= self.line3s@.len() <= 65536,
                score == completed_lines_score(self.cells@, self.line3s@, k as nat),
                -k <= score <= k,
            decreases self.line3s@.len() - k,
        {
            assert(self.line3_x@[k as int] as nat == line_count(self.cells@, self.line3s@[k as int], C_X));
            if self.line3_x[k] == 3 {
                score = score + 1;
            } else if self.line3_o[k] == 3 {
                score = score - 1;
            }
            k = k + 1;
        }
        score
    }

    /// A static evaluation from X's point of view: open lines of three weigh 2, 20 or
    /// 100 by their number of stones, open lines of four 25 or 40 for three or four
    /// stones; lines that both sides occupy weigh nothing; O's lines count negatively.
    #[verifier::spinoff_prover]
    #[verifier::rlimit(60)]
    pub fn heuristic(&self) -> (r: i32)
        requires
            self.wf(),
        ensures
            r == self.spec_heuristic(),
            -100 * self.spec_line3_total() - 40 * self.spec_line4_total() <= r <= 100
                * self.spec_line3_total() + 40 * self.spec_line4_total(),
    {
        assert(self.line3s@.len() <= 65536 && self.line4s@.len() <= 65536) by (nonlinear_arith)
            requires
                self.line3s@.len() <= 4 * (self.n * self.n),
                self.line4s@.len() <= 4 * (self.n * self.n),
                self.n <= 128,
        ;
        let mut score: i32 = 0;
        let mut k: usize = 0;
        while k < self.line3s.len()
            invariant
                self.wf(),
                k <= self.line3s@.len() <= 65536,
                score == weights3(self.cells@, self.line3s@, k as nat),
                -100 * k <= score <= 100 * k,
            decreases self.line3s@.len() - k,
        {
            let x = self.line3_x[k];
            let o = self.line3_o[k];
            assert(x as nat == line_count(self.cells@, self.line3s@[k as int], C_X));
            assert(o as nat == line_count(self.cells@, self.line3s@[k as int], C_O));
            if x > 0 && o > 0 {
            } else if x > 0 {
                score = score + match x {
                    3 => 100,
                    2 => 20,
                    1 => 2,
                    _ => 0,
                };
            } else if o > 0 {
                score = score - match o {
                    3 => 100,
                    2 => 20,
                    1 => 2,
                    _ => 0,
                };
            }
            k = k + 1;
        }
        let ghost part3 = score as int;
        let mut k: usize = 0;
        while k < self.line4s.len()
            invariant
                self.wf(),
                k <= self.line4s@.len() <= 65536,
                self.line3s@.len() <= 65536,
                part3 == weights3(self.cells@, self.line3s@, self.line3s@.len()),
                -100 * self.line3s@.len() <= part3 <= 100 * self.line3s@.len(),
                score == part3 + weights4(self.cells@, self.line4s@, k as nat),
                -40 * k <= score - part3 <= 40 * k,
            decreases self.line4s@.len() - k,
        {
            let x = self.line4_x[k];
            let o = self.line4_o[k];
            assert(x as nat == line_count(self.cells@, self.line4s@[k as int], C_X));
            assert(o as nat == line_count(self.cells@, self.line4s@[k as int], C_O));
            if x > 0 && o > 0 {
            } else if x > 0 {
                score = score + match x {
                    4 => 40,
                    3 => 25,
                    _ => 0,
                };
            } else if o > 0 {
                score = score - match o {
                    4 => 40,
                    3 => 25,
                    _ => 0,
                };
            }
            k = k + 1;
        }
        score
    }

    /// Whether every cell is taken.
    pub fn is_full(&self) -> (r: bool)
        requires
            self.wf(),
        ensures
            r == self.spec_full(),
    {
        let mut i: usize = 0;
        while i < self.cells.len()
            invariant
                self.wf(),
                i <= self.cells@.len(),
                forall|j: int| 0 <= j < i ==> #[trigger] self.cells@[j] != C_EMPTY,
            decreases self.cells@.len() - i,
        {
            if self.cells[i] == C_EMPTY {
                assert(self.spec_cells()[i as int] == C_EMPTY);
                return false;
            }
            i = i + 1;
        }
        true
    }

    /// Fills `buf` with the moves worth searching (see `moves_ok`): the empty cells next
    /// to a stone or wall, in the order they are found; every empty cell, in order, when
    /// there is none such; the centre on an empty board.
    pub fn local_moves(&self, buf: &mut Vec<u16>)
        requires
            self.wf(),
        ensures
            moves_ok(self.spec_cells(), self.spec_n(), u16s_as_ints(final(buf)@)),
    {
        buf.clear();
        let n = self.n;
        let cc = self.cells.len();
        let ghost cells = self.cells@;
        let ghost ni = n as int;
        assert(n * n <= 16384) by (nonlinear_arith)
            requires
                n <= 128,
        ;
        let mut seen = falses(cc);
        let mut found_stone = false;
        let mut idx: usize = 0;
        while idx < cc
            invariant
                self.wf(),
                n == self.n,
                ni == n,
                cells == self.cells@,
                cc == n * n,
                cc <= 16384,
                cc == cells.len(),
                idx <= cc,
                seen@.len() == cc,
                forall|x: int| 0 <= x < cc ==> (#[trigger] seen@[x] <==> u16s_as_ints(buf@).contains(x)),
                forall|a: int, b: int| 0 <= a < b < buf@.len() ==> #[trigger] buf@[a] != #[trigger] buf@[b],
                forall|a: int| 0 <= a < buf@.len() ==> is_candidate(cells, ni, #[trigger] buf@[a] as int),
                found_stone <==> exists|y: int| 0 <= y < idx && #[trigger] cells[y] != C_EMPTY,
                forall|a: int| 0 <= a < buf@.len() ==> scan_key(cells, ni, #[trigger] buf@[a] as int) < idx * 9,
                forall|a: int, b: int|
                    0 <= a < b < buf@.len() ==> scan_key(cells, ni, #[trigger] buf@[a] as int) < scan_key(
                        cells,
                        ni,
                        #[trigger] buf@[b] as int,
                    ),
                forall|x: int, y: int|
                    0 <= y < idx && cells[y] != C_EMPTY && 0 <= x < cc && cells[x] == C_EMPTY
                        && #[trigger] neighbors(ni, x, y) ==> u16s_as_ints(buf@).contains(x),
            decreases cc - idx,
        {
            if self.cells[idx] == C_EMPTY {
                idx = idx + 1;
                continue;
            }
            found_stone = true;
            let row = idx / n;
            let col = idx % n;
            proof {
                lemma_row_col(ni, idx as int);
            }
            let mut dr: i32 = -1;
            while dr <= 1
                invariant
                    self.wf(),
                    n == self.n,
                    ni == n,
                    cells == self.cells@,
                    cc == n * n,
                    cc <= 16384,
                    cc == cells.len(),
                    idx < cc,
                    cells[idx as int] != C_EMPTY,
                    row == idx / n,
                    col == idx % n,
                    row < n,
                    col < n,
                    -1 <= dr <= 2,
                    forall|a: int| 0 <= a < buf@.len() ==> scan_key(cells, ni, #[trigger] buf@[a] as int) < idx * 9 + (dr + 1) * 3,
                    forall|a: int, b: int|
                        0 <= a < b < buf@.len() ==> scan_key(cells, ni, #[trigger] buf@[a] as int) < scan_key(
                            cells,
                            ni,
                            #[trigger] buf@[b] as int,
                        ),
                    seen@.len() == cc,
                    forall|x: int| 0 <= x < cc ==> (#[trigger] seen@[x] <==> u16s_as_ints(buf@).contains(x)),
                    forall|a: int, b: int| 0 <= a < b < buf@.len() ==> #[trigger] buf@[a] != #[trigger] buf@[b],
                    forall|a: int| 0 <= a < buf@.len() ==> is_candidate(cells, ni, #[trigger] buf@[a] as int),
                    forall|x: int, y: int|
                        0 <= y < idx && cells[y] != C_EMPTY && 0 <= x < cc && cells[x] == C_EMPTY
                            && #[trigger] neighbors(ni, x, y) ==> u16s_as_ints(buf@).contains(x),
                    forall|x: int|
                        0 <= x < cc && cells[x] == C_EMPTY && #[trigger] neighbors(ni, x, idx as int)
                            && x / ni - row < dr ==> u16s_as_ints(buf@).contains(x),
                decreases 2 - dr,
            {
                let mut dc: i32 = -1;
                while dc <= 1
                    invariant
                        self.wf(),
                        n == self.n,
                        ni == n,
                        cells == self.cells@,
                        cc == n * n,
                        cc <= 16384,
                        cc == cells.len(),
                        idx < cc,
                        cells[idx as int] != C_EMPTY,
                        row == idx / n,
                        col == idx % n,
                        row < n,
                        col < n,
                        -1 <= dr <= 1,
                        -1 <= dc <= 2,
                        forall|a: int| 0 <= a < buf@.len() ==> scan_key(cells, ni, #[trigger] buf@[a] as int) < idx * 9 + (dr + 1) * 3 + (dc + 1),
                        forall|a: int, b: int|
                            0 <= a < b < buf@.len() ==> scan_key(cells, ni, #[trigger] buf@[a] as int) < scan_key(
                                cells,
                                ni,
                                #[trigger] buf@[b] as int,
                            ),
                        seen@.len() == cc,
                        forall|x: int| 0 <= x < cc ==> (#[trigger] seen@[x] <==> u16s_as_ints(buf@).contains(x)),
                        forall|a: int, b: int| 0 <= a < b < buf@.len() ==> #[trigger] buf@[a] != #[trigger] buf@[b],
                        forall|a: int| 0 <= a < buf@.len() ==> is_candidate(cells, ni, #[trigger] buf@[a] as int),
                        forall|x: int, y: int|
                            0 <= y < idx && cells[y] != C_EMPTY && 0 <= x < cc && cells[x] == C_EMPTY
                                && #[trigger] neighbors(ni, x, y) ==> u16s_as_ints(buf@).contains(x),
                        forall|x: int|
                            0 <= x < cc && cells[x] == C_EMPTY && #[trigger] neighbors(ni, x, idx as int)
                                && (x / ni - row < dr || (x / ni - row == dr && x % ni - col < dc))
                                ==> u16s_as_ints(buf@).contains(x),
                    decreases 2 - dc,
                {
                    let new_row = row as i32 + dr;
                    let new_col = col as i32 + dc;
                    let ghost before = buf@;
                    if !(new_row < 0 || new_col < 0 || new_row >= n as i32 || new_col >= n as i32) {
                        proof {
                            lemma_row_col_converse(ni, new_row as int, new_col as int);
                        }
                        let neighbor_idx = new_row as usize * n + new_col as usize;
                        if self.cells[neighbor_idx] == C_EMPTY && !seen[neighbor_idx] {
                            proof {
                                let x = neighbor_idx as int;
                                assert(neighbors(ni, x, idx as int));
                                assert(!u16s_as_ints(buf@).contains(x));
                                assert forall|z: int| 0 <= z < idx implies !(cells[z] != C_EMPTY && #[trigger] neighbors(ni, x, z)) by {
                                    if cells[z] != C_EMPTY && neighbors(ni, x, z) {
                                        assert(u16s_as_ints(buf@).contains(x));
                                    }
                                }
                                lemma_first_stone_from(cells, ni, x, 0, idx as int);
                                assert(scan_key(cells, ni, x) == idx * 9 + (dr + 1) * 3 + (dc + 1));
                            }
                            seen.set(neighbor_idx, true);
                            buf.push(neighbor_idx as u16);
                            proof {
                                assert(neighbors(ni, neighbor_idx as int, idx as int));
                                assert(u16s_as_ints(buf@) =~= u16s_as_ints(before).push(neighbor_idx as int));
                                assert forall|x: int| 0 <= x < cc implies (#[trigger] seen@[x] <==> u16s_as_ints(buf@).contains(x)) by {
                                    if x != neighbor_idx as int {
                                        if u16s_as_ints(buf@).contains(x) {
                                            let a = choose|a: int| 0 <= a < buf@.len() && #[trigger] u16s_as_ints(buf@)[a] == x;
                                            assert(u16s_as_ints(before)[a] == x);
                                        }
                                        if u16s_as_ints(before).contains(x) {
                                            let a = choose|a: int| 0 <= a < before.len() && #[trigger] u16s_as_ints(before)[a] == x;
                                            assert(u16s_as_ints(buf@)[a] == x);
                                        }
                                    } else {
                                        assert(u16s_as_ints(buf@)[before.len() as int] == x);
                                    }
                                }
                                assert forall|a: int, b: int| 0 <= a < b < buf@.len() implies #[trigger] buf@[a] != #[trigger] buf@[b] by {
                                    if b == before.len() {
                                        assert(u16s_as_ints(before)[a] == before[a] as int);
                                        if buf@[a] == buf@[b] {
                                            assert(u16s_as_ints(before).contains(neighbor_idx as int));
                                        }
                                    }
                                }
                            }
                        }
                    }
                    proof {
                        assert forall|x: int, y: int|
                            0 <= y < idx && cells[y] != C_EMPTY && 0 <= x < cc && cells[x] == C_EMPTY
                                && #[trigger] neighbors(ni, x, y) implies u16s_as_ints(buf@).contains(x) by {
                            if u16s_as_ints(before).contains(x) {
                                let a = choose|a: int| 0 <= a < before.len() && #[trigger] u16s_as_ints(before)[a] == x;
                                assert(u16s_as_ints(buf@)[a] == x);
                            }
                        }
                        assert forall|x: int|
                            0 <= x < cc && cells[x] == C_EMPTY && #[trigger] neighbors(ni, x, idx as int)
                                && (x / ni - row < dr || (x / ni - row == dr && x % ni - col < dc + 1))
                                implies u16s_as_ints(buf@).contains(x) by {
                            if u16s_as_ints(before).contains(x) {
                                let a = choose|a: int| 0 <= a < before.len() && #[trigger] u16s_as_ints(before)[a] == x;
                                assert(u16s_as_ints(buf@)[a] == x);
                            } else {
                                lemma_row_col(ni, x);
                                assert(x / ni == new_row && x % ni == new_col);
                                assert(x == new_row * ni + new_col);
                                assert(seen@[x] || u16s_as_ints(buf@).contains(x));
                            }
                        }
                    }
                    dc = dc + 1;
                }
                dr = dr + 1;
            }
            proof {
                assert forall|x: int, y: int|
                    0 <= y < idx + 1 && cells[y] != C_EMPTY && 0 <= x < cc && cells[x] == C_EMPTY
                        && #[trigger] neighbors(ni, x, y) implies u16s_as_ints(buf@).contains(x) by {
                    if y == idx {
                        assert(x / ni - row <= 1);
                    }
                }
            }
            idx = idx + 1;
        }
        if !found_stone {
            assert(buf@.len() == 0) by {
                if buf@.len() > 0 {
                    assert(is_candidate(cells, ni, buf@[0] as int));
                    let y = choose|y: int| 0 <= y < ni * ni && cells[y] != C_EMPTY && #[trigger] neighbors(ni, buf@[0] as int, y);
                }
            }
            proof {
                lemma_row_col_converse(ni, ni / 2, ni / 2);
            }
            let middle = (n / 2) * n + (n / 2);
            if self.cells[middle] == C_EMPTY {
                buf.push(middle as u16);
                proof {
                    assert(!any_stone(cells, ni));
                    assert(u16s_as_ints(buf@) =~= seq![center(ni)]);
                }
                return;
            }
            assert(false);
        }
        let ghost stone_witness = choose|y: int| 0 <= y < cc && #[trigger] cells[y] != C_EMPTY;
        assert(any_stone(cells, ni));
        if buf.len() == 0 {
            assert(!any_candidate(cells, ni)) by {
                if any_candidate(cells, ni) {
                    let x = choose|x: int| #[trigger] is_candidate(cells, ni, x);
                    let y = choose|y: int| 0 <= y < ni * ni && cells[y] != C_EMPTY && #[trigger] neighbors(ni, x, y);
                    assert(u16s_as_ints(buf@).contains(x));
                }
            }
            let mut i: usize = 0;
            while i < cc
                invariant
                    self.wf(),
                    cells == self.cells@,
                    cc == cells.len(),
                    cc <= 16384,
                    i <= cc,
                    forall|a: int, b: int| 0 <= a < b < buf@.len() ==> #[trigger] buf@[a] < #[trigger] buf@[b],
                    forall|a: int| 0 <= a < buf@.len() ==> (#[trigger] buf@[a] as int) < i,
                    forall|x: int| #[trigger] u16s_as_ints(buf@).contains(x) <==> (0 <= x < i && cells[x] == C_EMPTY),
                decreases cc - i,
            {
                if self.cells[i] == C_EMPTY {
                    let ghost before = buf@;
                    buf.push(i as u16);
                    proof {
                        assert(u16s_as_ints(buf@) =~= u16s_as_ints(before).push(i as int));
                        assert forall|x: int| #[trigger] u16s_as_ints(buf@).contains(x) <==> (0 <= x < i + 1 && cells[x] == C_EMPTY) by {
                            if x == i as int {
                                assert(u16s_as_ints(buf@)[before.len() as int] == x);
                            } else {
                                if u16s_as_ints(buf@).contains(x) {
                                    let a = choose|a: int| 0 <= a < buf@.len() && #[trigger] u16s_as_ints(buf@)[a] == x;
                                    assert(u16s_as_ints(before)[a] == x);
                                }
                                if u16s_as_ints(before).contains(x) {
                                    let a = choose|a: int| 0 <= a < before.len() && #[trigger] u16s_as_ints(before)[a] == x;
                                    assert(u16s_as_ints(buf@)[a] == x);
                                }
                            }
                        }
                    }
                }
                i = i + 1;
            }
            proof {
                assert forall|a: int, b: int| 0 <= a < b < buf@.len() implies #[trigger] u16s_as_ints(buf@)[a] != #[trigger] u16s_as_ints(buf@)[b] by {
                    assert(buf@[a] < buf@[b]);
                }
            }
        } else {
            proof {
                assert(is_candidate(cells, ni, buf@[0] as int));
                assert(u16s_as_ints(buf@)[0] == buf@[0] as int);
                assert(any_candidate(cells, ni));
                assert forall|x: int| #[trigger] u16s_as_ints(buf@).contains(x) <==> is_candidate(cells, ni, x) by {
                    if u16s_as_ints(buf@).contains(x) {
                        let a = choose|a: int| 0 <= a < buf@.len() && #[trigger] u16s_as_ints(buf@)[a] == x;
                        assert(is_candidate(cells, ni, buf@[a] as int));
                    }
                    if is_candidate(cells, ni, x) {
                        let y = choose|y: int| 0 <= y < ni * ni && cells[y] != C_EMPTY && #[trigger] neighbors(ni, x, y);
                    }
                }
                assert forall|a: int, b: int| 0 <= a < b < buf@.len() implies #[trigger] u16s_as_ints(buf@)[a] != #[trigger] u16s_as_ints(buf@)[b] by {
                    assert(buf@[a] != buf@[b]);
                }
            }
        }
    }

    /// Alpha-beta negamax search of `depth` plies for `side` to move (`SIDE_X` or
    /// `SIDE_O`), with a transposition table, killer moves and a history table for move
    /// ordering. The value is from `side`'s point of view: a finished game is worth its
    /// score times `TERMINAL_SCALE`, and a position at depth zero its static evaluation.
    /// When the time runs out the search stops and answers 0; the clock is read only on
    /// every 2048th node. When the search finishes for a window inside
    /// `(-(i32::MAX / 2), i32::MAX / 2)`, the hash being the position's key, the table sound
    /// (see `search_premises`) and no two of the positions whose table entry the search
    /// looked up sharing a key, the answer is what
    /// fail-soft alpha-beta answers for the negamax value (`window_answer`), and the table
    /// stays sound. The position and the deadline are left as they were found. The readings
    /// of the clock taken during the search are recorded after the earlier ones, and the
    /// time runs out only when one of them finds the deadline reached. The lines of
    /// three are at most 2147, or there are more empty cells than plies to search so that no
    /// finished game is reached: a finished game's scaled score fits in 32 bits.
    pub fn negamax(&mut self, depth: u8, alpha: i32, beta: i32, side: i32, ply: usize) -> (r: i32)
        requires
            old(self).wf(),
            side == SIDE_X || side == SIDE_O,
            alpha > i32::MIN,
            beta > i32::MIN,
            ply + depth <= usize::MAX,
            old(self).spec_line3s().len() <= 2147 || depth < empty_count(old(self).spec_cells()),
        ensures
            final(self).wf(),
            final(self).same_tables(old(self)),
            final(self).same_position(old(self)),
            r > i32::MIN,
            final(self).spec_deadline() == old(self).spec_deadline(),
            final(self).spec_searched() >= old(self).spec_searched() + 1,
            old(self).spec_time_up() ==> final(self).spec_time_up(),
            final(self).spec_time_up() ==> r == 0,
            readings_extend(final(self).spec_readings(), old(self).spec_readings()),
            !old(self).spec_time_up() && no_alarm_since(
                final(self).spec_readings(),
                old(self).spec_readings().len() as int,
            ) ==> !final(self).spec_time_up(),
            !old(self).spec_time_up() && next_node_count(old(self).spec_nodes()) & 0x7ffu64 != 0 && (
            old(self).spec_full() || depth == 0) ==> !final(self).spec_time_up() && final(self).spec_nodes()
                == next_node_count(old(self).spec_nodes()),
            !final(self).spec_time_up() && old(self).spec_full() ==> r == old(self).spec_score()
                * TERMINAL_SCALE * side,
            !final(self).spec_time_up() && !old(self).spec_full() && depth == 0 ==> r
                == old(self).spec_heuristic() * side,
            forall|p: (Seq<u8>, i32)| #[trigger] old(self).spec_visited().contains(p) ==> final(self).spec_visited().contains(p),
            forall|p: (Seq<u8>, i32)|
                #[trigger] final(self).spec_visited().contains(p) && !old(self).spec_visited().contains(p) ==> extends(
                    old(self).spec_cells(),
                    p.0,
                ) && (p.1 == SIDE_X || p.1 == SIDE_O),
            old(self).search_premises(depth as int, side) && -(i32::MAX / 2) <= alpha < beta <= i32::MAX
                / 2 && keys_distinct_on(old(self).spec_keys(), old(self).spec_turn_key(), final(self).spec_visited())
                ==> table_sound(
                final(self).spec_tt(),
                final(self).spec_visited(),
                old(self).spec_keys(),
                old(self).spec_turn_key(),
                old(self).spec_line3s(),
                old(self).spec_line4s(),
                old(self).spec_n(),
                depth - empty_count(old(self).spec_cells()),
            ),
            old(self).search_premises(depth as int, side) && -(i32::MAX / 2) <= alpha < beta <= i32::MAX
                / 2 && keys_distinct_on(old(self).spec_keys(), old(self).spec_turn_key(), final(self).spec_visited())
                && !final(self).spec_time_up() ==> window_answer(
                r as int,
                alpha as int,
                beta as int,
                old(self).spec_value(depth as nat, side),
            ),
        decreases depth,
    {
        let ghost orig = *old(self);
        let ghost good = orig.search_premises(depth as int, side) && -(i32::MAX / 2) <= alpha < beta
            <= i32::MAX / 2;
        let ghost l3 = orig.line3s@;
        let ghost l4 = orig.line4s@;
        let ghost ni = orig.n as int;
        let ghost cells0 = orig.cells@;
        let ghost level = depth - empty_count(cells0);
        let ghost kz = orig.zobrist@;
        let ghost tk = orig.turn_key;
        let mut lo = alpha;
        self.searched = Ghost(self.searched@ + 1);
        self.nodes = self.nodes.wrapping_add(1);
        let ghost before_check = *self;
        if self.check_time() {
            proof {
                if !orig.time_up {
                    assert(self.readings@ == before_check.readings@.push(true));
                    assert(self.readings@[orig.readings@.len() as int]);
                }
            }
            return 0;
        }
        assert(self.same_position(old(self)) && self.same_tables(old(self)));
        assert(self.spec_full() == old(self).spec_full());
        assert(self.spec_score() == old(self).spec_score());
        assert(self.spec_heuristic() == old(self).spec_heuristic());
        if self.is_full() {
            proof {
                lemma_empty_count_none(self.cells@);
            }
            let score = self.actual_score();
            assert(-2147000000 <= score * TERMINAL_SCALE <= 2147000000) by (nonlinear_arith)
                requires
                    -2147 <= score <= 2147,
            ;
            return score * TERMINAL_SCALE * side;
        }
        if depth == 0 {
            let h = self.heuristic();
            assert(self.line3s@.len() <= 65536 && self.line4s@.len() <= 65536) by (nonlinear_arith)
                requires
                    self.line3s@.len() <= 4 * (self.n * self.n),
                    self.line4s@.len() <= 4 * (self.n * self.n),
                    self.n <= 128,
            ;
            return h * side;
        }
        let alpha_orig = lo;
        let ghost visited0 = self.visited@;
        self.visited = Ghost(self.visited@.insert((cells0, side)));
        proof {
            if good {
                lemma_table_sound_mono(self.tt@, visited0, self.visited@, kz, tk, l3, l4, ni, level, level);
            }
        }
        let tt_entry: Option<TTEntry> = match self.tt.get(&self.hash) {
            Some(e) => Some(*e),
            None => None,
        };
        if let Some(entry) = tt_entry {
            assert(self.tt@.contains_key(self.hash));
            proof {
                if good && keys_distinct_on(kz, tk, self.visited@) {
                    assert(position_key(kz, tk, cells0, side) == self.hash);
                    let pos = self.tt@[self.hash].position@;
                    assert(self.visited@.contains(pos));
                    assert(self.visited@.contains((cells0, side)));
                    assert(pos == (cells0, side));
                    assert(self.tt@[self.hash].depth - empty_count(cells0) <= level);
                }
            }
            if entry.depth >= depth {
                match entry.bound {
                    TTBound::Exact => {
                        return entry.value;
                    },
                    TTBound::Lower => {
                        if entry.value >= beta {
                            return entry.value;
                        }
                    },
                    TTBound::Upper => {
                        if entry.value <= lo {
                            return entry.value;
                        }
                    },
                }
            }
        }
        let mut moves: Vec<u16> = Vec::with_capacity(20);
        self.local_moves(&mut moves);
        let ghost cc = (self.n * self.n) as int;
        proof {
            lemma_moves_ok_legal(self.cells@, self.n as int, u16s_as_ints(moves@));
            assert(any_empty(self.cells@, self.n as int)) by {
                let i = choose|i: int| 0 <= i < self.spec_n() * self.spec_n() && !(#[trigger] self.spec_cells()[i] != C_EMPTY);
                assert(self.cells@[i] == C_EMPTY);
            }
        }
        let killer = if ply < MAX_PLY {
            self.killers[ply]
        } else {
            [-1i32, -1i32]
        };
        let mut keyed: Vec<(i64, u16)> = Vec::with_capacity(moves.len());
        let mut j: usize = 0;
        while j < moves.len()
            invariant
                self.wf(),
                cc == self.n * self.n,
                j <= moves@.len(),
                keyed@.len() == j,
                forall|a: int| 0 <= a < moves@.len() ==> 0 <= #[trigger] u16s_as_ints(moves@)[a] < cc
                    && self.cells@[u16s_as_ints(moves@)[a]] == C_EMPTY,
                forall|a: int| 0 <= a < j ==> #[trigger] keyed@[a].1 == moves@[a],
            decreases moves@.len() - j,
        {
            let mv = moves[j];
            assert(u16s_as_ints(moves@)[j as int] == mv as int);
            let hits: i64 = (if killer[0] == mv as i32 {
                1i64
            } else {
                0i64
            }) + (if killer[1] == mv as i32 {
                1i64
            } else {
                0i64
            });
            let key: i64 = hits * 4294967296i64 + self.history[mv as usize] as i64;
            keyed.push((key, mv));
            j = j + 1;
        }
        proof {
            assert(all_moves_legal(self.cells@, cc, keyed@)) by {
                assert forall|i: int| 0 <= i < keyed@.len() implies (#[trigger] keyed@[i].1 as int) < cc
                    && self.cells@[keyed@[i].1 as int] == C_EMPTY by {
                    assert(u16s_as_ints(moves@)[i] == moves@[i] as int);
                }
            }
        }
        let mut ordered = if keyed.len() > 1 {
            let sorted = sort_by_score_desc(&keyed);
            proof {
                lemma_sorted_by_score(keyed@);
                lemma_legal_permutation(self.cells@, cc, keyed@, sorted@);
            }
            sorted
        } else {
            keyed
        };
        proof {
            lemma_moves_are_searched(self.cells@, self.n as int, u16s_as_ints(moves@));
            assert(self.cells@ == cells0 && self.n as int == ni);
            assert forall|x: int| is_searched_move(cells0, ni, x) implies lists_move(keyed@, x) by {
                assert(u16s_as_ints(moves@).contains(x));
                let a = choose|a: int| 0 <= a < moves@.len() && u16s_as_ints(moves@)[a] == x;
                assert(keyed@[a].1 == moves@[a]);
                assert(keyed@[a].1 as int == x);
            }
            assert forall|x: int| lists_move(keyed@, x) implies is_searched_move(cells0, ni, x) by {
                let a = choose|a: int| 0 <= a < keyed@.len() && #[trigger] keyed@[a].1 as int == x;
                assert(keyed@[a].1 == moves@[a]);
                assert(u16s_as_ints(moves@)[a] == x);
                assert(u16s_as_ints(moves@).contains(x));
            }
            if keyed@.len() > 1 {
                lemma_sorted_by_score(keyed@);
            }
            lemma_lists_permutation(keyed@, ordered@);
        }
        if let Some(entry) = tt_entry {
            let ghost before = ordered@;
            move_to_front(&mut ordered, entry.best_move);
            proof {
                lemma_legal_permutation(self.cells@, cc, before, ordered@);
                lemma_lists_permutation(before, ordered@);
            }
        }
        let n_moves = ordered.len();
        let ghost d1 = (depth - 1) as nat;
        let mut best: i32 = -(i32::MAX / 2);
        let mut best_move: u16 = ordered[0].1;
        let mut cutoff = false;
        let mut i: usize = 0;
        while i < n_moves && !cutoff
            invariant
                self.wf(),
                self.same_tables(&orig),
                self.same_position(&orig),
                orig == *old(self),
                !self.time_up,
                self.deadline == orig.deadline,
                self.searched@ >= orig.searched@ + 1,
                readings_extend(self.readings@, orig.readings@),
                orig.wf(),
                orig.line3s@.len() <= 2147 || depth < empty_count(cells0),
                cc == self.n * self.n,
                side == SIDE_X || side == SIDE_O,
                depth >= 1,
                ply + depth <= usize::MAX,
                lo > i32::MIN,
                beta > i32::MIN,
                best > i32::MIN,
                n_moves == ordered@.len(),
                n_moves >= 1,
                i <= n_moves,
                all_moves_legal(self.cells@, cc, ordered@),
                alpha_orig == alpha,
                good == (orig.search_premises(depth as int, side) && -(i32::MAX / 2) <= alpha_orig < beta
                    <= i32::MAX / 2),
                l3 == orig.line3s@,
                l4 == orig.line4s@,
                ni == orig.n as int,
                cells0 == orig.cells@,
                kz == orig.zobrist@,
                tk == orig.turn_key,
                level == depth - empty_count(cells0),
                d1 == depth - 1,
                !board_full(cells0, ni),
                forall|x: int| is_searched_move(cells0, ni, x) <==> lists_move(ordered@, x),
                best >= -(i32::MAX / 2),
                forall|p: (Seq<u8>, i32)| #[trigger] orig.visited@.contains(p) ==> self.visited@.contains(p),
                self.visited@.contains((cells0, side)),
                forall|p: (Seq<u8>, i32)|
                    #[trigger] self.visited@.contains(p) && !orig.visited@.contains(p) ==> extends(cells0, p.0) && (
                    p.1 == SIDE_X || p.1 == SIDE_O),
                good && keys_distinct_on(kz, tk, self.visited@) ==> table_sound(self.tt@, self.visited@, kz, tk, l3, l4, ni, level),
                good ==> lo as int == if alpha_orig >= best {
                    alpha_orig as int
                } else {
                    best as int
                },
                good && !cutoff ==> best < beta,
                good && keys_distinct_on(kz, tk, self.visited@) && !cutoff ==> forall|a: int|
                    0 <= a < i ==> child_value(l3, l4, ni, d1, cells0, side, #[trigger] ordered@[a].1 as int)
                        <= best,
                good && keys_distinct_on(kz, tk, self.visited@) && !cutoff && best > alpha_orig ==> exists|a: int|
                    0 <= a < i && child_value(l3, l4, ni, d1, cells0, side, #[trigger] ordered@[a].1 as int)
                        == best,
                good && cutoff ==> best >= beta,
                good && keys_distinct_on(kz, tk, self.visited@) && cutoff ==> exists|a: int|
                    0 <= a < i && child_value(l3, l4, ni, d1, cells0, side, #[trigger] ordered@[a].1 as int)
                        >= best,
            decreases n_moves - i,
        {
            let m = ordered[i].1;
            let ghost c0 = self.cells@;
            let ghost h0 = self.hash;
            let ghost t = self.turn_key;
            assert((m as int) < cc && c0[m as int] == C_EMPTY);
            self.apply(m as usize, side);
            let ghost a = self.zobrist@[m as int]@[C_EMPTY as int];
            let ghost b = self.zobrist@[m as int]@[mark(side) as int];
            self.hash = self.hash ^ self.turn_key;
            let ghost h1 = self.hash;
            let ghost c1 = self.cells@;
            let ghost alpha_before = lo;
            let ghost best_before = best;
            let ghost v0 = self.visited@;
            let ghost pre = *self;
            proof {
                lemma_empty_count_fill(c0, m as int, mark(side));
                if good && keys_distinct_on(kz, tk, self.visited@) {
                    lemma_zobrist_hash_update(kz, c0, m as int, mark(side));
                    lemma_empty_count_fill(c0, m as int, mark(side));
                    let zh = zobrist_hash(kz, c0);
                    if side == SIDE_X {
                        assert((zh ^ t ^ a ^ b) ^ t == (zh ^ a ^ b) ^ 0u64) by (bit_vector);
                    } else {
                        assert((zh ^ 0u64 ^ a ^ b) ^ t == (zh ^ a ^ b) ^ t) by (bit_vector);
                    }
                    assert(self.search_premises((depth - 1) as int, (-side) as i32));
                }
            }
            let child = self.negamax(depth - 1, -beta, -lo, -side, ply + 1);
            let score = -child;
            let ghost cv = child_value(l3, l4, ni, d1, cells0, side, m as int);
            proof {
                assert forall|p: (Seq<u8>, i32)| #[trigger] v0.contains(p) implies self.visited@.contains(p) by {
                    assert(pre.spec_visited().contains(p));
                }
                assert forall|p: (Seq<u8>, i32)| #[trigger] orig.visited@.contains(p) implies self.visited@.contains(p) by {
                    assert(v0.contains(p));
                }
                assert forall|p: (Seq<u8>, i32)|
                    #[trigger] self.visited@.contains(p) && !orig.visited@.contains(p) implies extends(cells0, p.0) && (
                    p.1 == SIDE_X || p.1 == SIDE_O) by {
                    assert(self.spec_visited().contains(p));
                    assert(pre.spec_visited() == v0 && pre.spec_cells() == c1);
                    if !v0.contains(p) {
                        assert(!pre.spec_visited().contains(p));
                        lemma_extends_after_move(cells0, m as int, side, p.0);
                    }
                }
                if good && keys_distinct_on(kz, tk, self.visited@) {
                    assert forall|p: (Seq<u8>, i32)| #[trigger] v0.contains(p) implies self.visited@.contains(p) by {
                        assert(pre.spec_visited().contains(p));
                    }
                    lemma_keys_distinct_subset(kz, tk, v0, self.visited@);
                }
                if good && keys_distinct_on(kz, tk, self.visited@) && !self.time_up {
                    assert(cells0.update(m as int, mark(side)) == c1);
                    assert(alpha_before < score && score < beta ==> cv == score);
                    assert(score >= beta ==> cv >= score);
                    assert(score <= alpha_before ==> cv <= score);
                }
            }
            self.hash = self.hash ^ self.turn_key;
            assert(self.hash == h0 ^ a ^ b) by {
                assert(h1 == (h0 ^ a ^ b) ^ t);
                assert(((h0 ^ a ^ b) ^ t) ^ t == h0 ^ a ^ b) by (bit_vector);
            }
            self.undo(m as usize, side);
            proof {
                assert(self.cells@ =~= c0);
                assert((h0 ^ a ^ b) ^ b ^ a == h0) by (bit_vector);
                lemma_counts_unique(c0, orig.line3s@, orig.line3_x@, orig.line3_o@, self.line3_x@, self.line3_o@);
                lemma_counts_unique(c0, orig.line4s@, orig.line4_x@, orig.line4_o@, self.line4_x@, self.line4_o@);
                assert(self.same_tables(&orig));
                assert(self.same_position(&orig));
            }
            proof {
                if good && keys_distinct_on(kz, tk, self.visited@) {
                    assert forall|p: (Seq<u8>, i32)| #[trigger] v0.contains(p) implies self.visited@.contains(p) by {
                        assert(pre.spec_visited().contains(p));
                    }
                    lemma_keys_distinct_subset(kz, tk, v0, self.visited@);
                    assert(table_sound(self.tt@, self.visited@, kz, tk, l3, l4, ni, level));
                }
            }
            if self.time_up {
                return 0;
            }
            if score > best {
                best = score;
                best_move = m;
            }
            if best > lo {
                lo = best;
            }
            if lo >= beta {
                if ply < MAX_PLY {
                    let k0 = self.killers[ply][0];
                    if k0 != m as i32 {
                        self.killers.set(ply, [m as i32, k0]);
                    }
                }
                let d = depth as i32;
                assert(d * d <= 65025) by (nonlinear_arith)
                    requires
                        0 <= d <= 255,
                ;
                let inc = d * d;
                let h = self.history[m as usize];
                let updated = if h > i32::MAX - inc {
                    i32::MAX
                } else {
                    h + inc
                };
                self.history.set(m as usize, updated);
                cutoff = true;
            }
            i = i + 1;
        }
        let bound = if best <= alpha_orig {
            TTBound::Upper
        } else if best >= beta {
            TTBound::Lower
        } else {
            TTBound::Exact
        };
        let ghost v = game_value(l3, l4, ni, depth as nat, cells0, side);
        proof {
            if good && keys_distinct_on(kz, tk, self.visited@) {
                assert(v == best_child(l3, l4, ni, d1, cells0, side, ni * ni));
                if cutoff {
                    let a = choose|a: int|
                        0 <= a < i && child_value(l3, l4, ni, d1, cells0, side, #[trigger] ordered@[a].1 as int)
                            >= best;
                    assert(lists_move(ordered@, ordered@[a].1 as int));
                    lemma_best_child_at_least(l3, l4, ni, d1, cells0, side, ni * ni, ordered@[a].1 as int);
                } else {
                    assert forall|x: int| 0 <= x < ni * ni && is_searched_move(cells0, ni, x) implies #[trigger] child_value(
                        l3,
                        l4,
                        ni,
                        d1,
                        cells0,
                        side,
                        x,
                    ) <= best by {
                        assert(lists_move(ordered@, x));
                        let a = choose|a: int| 0 <= a < ordered@.len() && #[trigger] ordered@[a].1 as int == x;
                    }
                    lemma_best_child_at_most(l3, l4, ni, d1, cells0, side, ni * ni, best as int);
                    if best > alpha_orig {
                        let a = choose|a: int|
                            0 <= a < i && child_value(l3, l4, ni, d1, cells0, side, #[trigger] ordered@[a].1 as int)
                                == best;
                        assert(lists_move(ordered@, ordered@[a].1 as int));
                        lemma_best_child_at_least(l3, l4, ni, d1, cells0, side, ni * ni, ordered@[a].1 as int);
                    }
                }
                assert(window_answer(best as int, alpha_orig as int, beta as int, v));
            }
        }
        let ghost tt_before = self.tt@;
        let entry = TTEntry { depth, value: best, best_move, bound, position: Ghost((cells0, side)) };
        self.tt.insert(self.hash, entry);
        proof {
            if good && keys_distinct_on(kz, tk, self.visited@) {
                assert(entry_sound(entry, v));
                assert forall|key: u64| #[trigger] self.tt@.contains_key(key) implies {
                    let pos = self.tt@[key].position@;
                    &&& self.visited@.contains(pos)
                    &&& position_key(kz, tk, pos.0, pos.1) == key
                    &&& pos.0.len() == ni * ni
                    &&& (pos.1 == SIDE_X || pos.1 == SIDE_O)
                    &&& self.tt@[key].depth - empty_count(pos.0) <= level
                    &&& entry_sound(self.tt@[key], game_value(l3, l4, ni, self.tt@[key].depth as nat, pos.0, pos.1))
                } by {
                    if key != self.hash {
                        assert(tt_before.contains_key(key));
                    }
                }
            }
        }
        best
    }

    /// Searches the position for `root_side` (`SIDE_X` or `SIDE_O`) until `deadline`,
    /// deepening one ply at a time from one ply up to the number of empty cells (at most
    /// `MAX_PLY - 1`), and stopping early once a finished depth is worth at least half a
    /// won game. Answers the value and the cell of the best move found by the last search
    /// that finished, and, as a ghost, that depth. When there is an empty cell the answer
    /// is one that the search considers (see `is_searched_move`), and `(0, 0)` when there
    /// is none. Before any depth finished the answer is 0 with the first move of best
    /// one-ply score (`fallback_move`); this is the answer when no node was searched. When
    /// the hash is the hash of the cells and no two of the positions whose table entry the
    /// search looked up share a key, a finished depth's answer is its negamax answer
    /// (`answer_at_depth`). When the time did not run out, some depth finished, and it is
    /// the last one (`depth_cap`) or one worth at least half a won game. The position is
    /// left as it was found, and the deadline kept. Every reading of the clock is recorded
    /// (`spec_readings`): there is at least one when a cell is empty; when the first finds
    /// the deadline reached, no depth finished; when none does, the time did not run out.
    /// The lines of three are at most 2147, or more than 31 cells are empty so that no
    /// search reaches a finished game.
    #[verifier::rlimit(60)]
    pub fn search_root(&mut self, root_side: i32, deadline: Instant) -> (r: (i32, usize, Ghost<nat>))
        requires
            old(self).wf(),
            root_side == SIDE_X || root_side == SIDE_O,
            old(self).spec_line3s().len() <= 2147 || empty_count(old(self).spec_cells()) > 31,
        ensures
            final(self).wf(),
            final(self).same_tables(old(self)),
            final(self).same_position(old(self)),
            final(self).spec_n() == old(self).spec_n(),
            final(self).spec_cells() == old(self).spec_cells(),
            final(self).spec_deadline() == deadline,
            r.2@ <= 31,
            final(self).spec_searched() == 0 ==> final(self).spec_nodes() == 0 && r.2@ == 0,
            r.2@ == 0 ==> r.0 == 0,
            r.2@ == 0 && any_empty(old(self).spec_cells(), old(self).spec_n()) ==> fallback_move(
                *old(self),
                root_side,
                r.1 as int,
            ),
            r.0 > i32::MIN,
            any_empty(old(self).spec_cells(), old(self).spec_n()) ==> r.1 < old(self).spec_n()
                * old(self).spec_n() && old(self).spec_cells()[r.1 as int] == C_EMPTY,
            any_empty(old(self).spec_cells(), old(self).spec_n()) ==> is_searched_move(
                old(self).spec_cells(),
                old(self).spec_n(),
                r.1 as int,
            ),
            !any_empty(old(self).spec_cells(), old(self).spec_n()) ==> r.0 == 0 && r.1 == 0 && r.2@ == 0,
            forall|p: (Seq<u8>, i32)| #[trigger] final(self).spec_visited().contains(p) ==> extends(
                old(self).spec_cells(),
                p.0,
            ) && (p.1 == SIDE_X || p.1 == SIDE_O),
            old(self).spec_hash() == old(self).spec_cells_hash() && keys_distinct_on(
                old(self).spec_keys(),
                old(self).spec_turn_key(),
                final(self).spec_visited(),
            ) && r.2@ > 0 ==> answer_at_depth(*old(self), root_side, r.2@ as int, r.0 as int, r.1 as int),
            !final(self).spec_time_up() && any_empty(old(self).spec_cells(), old(self).spec_n()) ==> r.2@
                >= 1 && (r.2@ == depth_cap(old(self).spec_cells()) || r.0 >= TERMINAL_SCALE / 2),
            readings_extend(final(self).spec_readings(), old(self).spec_readings()),
            no_alarm_since(final(self).spec_readings(), old(self).spec_readings().len() as int)
                ==> !final(self).spec_time_up(),
            any_empty(old(self).spec_cells(), old(self).spec_n())
                ==> final(self).spec_readings().len() > old(self).spec_readings().len(),
            any_empty(old(self).spec_cells(), old(self).spec_n())
                && final(self).spec_readings()[old(self).spec_readings().len() as int] ==> r.2@ == 0,
    {
        let ghost orig = *old(self);
        let ghost cc = (self.n * self.n) as int;
        let ghost good = orig.hash == zobrist_hash(orig.zobrist@, orig.cells@);
        let ghost l3 = orig.line3s@;
        let ghost l4 = orig.line4s@;
        let ghost ni = orig.n as int;
        let ghost cells0 = orig.cells@;
        let ghost kz = orig.zobrist@;
        let ghost tk = orig.turn_key;
        let ghost empties = empty_count(cells0);
        self.deadline = deadline;
        self.time_up = false;
        self.nodes = 0;
        self.searched = Ghost(0nat);
        self.tt.clear();
        self.visited = Ghost(Set::empty());
        let turn = if root_side == SIDE_X {
            self.turn_key
        } else {
            0u64
        };
        self.hash = self.hash ^ turn;
        let mut root_moves: Vec<u16> = Vec::with_capacity(25);
        self.local_moves(&mut root_moves);
        proof {
            lemma_moves_ok_legal(self.cells@, self.n as int, u16s_as_ints(root_moves@));
            lemma_searched_moves(self.cells@, self.n as int, u16s_as_ints(root_moves@));
        }
        if root_moves.len() == 0 {
            self.hash = self.hash ^ turn;
            proof {
                let oh = orig.hash;
                assert((oh ^ turn) ^ turn == oh) by (bit_vector);
            }
            return (0, 0, Ghost(0nat));
        }
        let mut scored: Vec<(i64, u16)> = Vec::with_capacity(root_moves.len());
        let mut j: usize = 0;
        while j < root_moves.len()
            invariant
                self.wf(),
                self.same_tables(&orig),
                orig == *old(self),
                orig.wf(),
                orig.line3s@.len() <= 2147 || empty_count(orig.cells@) > 31,
                cc == self.n * self.n,
                self.cells@ == orig.cells@,
                self.hash == orig.hash ^ turn,
                self.line3_x@ == orig.line3_x@,
                self.line3_o@ == orig.line3_o@,
                self.line4_x@ == orig.line4_x@,
                self.line4_o@ == orig.line4_o@,
                root_side == SIDE_X || root_side == SIDE_O,
                self.deadline == deadline,
                j <= root_moves@.len(),
                scored@.len() == j,
                self.tt@ == Map::<u64, TTEntry>::empty(),
                self.visited@ == Set::<(Seq<u8>, i32)>::empty(),
                self.searched@ == 0,
                self.nodes == 0,
                self.readings@ == orig.readings@,
                !self.time_up,
                forall|a: int| 0 <= a < root_moves@.len() ==> 0 <= #[trigger] u16s_as_ints(root_moves@)[a] < cc
                    && orig.cells@[u16s_as_ints(root_moves@)[a]] == C_EMPTY
                    && is_searched_move(orig.cells@, orig.n as int, u16s_as_ints(root_moves@)[a]),
                forall|a: int| 0 <= a < j ==> #[trigger] scored@[a].1 == root_moves@[a],
                forall|a: int| 0 <= a < j ==> #[trigger] scored@[a].0 == one_ply_score(
                    orig.line3s@,
                    orig.line4s@,
                    orig.cells@,
                    root_side,
                    root_moves@[a] as int,
                ),
            decreases root_moves@.len() - j,
        {
            let m = root_moves[j];
            assert(u16s_as_ints(root_moves@)[j as int] == m as int);
            let ghost c0 = self.cells@;
            let ghost h0 = self.hash;
            self.apply(m as usize, root_side);
            let h = self.heuristic();
            assert(self.line3s@.len() <= 65536 && self.line4s@.len() <= 65536) by (nonlinear_arith)
                requires
                    self.line3s@.len() <= 4 * (self.n * self.n),
                    self.line4s@.len() <= 4 * (self.n * self.n),
                    self.n <= 128,
            ;
            let score = h * root_side;
            assert(h as int == weights3(c0.update(m as int, mark(root_side)), orig.line3s@, orig.line3s@.len())
                + weights4(c0.update(m as int, mark(root_side)), orig.line4s@, orig.line4s@.len()));
            let ghost a = self.zobrist@[m as int]@[C_EMPTY as int];
            let ghost b = self.zobrist@[m as int]@[mark(root_side) as int];
            self.undo(m as usize, root_side);
            proof {
                assert(self.cells@ =~= c0);
                assert((h0 ^ a ^ b) ^ b ^ a == h0) by (bit_vector);
                lemma_counts_unique(c0, orig.line3s@, orig.line3_x@, orig.line3_o@, self.line3_x@, self.line3_o@);
                lemma_counts_unique(c0, orig.line4s@, orig.line4_x@, orig.line4_o@, self.line4_x@, self.line4_o@);
            }
            assert(score as int == one_ply_score(orig.line3s@, orig.line4s@, orig.cells@, root_side, m as int));
            scored.push((score as i64, m));
            j = j + 1;
        }
        proof {
            assert(all_moves_legal(orig.cells@, cc, scored@)) by {
                assert forall|i: int| 0 <= i < scored@.len() implies (#[trigger] scored@[i].1 as int) < cc
                    && orig.cells@[scored@[i].1 as int] == C_EMPTY by {
                    assert(u16s_as_ints(root_moves@)[i] == root_moves@[i] as int);
                }
            }
            assert(all_moves_searched(orig.cells@, orig.n as int, scored@)) by {
                assert forall|i: int| 0 <= i < scored@.len() implies is_searched_move(
                    orig.cells@,
                    orig.n as int,
                    #[trigger] scored@[i].1 as int,
                ) by {
                    assert(u16s_as_ints(root_moves@)[i] == root_moves@[i] as int);
                }
            }
        }
        let mut ordered = sort_by_score_desc(&scored);
        proof {
            lemma_sorted_by_score(scored@);
            lemma_legal_permutation(orig.cells@, cc, scored@, ordered@);
            lemma_searched_permutation(orig.cells@, orig.n as int, scored@, ordered@);
            lemma_moves_are_searched(orig.cells@, orig.n as int, u16s_as_ints(root_moves@));
            assert forall|x: int| is_searched_move(cells0, ni, x) implies lists_move(scored@, x) by {
                assert(u16s_as_ints(root_moves@).contains(x));
                let a = choose|a: int| 0 <= a < root_moves@.len() && u16s_as_ints(root_moves@)[a] == x;
                assert(scored@[a].1 == root_moves@[a]);
                assert(scored@[a].1 as int == x);
            }
            assert forall|x: int| lists_move(scored@, x) implies is_searched_move(cells0, ni, x) by {
                let a = choose|a: int| 0 <= a < scored@.len() && #[trigger] scored@[a].1 as int == x;
                assert(scored@[a].1 == root_moves@[a]);
                assert(u16s_as_ints(root_moves@)[a] == x);
                assert(u16s_as_ints(root_moves@).contains(x));
            }
            lemma_lists_permutation(scored@, ordered@);
            assert(scored_by_one_ply(l3, l4, cells0, root_side, scored@)) by {
                assert forall|a: int| 0 <= a < scored@.len() implies #[trigger] scored@[a].0 == one_ply_score(
                    l3,
                    l4,
                    cells0,
                    root_side,
                    scored@[a].1 as int,
                ) by {
                    assert(scored@[a].1 == root_moves@[a]);
                }
            }
            lemma_one_ply_permutation(l3, l4, cells0, root_side, scored@, ordered@);
            assert(any_empty(cells0, ni));
            assert(!board_full(cells0, ni));
            lemma_table_sound_mono(self.tt@, self.visited@, self.visited@, kz, tk, l3, l4, ni, 1 - empties, 1 - empties);
        }
        let ghost mut fin: nat = 0;
        let mut best_move: u16 = ordered[0].1;
        proof {
            assert(best_one_ply(orig, root_side, best_move as int)) by {
                assert(lists_move(ordered@, best_move as int));
                assert forall|y: int| #[trigger] is_searched_move(cells0, ni, y) implies one_ply_score(
                    l3,
                    l4,
                    cells0,
                    root_side,
                    y,
                ) <= one_ply_score(l3, l4, cells0, root_side, best_move as int) by {
                    assert(lists_move(ordered@, y));
                    let b = choose|b: int| 0 <= b < ordered@.len() && #[trigger] ordered@[b].1 as int == y;
                    assert(ordered@[b].0 == one_ply_score(l3, l4, cells0, root_side, y));
                    assert(ordered@[0].0 == one_ply_score(l3, l4, cells0, root_side, best_move as int));
                    if b > 0 {
                        assert(ordered@[0].0 >= ordered@[b].0);
                    }
                }
            }
            lemma_sorted_first(scored@);
            let j = choose|j: int|
                0 <= j < scored@.len() && sorted_by_score(scored@)[0] == scored@[j] && (forall|a: int|
                    0 <= a < scored@.len() ==> #[trigger] scored@[a].0 <= scored@[j].0) && (forall|a: int|
                    0 <= a < j ==> #[trigger] scored@[a].0 < scored@[j].0);
            let ms = u16s_as_ints(root_moves@);
            assert(ms[j] == best_move as int) by {
                assert(scored@[j].1 == root_moves@[j]);
            }
            assert forall|y: int|
                #[trigger] is_searched_move(cells0, ni, y) && scan_before(cells0, ni, y, best_move as int) implies one_ply_score(
                l3,
                l4,
                cells0,
                root_side,
                y,
            ) < one_ply_score(l3, l4, cells0, root_side, best_move as int) by {
                assert(ms.contains(y));
                let b = choose|b: int| 0 <= b < ms.len() && ms[b] == y;
                if b >= j {
                    if b > j {
                        if !any_stone(cells0, ni) {
                            assert(ms.len() == 1);
                        } else if any_candidate(cells0, ni) {
                            assert(scan_key(cells0, ni, ms[j]) < scan_key(cells0, ni, ms[b]));
                        } else {
                            assert(root_moves@[j] < root_moves@[b]);
                        }
                    }
                    assert(false);
                }
                assert(scored@[b].1 == root_moves@[b]);
                assert(scored@[b].0 < scored@[j].0);
            }
            assert(fallback_move(orig, root_side, best_move as int));
        }
        let mut best_score: i32 = 0;
        let mut n_empty: usize = 0;
        let mut e: usize = 0;
        while e < self.cells.len()
            invariant
                e <= self.cells@.len(),
                n_empty <= e,
                n_empty == empty_count(self.cells@.take(e as int)),
            decreases self.cells@.len() - e,
        {
            proof {
                assert(self.cells@.take(e + 1).drop_last() =~= self.cells@.take(e as int));
            }
            if self.cells[e] == C_EMPTY {
                n_empty = n_empty + 1;
            }
            e = e + 1;
        }
        proof {
            assert(self.cells@.take(e as int) =~= cells0);
            let y = choose|y: int| 0 <= y < ni * ni && #[trigger] cells0[y] == C_EMPTY;
            lemma_empty_count_pos(cells0, y);
        }
        let max_depth: u8 = if n_empty < MAX_PLY - 1 {
            n_empty as u8
        } else {
            (MAX_PLY - 1) as u8
        };
        let mut depth: u8 = 1;
        let mut stop = false;
        while depth <= max_depth && !stop
            invariant
                self.wf(),
                self.same_tables(&orig),
                orig == *old(self),
                orig.wf(),
                orig.line3s@.len() <= 2147 || empty_count(orig.cells@) > 31,
                cc == self.n * self.n,
                self.cells@ == orig.cells@,
                self.hash == orig.hash ^ turn,
                self.line3_x@ == orig.line3_x@,
                self.line3_o@ == orig.line3_o@,
                self.line4_x@ == orig.line4_x@,
                self.line4_o@ == orig.line4_o@,
                root_side == SIDE_X || root_side == SIDE_O,
                self.deadline == deadline,
                1 <= depth <= 32,
                max_depth <= 31,
                ordered@.len() >= 1,
                all_moves_legal(orig.cells@, cc, ordered@),
                all_moves_searched(orig.cells@, orig.n as int, ordered@),
                good == (orig.hash == zobrist_hash(orig.zobrist@, orig.cells@)),
                forall|p: (Seq<u8>, i32)| #[trigger] self.visited@.contains(p) ==> extends(cells0, p.0) && (p.1
                    == SIDE_X || p.1 == SIDE_O),
                l3 == orig.line3s@,
                l4 == orig.line4s@,
                ni == orig.n as int,
                cells0 == orig.cells@,
                kz == orig.zobrist@,
                tk == orig.turn_key,
                empties == empty_count(cells0),
                !board_full(cells0, ni),
                turn == if root_side == SIDE_X { tk } else { 0u64 },
                forall|x: int| is_searched_move(cells0, ni, x) <==> lists_move(ordered@, x),
                good && keys_distinct_on(kz, tk, self.visited@) && !stop ==> table_sound(self.tt@, self.visited@, kz, tk, l3, l4, ni, depth - empties),
                fin == 0 ==> best_score == 0 && fallback_move(orig, root_side, best_move as int),
                self.searched@ == 0 ==> fin == 0 && self.nodes == 0,
                good && keys_distinct_on(kz, tk, self.visited@) && fin > 0 ==> answer_at_depth(
                    orig,
                    root_side,
                    fin as int,
                    best_score as int,
                    best_move as int,
                ),
                fin <= 31,
                max_depth as int == depth_cap(cells0),
                1 <= max_depth,
                depth <= max_depth + 1,
                !stop ==> fin == depth - 1,
                !stop && fin > 0 ==> best_score < TERMINAL_SCALE / 2,
                stop ==> depth >= 2 && (self.time_up || (fin == depth - 1 && best_score >= TERMINAL_SCALE / 2)),
                readings_extend(self.readings@, orig.readings@),
                self.readings@.len() == orig.readings@.len() ==> depth == 1 && !self.time_up && self.nodes == 0,
                self.readings@.len() > orig.readings@.len() && self.readings@[orig.readings@.len() as int] ==> fin
                    == 0 && stop,
                no_alarm_since(self.readings@, orig.readings@.len() as int) ==> !self.time_up,
                (best_move as int) < cc && orig.cells@[best_move as int] == C_EMPTY,
                is_searched_move(orig.cells@, orig.n as int, best_move as int),
                best_score > i32::MIN,
            decreases 32 - depth,
        {
            let ghost v_iter = self.visited@;
            let ghost s_iter = self.searched@;
            let ghost fin_before = fin;
            let ghost best_score_before = best_score;
            let ghost best_move_before = best_move;
            assert(good && keys_distinct_on(kz, tk, v_iter) && fin_before > 0 ==> answer_at_depth(
                orig,
                root_side,
                fin_before as int,
                best_score_before as int,
                best_move_before as int,
            ));
            let probe: Option<u16> = match self.tt.get(&self.hash) {
                Some(entry) => Some(entry.best_move),
                None => None,
            };
            if let Some(bm) = probe {
                let ghost before = ordered@;
                move_to_front(&mut ordered, bm);
                proof {
                    lemma_legal_permutation(orig.cells@, cc, before, ordered@);
                    lemma_searched_permutation(orig.cells@, orig.n as int, before, ordered@);
                    lemma_lists_permutation(before, ordered@);
                }
            }
            let ghost before = ordered@;
            move_to_front(&mut ordered, best_move);
            proof {
                lemma_legal_permutation(orig.cells@, cc, before, ordered@);
                lemma_searched_permutation(orig.cells@, orig.n as int, before, ordered@);
                lemma_lists_permutation(before, ordered@);
            }
            let ghost d1 = (depth - 1) as nat;
            let ghost level = depth - empties;
            let mut alpha: i32 = -(i32::MAX / 2);
            let beta: i32 = i32::MAX / 2;
            let mut iter_best_move: u16 = ordered[0].1;
            let mut iter_best_score: i32 = -(i32::MAX / 2);
            let mut iter_scores: Vec<(i64, u16)> = Vec::with_capacity(ordered.len());
            let mut completed = true;
            let n_moves = ordered.len();
            let mut i: usize = 0;
            while i < n_moves && completed
                invariant
                    self.wf(),
                    self.same_tables(&orig),
                    orig == *old(self),
                    orig.wf(),
                    orig.line3s@.len() <= 2147 || empty_count(orig.cells@) > 31,
                    cc == self.n * self.n,
                    self.cells@ == orig.cells@,
                    self.hash == orig.hash ^ turn,
                    self.line3_x@ == orig.line3_x@,
                    self.line3_o@ == orig.line3_o@,
                    self.line4_x@ == orig.line4_x@,
                    self.line4_o@ == orig.line4_o@,
                    root_side == SIDE_X || root_side == SIDE_O,
                    self.deadline == deadline,
                self.deadline == deadline,
                    1 <= depth <= 31,
                    n_moves == ordered@.len(),
                    n_moves >= 1,
                    i <= n_moves,
                    all_moves_legal(orig.cells@, cc, ordered@),
                    all_moves_searched(orig.cells@, orig.n as int, ordered@),
                    alpha > i32::MIN,
                    beta == i32::MAX / 2,
                    iter_best_score > i32::MIN,
                    (iter_best_move as int) < cc && orig.cells@[iter_best_move as int] == C_EMPTY,
                    is_searched_move(orig.cells@, orig.n as int, iter_best_move as int),
                    good == (orig.hash == zobrist_hash(orig.zobrist@, orig.cells@)),
                    forall|p: (Seq<u8>, i32)| #[trigger] v_iter.contains(p) ==> self.visited@.contains(p),
                    self.searched@ >= s_iter,
                    self.searched@ == 0 ==> self.nodes == 0 && (completed ==> i == 0),
                    !completed ==> self.time_up,
                    readings_extend(self.readings@, orig.readings@),
                    self.readings@.len() == orig.readings@.len() ==> depth == 1 && i == 0 && completed && self.nodes
                        == 0 && !self.time_up,
                    self.readings@.len() > orig.readings@.len() && self.readings@[orig.readings@.len() as int] ==> fin
                        == 0 && !completed,
                    no_alarm_since(self.readings@, orig.readings@.len() as int) ==> !self.time_up,
                    fin == depth - 1,
                    forall|p: (Seq<u8>, i32)| #[trigger] self.visited@.contains(p) ==> extends(cells0, p.0) && (p.1
                        == SIDE_X || p.1 == SIDE_O),
                    l3 == orig.line3s@,
                    l4 == orig.line4s@,
                    ni == orig.n as int,
                    cells0 == orig.cells@,
                    kz == orig.zobrist@,
                    tk == orig.turn_key,
                    empties == empty_count(cells0),
                    level == depth - empties,
                    d1 == depth - 1,
                    turn == if root_side == SIDE_X { tk } else { 0u64 },
                    iter_best_score >= -(i32::MAX / 2),
                    alpha as int == if iter_best_score > -(i32::MAX / 2) {
                        iter_best_score as int
                    } else {
                        -(i32::MAX / 2)
                    },
                    good && keys_distinct_on(kz, tk, self.visited@) && alpha < beta ==> table_sound(self.tt@, self.visited@, kz, tk, l3, l4, ni, level),
                    good && keys_distinct_on(kz, tk, self.visited@) && completed && alpha < beta ==> forall|a: int|
                        0 <= a < i ==> child_value(l3, l4, ni, d1, cells0, root_side, #[trigger] ordered@[a].1 as int)
                            <= iter_best_score,
                    good && keys_distinct_on(kz, tk, self.visited@) && completed && alpha < beta && iter_best_score > -(i32::MAX / 2) ==> child_value(
                        l3,
                        l4,
                        ni,
                        d1,
                        cells0,
                        root_side,
                        iter_best_move as int,
                    ) == iter_best_score,
                    completed ==> iter_scores@.len() == i,
                    completed ==> forall|a: int| 0 <= a < i ==> #[trigger] iter_scores@[a].1 == ordered@[a].1,
                    forall|a: int| 0 <= a < iter_scores@.len() ==> (#[trigger] iter_scores@[a].0) > i32::MIN,
                decreases n_moves - i, if completed {
                    1int
                } else {
                    0int
                },
            {
                let ghost before_check = *self;
                assert(0u64 & 0x7ffu64 == 0u64) by (bit_vector);
                if self.check_time() {
                    proof {
                        if !before_check.time_up {
                            assert(self.readings@[before_check.readings@.len() as int]);
                        }
                    }
                    completed = false;
                } else {
                    let m = ordered[i].1;
                    let ghost c0 = self.cells@;
                    let ghost h0 = self.hash;
                    let ghost t = self.turn_key;
                    self.apply(m as usize, root_side);
                    let ghost a = self.zobrist@[m as int]@[C_EMPTY as int];
                    let ghost b = self.zobrist@[m as int]@[mark(root_side) as int];
                    self.hash = self.hash ^ self.turn_key;
                    let ghost h1 = self.hash;
                    let ghost c1 = self.cells@;
                    let ghost alpha_before = alpha;
                    let ghost v0 = self.visited@;
                    let ghost pre = *self;
                    proof {
                        lemma_empty_count_fill(c0, m as int, mark(root_side));
                        if good && keys_distinct_on(kz, tk, self.visited@) && alpha < beta {
                            lemma_zobrist_hash_update(kz, c0, m as int, mark(root_side));
                            lemma_empty_count_fill(c0, m as int, mark(root_side));
                            let zh = zobrist_hash(kz, c0);
                            if root_side == SIDE_X {
                                assert((zh ^ t ^ a ^ b) ^ t == (zh ^ a ^ b) ^ 0u64) by (bit_vector);
                            } else {
                                assert((zh ^ 0u64 ^ a ^ b) ^ t == (zh ^ a ^ b) ^ t) by (bit_vector);
                            }
                            assert(self.search_premises((depth - 1) as int, (-root_side) as i32));
                        }
                    }
                    let child = self.negamax(depth - 1, -beta, -alpha, -root_side, 1);
                    let score = -child;
                    let ghost cv = child_value(l3, l4, ni, d1, cells0, root_side, m as int);
                    proof {
                        assert forall|p: (Seq<u8>, i32)| #[trigger] v0.contains(p) implies self.visited@.contains(p) by {
                            assert(pre.spec_visited().contains(p));
                        }
                        assert forall|p: (Seq<u8>, i32)| #[trigger] v_iter.contains(p) implies self.visited@.contains(p) by {
                            assert(v0.contains(p));
                        }
                        assert forall|p: (Seq<u8>, i32)| #[trigger] self.visited@.contains(p) implies extends(cells0, p.0)
                            && (p.1 == SIDE_X || p.1 == SIDE_O) by {
                            assert(self.spec_visited().contains(p));
                    assert(pre.spec_visited() == v0 && pre.spec_cells() == c1);
                    if !v0.contains(p) {
                        assert(!pre.spec_visited().contains(p));
                                lemma_extends_after_move(cells0, m as int, root_side, p.0);
                            }
                        }
                        if good && keys_distinct_on(kz, tk, self.visited@) && alpha_before < beta {
                            assert forall|p: (Seq<u8>, i32)| #[trigger] v0.contains(p) implies self.visited@.contains(p) by {
                        assert(pre.spec_visited().contains(p));
                    }
                    lemma_keys_distinct_subset(kz, tk, v0, self.visited@);
                            assert(table_sound(self.tt@, self.visited@, kz, tk, l3, l4, ni, level));
                            if !self.time_up {
                                assert(cells0.update(m as int, mark(root_side)) == c1);
                                assert(alpha_before < score && score < beta ==> cv == score);
                                assert(score >= beta ==> cv >= score);
                                assert(score <= alpha_before ==> cv <= score);
                            }
                        }
                    }
                    self.hash = self.hash ^ self.turn_key;
                    assert(self.hash == h0 ^ a ^ b) by {
                        assert(h1 == (h0 ^ a ^ b) ^ t);
                        assert(((h0 ^ a ^ b) ^ t) ^ t == h0 ^ a ^ b) by (bit_vector);
                    }
                    self.undo(m as usize, root_side);
                    proof {
                        assert(self.cells@ =~= c0);
                        assert((h0 ^ a ^ b) ^ b ^ a == h0) by (bit_vector);
                        lemma_counts_unique(c0, orig.line3s@, orig.line3_x@, orig.line3_o@, self.line3_x@, self.line3_o@);
                        lemma_counts_unique(c0, orig.line4s@, orig.line4_x@, orig.line4_o@, self.line4_x@, self.line4_o@);
                    }
                    if self.time_up {
                        completed = false;
                    } else {
                        iter_scores.push((score as i64, m));
                        if score > iter_best_score {
                            iter_best_score = score;
                            iter_best_move = m;
                        }
                        if score > alpha {
                            alpha = score;
                        }
                        i = i + 1;
                    }
                }
            }
            if completed {
                proof {
                    if good && keys_distinct_on(kz, tk, self.visited@) && iter_best_score < beta {
                        let v = game_value(l3, l4, ni, depth as nat, cells0, root_side);
                        assert(v == best_child(l3, l4, ni, d1, cells0, root_side, ni * ni));
                        assert forall|x: int| 0 <= x < ni * ni && is_searched_move(cells0, ni, x) implies #[trigger] child_value(
                            l3,
                            l4,
                            ni,
                            d1,
                            cells0,
                            root_side,
                            x,
                        ) <= iter_best_score by {
                            assert(lists_move(ordered@, x));
                            let a = choose|a: int| 0 <= a < ordered@.len() && #[trigger] ordered@[a].1 as int == x;
                        }
                        lemma_best_child_at_most(l3, l4, ni, d1, cells0, root_side, ni * ni, iter_best_score as int);
                        if iter_best_score > -(i32::MAX / 2) {
                            lemma_best_child_at_least(l3, l4, ni, d1, cells0, root_side, ni * ni, iter_best_move as int);
                        }
                    }
                    if good && keys_distinct_on(kz, tk, self.visited@) {
                        assert(root_answer(orig, depth as int, root_side, iter_best_score as int, iter_best_move as int));
                    }
                }
                best_move = iter_best_move;
                best_score = iter_best_score;
                proof {
                    fin = depth as nat;
                }
                proof {
                    assert(all_moves_legal(orig.cells@, cc, iter_scores@)) by {
                        assert forall|q: int| 0 <= q < iter_scores@.len() implies (#[trigger] iter_scores@[q].1 as int) < cc
                            && orig.cells@[iter_scores@[q].1 as int] == C_EMPTY by {
                            assert(iter_scores@[q].1 == ordered@[q].1);
                        }
                    }
                    assert(all_moves_searched(orig.cells@, orig.n as int, iter_scores@)) by {
                        assert forall|q: int| 0 <= q < iter_scores@.len() implies is_searched_move(
                            orig.cells@,
                            orig.n as int,
                            #[trigger] iter_scores@[q].1 as int,
                        ) by {
                            assert(iter_scores@[q].1 == ordered@[q].1);
                        }
                    }
                }
                let resorted = sort_by_score_desc(&iter_scores);
                proof {
                    lemma_sorted_by_score(iter_scores@);
                    lemma_legal_permutation(orig.cells@, cc, iter_scores@, resorted@);
                    lemma_searched_permutation(orig.cells@, orig.n as int, iter_scores@, resorted@);
                    assert forall|x: int| lists_move(ordered@, x) <==> lists_move(iter_scores@, x) by {
                        if lists_move(ordered@, x) {
                            let a = choose|a: int| 0 <= a < ordered@.len() && #[trigger] ordered@[a].1 as int == x;
                            assert(iter_scores@[a].1 == ordered@[a].1);
                        }
                        if lists_move(iter_scores@, x) {
                            let a = choose|a: int| 0 <= a < iter_scores@.len() && #[trigger] iter_scores@[a].1 as int == x;
                            assert(iter_scores@[a].1 == ordered@[a].1);
                        }
                    }
                    lemma_lists_permutation(iter_scores@, resorted@);
                }
                ordered = resorted;
                if best_score >= TERMINAL_SCALE / 2 {
                    stop = true;
                }
            } else {
                stop = true;
            }
            proof {
                if good && keys_distinct_on(kz, tk, self.visited@) {
                    lemma_keys_distinct_subset(kz, tk, v_iter, self.visited@);
                    if completed {
                        assert(root_answer(orig, depth as int, root_side, best_score as int, best_move as int));
                        assert forall|e: int| 1 <= e < fin implies #[trigger] orig.spec_value(e as nat, root_side)
                            < TERMINAL_SCALE / 2 by {
                            assert(e <= fin_before);
                            assert(answer_at_depth(orig, root_side, fin_before as int, best_score_before as int, best_move_before as int));
                            if e == fin_before {
                                assert(root_answer(orig, e, root_side, best_score_before as int, best_move_before as int));
                                assert(best_score_before < TERMINAL_SCALE / 2);
                            }
                        }
                    }
                }
                if good && keys_distinct_on(kz, tk, self.visited@) && !stop {
                    lemma_table_sound_mono(self.tt@, self.visited@, self.visited@, kz, tk, l3, l4, ni, depth - empties, depth + 1 - empties);
                }
            }
            depth = depth + 1;
        }
        self.hash = self.hash ^ turn;
        proof {
            let oh = orig.hash;
            assert((oh ^ turn) ^ turn == oh) by (bit_vector);
            assert(orig.spec_cells() == cells0);
        }
        (best_score, best_move as usize, Ghost(fin))
    }

    /// `self` is what playing `side` on the empty cell `idx` of `before` gives.
    pub closed spec fn is_applied(&self, before: &State, idx: int, side: i32) -> bool {
        &&& self.wf()
        &&& self.same_tables(before)
        &&& self.same_search_data(before)
        &&& self.cells@ == before.cells@.update(idx, mark(side))
        &&& self.hash == before.hash ^ before.zobrist@[idx]@[C_EMPTY as int]
            ^ before.zobrist@[idx]@[mark(side) as int]
    }

    /// `self` is what taking back the move of `side` on cell `idx` of `before` gives.
    pub closed spec fn is_undone(&self, before: &State, idx: int, side: i32) -> bool {
        &&& self.wf()
        &&& self.same_tables(before)
        &&& self.same_search_data(before)
        &&& self.cells@ == before.cells@.update(idx, C_EMPTY)
        &&& self.hash == before.hash ^ before.zobrist@[idx]@[mark(side) as int]
            ^ before.zobrist@[idx]@[C_EMPTY as int]
    }

    /// Plays `side` (X when it is `SIDE_X`, O otherwise) on the empty cell `idx`,
    /// updating the hash and the counters of every line through the cell.
    pub fn apply(&mut self, idx: usize, side: i32)
        requires
            old(self).wf(),
            idx < old(self).spec_n() * old(self).spec_n(),
            old(self).spec_cells()[idx as int] == C_EMPTY,
        ensures
            final(self).is_applied(old(self), idx as int, side),
            final(self).wf(),
            final(self).same_tables(old(self)),
            final(self).same_search_data(old(self)),
            final(self).spec_n() == old(self).spec_n(),
            final(self).spec_turn_key() == old(self).spec_turn_key(),
            forall|i: int, c: int| #[trigger] final(self).spec_key(i, c) == old(self).spec_key(i, c),
            final(self).spec_cells() == old(self).spec_cells().update(idx as int, mark(side)),
            final(self).spec_hash() == old(self).spec_hash() ^ old(self).spec_key(idx as int, C_EMPTY as int)
                ^ old(self).spec_key(idx as int, mark(side) as int),
            final(self).spec_hash() ^ final(self).spec_cells_hash() == old(self).spec_hash()
                ^ old(self).spec_cells_hash(),
    {
        let ghost cc = (self.n * self.n) as int;
        let ghost cells0 = self.cells@;
        let ghost h0 = self.hash;
        let old_code = self.cells[idx] as usize;
        let new_code: usize = if side == SIDE_X {
            C_X as usize
        } else {
            C_O as usize
        };
        self.hash = self.hash ^ self.zobrist[idx][old_code] ^ self.zobrist[idx][new_code];
        let m = if side == SIDE_X {
            C_X
        } else {
            C_O
        };
        self.cells.set(idx, m);
        proof {
            lemma_cell_list(cells0, self.line3s@, self.cell_to_l3@, self.line3_x@, self.line3_o@, idx as int, cc);
            lemma_cell_list(cells0, self.line4s@, self.cell_to_l4@, self.line4_x@, self.line4_o@, idx as int, cc);
        }
        let ghost x3 = self.line3_x@;
        let ghost o3 = self.line3_o@;
        let ghost x4 = self.line4_x@;
        let ghost o4 = self.line4_o@;
        if side == SIDE_X {
            bump_counts(&mut self.line3_x, &self.cell_to_l3[idx], true);
            bump_counts(&mut self.line4_x, &self.cell_to_l4[idx], true);
        } else {
            bump_counts(&mut self.line3_o, &self.cell_to_l3[idx], true);
            bump_counts(&mut self.line4_o, &self.cell_to_l4[idx], true);
        }
        proof {
            lemma_counts_after_set(cells0, self.line3s@, self.cell_to_l3@, x3, o3, self.line3_x@, self.line3_o@, idx as int, m, cc);
            lemma_counts_after_set(cells0, self.line4s@, self.cell_to_l4@, x4, o4, self.line4_x@, self.line4_o@, idx as int, m, cc);
            lemma_zobrist_hash_update(self.zobrist@, cells0, idx as int, m);
            let a = self.zobrist@[idx as int]@[C_EMPTY as int];
            let b = self.zobrist@[idx as int]@[m as int];
            let z = zobrist_hash(self.zobrist@, cells0);
            assert((h0 ^ a ^ b) ^ (z ^ a ^ b) == h0 ^ z) by (bit_vector);
        }
    }

    /// Takes back the move of `side` on cell `idx`, which `side` holds.
    pub fn undo(&mut self, idx: usize, side: i32)
        requires
            old(self).wf(),
            idx < old(self).spec_n() * old(self).spec_n(),
            old(self).spec_cells()[idx as int] == mark(side),
        ensures
            final(self).is_undone(old(self), idx as int, side),
            final(self).wf(),
            final(self).same_tables(old(self)),
            final(self).same_search_data(old(self)),
            final(self).spec_n() == old(self).spec_n(),
            final(self).spec_turn_key() == old(self).spec_turn_key(),
            forall|i: int, c: int| #[trigger] final(self).spec_key(i, c) == old(self).spec_key(i, c),
            final(self).spec_cells() == old(self).spec_cells().update(idx as int, C_EMPTY),
            final(self).spec_hash() == old(self).spec_hash() ^ old(self).spec_key(idx as int, mark(side) as int)
                ^ old(self).spec_key(idx as int, C_EMPTY as int),
            final(self).spec_hash() ^ final(self).spec_cells_hash() == old(self).spec_hash()
                ^ old(self).spec_cells_hash(),
    {
        let ghost cc = (self.n * self.n) as int;
        let ghost cells0 = self.cells@;
        let ghost h0 = self.hash;
        let old_code = self.cells[idx] as usize;
        self.hash = self.hash ^ self.zobrist[idx][old_code] ^ self.zobrist[idx][C_EMPTY as usize];
        self.cells.set(idx, C_EMPTY);
        proof {
            lemma_cell_list(cells0, self.line3s@, self.cell_to_l3@, self.line3_x@, self.line3_o@, idx as int, cc);
            lemma_cell_list(cells0, self.line4s@, self.cell_to_l4@, self.line4_x@, self.line4_o@, idx as int, cc);
        }
        let ghost x3 = self.line3_x@;
        let ghost o3 = self.line3_o@;
        let ghost x4 = self.line4_x@;
        let ghost o4 = self.line4_o@;
        if side == SIDE_X {
            bump_counts(&mut self.line3_x, &self.cell_to_l3[idx], false);
            bump_counts(&mut self.line4_x, &self.cell_to_l4[idx], false);
        } else {
            bump_counts(&mut self.line3_o, &self.cell_to_l3[idx], false);
            bump_counts(&mut self.line4_o, &self.cell_to_l4[idx], false);
        }
        proof {
            let m = mark(side);
            lemma_counts_after_clear(cells0, self.line3s@, self.cell_to_l3@, x3, o3, self.line3_x@, self.line3_o@, idx as int, m, cc);
            lemma_counts_after_clear(cells0, self.line4s@, self.cell_to_l4@, x4, o4, self.line4_x@, self.line4_o@, idx as int, m, cc);
            lemma_zobrist_hash_update(self.zobrist@, cells0, idx as int, C_EMPTY);
            let a = self.zobrist@[idx as int]@[m as int];
            let b = self.zobrist@[idx as int]@[C_EMPTY as int];
            let z = zobrist_hash(self.zobrist@, cells0);
            assert((h0 ^ a ^ b) ^ (z ^ a ^ b) == h0 ^ z) by (bit_vector);
        }
    }
}

/// Counters that agree with the same cells on the same lines are the same counters.
proof fn lemma_counts_unique<const L: usize>(
    cells: Seq<u8>,
    lines: Seq<[u16; L]>,
    xs: Seq<u8>,
    os: Seq<u8>,
    xs2: Seq<u8>,
    os2: Seq<u8>,
)
    requires
        counts_match(cells, lines, xs, os),
        counts_match(cells, lines, xs2, os2),
    ensures
        xs == xs2,
        os == os2,
{
    assert forall|k: int| 0 <= k < xs.len() implies xs[k] == xs2[k] by {
        assert(xs[k] as nat == line_count(cells, lines[k], C_X));
        assert(xs2[k] as nat == line_count(cells, lines[k], C_X));
    }
    assert forall|k: int| 0 <= k < os.len() implies os[k] == os2[k] by {
        assert(xs[k] as nat == line_count(cells, lines[k], C_X));
        assert(os2[k] as nat == line_count(cells, lines[k], C_O));
    }
    assert(xs =~= xs2);
    assert(os =~= os2);
}

/// What the invariant and the frames of a state tell its users: a state in good order
/// has one to 128 rows and one code per cell; two states with the same tables have the same
/// size, keys and turn key; two states in the same position have the same cells and hash.
pub proof fn lemma_state_facts(a: State, b: State)
    ensures
        a.wf() ==> 1 <= a.spec_n() <= 128 && a.spec_cells().len() == a.spec_n() * a.spec_n(),
        a.same_tables(&b) ==> a.spec_n() == b.spec_n() && a.spec_turn_key() == b.spec_turn_key()
            && forall|i: int, c: int| #[trigger] a.spec_key(i, c) == b.spec_key(i, c),
        a.same_position(&b) ==> a.spec_cells() == b.spec_cells() && a.spec_hash() == b.spec_hash(),
        a.spec_lines3().len() == a.spec_line3s().len(),
        a.wf() ==> lines_sorted_in_board(a.spec_line3s(), a.spec_n() * a.spec_n()) && lines_sorted_in_board(
            a.spec_line4s(),
            a.spec_n() * a.spec_n(),
        ),
        a.spec_lines4().len() == a.spec_line4s().len(),
{
}

/// Two states in good order over the same lines, whose cells are the same but for X and O
/// exchanged, have opposite scores and opposite static evaluations; so a state with no X
/// and no O stone has score and evaluation zero.
pub proof fn lemma_heuristic_swap(a: State, b: State)
    requires
        a.wf(),
        b.spec_line3s() == a.spec_line3s(),
        b.spec_line4s() == a.spec_line4s(),
        b.spec_cells() == swap_sides(a.spec_cells()),
    ensures
        b.spec_heuristic() == -a.spec_heuristic(),
        b.spec_score() == -a.spec_score(),
        swap_sides(a.spec_cells()) == a.spec_cells() ==> a.spec_heuristic() == 0 && a.spec_score() == 0,
{
    lemma_state_facts(a, a);
    lemma_swap_sides_negates(a.spec_cells(), a.spec_line3s(), a.spec_line4s());
}

/// The heuristic depends on the position only through the counters of X and O cells of
/// each line: exchanging the X and O counters of every line negates it, and where each
/// line holds as many X as O cells (a position with no stone, say), it is zero.
pub proof fn lemma_heuristic_swap_counts(a: State, b: State)
    requires
        a.wf(),
        b.wf(),
        b.spec_line3s() == a.spec_line3s(),
        b.spec_line4s() == a.spec_line4s(),
        b.spec_line3_x() == a.spec_line3_o(),
        b.spec_line3_o() == a.spec_line3_x(),
        b.spec_line4_x() == a.spec_line4_o(),
        b.spec_line4_o() == a.spec_line4_x(),
    ensures
        b.spec_heuristic() == -a.spec_heuristic(),
        a.spec_line3_x() == a.spec_line3_o() && a.spec_line4_x() == a.spec_line4_o() ==> a.spec_heuristic() == 0,
{
    let k3 = a.line3s@.len();
    let k4 = a.line4s@.len();
    lemma_weights_from_counts3(a.cells@, a.line3s@, a.line3_x@, a.line3_o@, k3);
    lemma_weights_from_counts4(a.cells@, a.line4s@, a.line4_x@, a.line4_o@, k4);
    lemma_weights_from_counts3(b.cells@, b.line3s@, b.line3_x@, b.line3_o@, k3);
    lemma_weights_from_counts4(b.cells@, b.line4s@, b.line4_x@, b.line4_o@, k4);
    lemma_count_weights_swap(a.line3_x@, a.line3_o@, a.line4_x@, a.line4_o@, k3, k4);
}

/// Taking back a move restores the position it was played on: the same cells, the
/// same hash and the same line counters, with every other table untouched.
pub proof fn lemma_undo_after_apply(s0: State, s1: State, s2: State, idx: int, side: i32)
    requires
        s0.wf(),
        0 <= idx < s0.spec_n() * s0.spec_n(),
        s0.spec_cells()[idx] == C_EMPTY,
        s1.is_applied(&s0, idx, side),
        s2.is_undone(&s1, idx, side),
    ensures
        s2.same_position(&s0),
        s2.same_tables(&s0),
        s2.same_search_data(&s0),
{
    assert(s2.cells@ =~= s0.cells@);
    let a = s0.zobrist@[idx]@[C_EMPTY as int];
    let b = s0.zobrist@[idx]@[mark(side) as int];
    let h = s0.hash;
    assert((h ^ a ^ b) ^ b ^ a == h) by (bit_vector);
    lemma_counts_unique(s0.cells@, s0.line3s@, s0.line3_x@, s0.line3_o@, s2.line3_x@, s2.line3_o@);
    lemma_counts_unique(s0.cells@, s0.line4s@, s0.line4_x@, s0.line4_o@, s2.line4_x@, s2.line4_o@);
}

} // verus!
