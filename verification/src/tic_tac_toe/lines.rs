//! The winning lines of a board: every run of three (or four) cells in a row,
//! a column or a diagonal that crosses no wall.
use vstd::prelude::*;
use crate::tic_tac_toe::board::C_WALL;

verus! {

/// The cells `base, base + step, ..., base + (len - 1) * step`.
pub open spec fn window(base: int, step: int, len: nat) -> Seq<int> {
    Seq::new(len, |t: int| base + t * step)
}

/// True when one of the cells named by `w` holds a wall.
pub open spec fn window_has_wall(cells: Seq<u8>, w: Seq<int>) -> bool {
    exists|t: int| 0 <= t < w.len() && cells[#[trigger] w[t]] == C_WALL
}

/// The window as a one-element list when it crosses no wall, else nothing.
pub open spec fn keep(cells: Seq<u8>, w: Seq<int>) -> Seq<Seq<int>> {
    if window_has_wall(cells, w) {
        Seq::empty()
    } else {
        seq![w]
    }
}

/// The row window starting at (i, j) followed by the column window starting at (j, i).
pub open spec fn row_col_pair(cells: Seq<u8>, n: int, len: nat, i: int, j: int) -> Seq<Seq<int>> {
    keep(cells, window(i * n + j, 1, len)) + keep(cells, window(j * n + i, n, len))
}

/// The row and column windows of line `i` for the first `jc` start positions.
pub open spec fn row_col_line(cells: Seq<u8>, n: int, len: nat, i: int, jc: nat) -> Seq<Seq<int>>
    decreases jc,
{
    if jc == 0 {
        Seq::empty()
    } else {
        row_col_line(cells, n, len, i, (jc - 1) as nat) + row_col_pair(cells, n, len, i, jc - 1)
    }
}

/// The row and column windows of the first `ic` lines.
pub open spec fn row_col_all(cells: Seq<u8>, n: int, len: nat, ic: nat) -> Seq<Seq<int>>
    decreases ic,
{
    if ic == 0 {
        Seq::empty()
    } else {
        row_col_all(cells, n, len, (ic - 1) as nat) + row_col_line(
            cells,
            n,
            len,
            ic - 1,
            (n - len + 1) as nat,
        )
    }
}

/// The down-right diagonal windows starting in row `i` at the first `jc` columns.
pub open spec fn diag_down_line(cells: Seq<u8>, n: int, len: nat, i: int, jc: nat) -> Seq<Seq<int>>
    decreases jc,
{
    if jc == 0 {
        Seq::empty()
    } else {
        diag_down_line(cells, n, len, i, (jc - 1) as nat) + keep(
            cells,
            window(i * n + (jc - 1), n + 1, len),
        )
    }
}

/// The down-left diagonal windows starting in row `i` at the first `jc` columns
/// from column `len - 1` on.
pub open spec fn diag_up_line(cells: Seq<u8>, n: int, len: nat, i: int, jc: nat) -> Seq<Seq<int>>
    decreases jc,
{
    if jc == 0 {
        Seq::empty()
    } else {
        diag_up_line(cells, n, len, i, (jc - 1) as nat) + keep(
            cells,
            window(i * n + (len - 1) + (jc - 1), n - 1, len),
        )
    }
}

/// The diagonal windows whose first cell lies in one of the first `ic` rows.
pub open spec fn diag_all(cells: Seq<u8>, n: int, len: nat, ic: nat) -> Seq<Seq<int>>
    decreases ic,
{
    if ic == 0 {
        Seq::empty()
    } else {
        diag_all(cells, n, len, (ic - 1) as nat) + diag_down_line(
            cells,
            n,
            len,
            ic - 1,
            (n - len + 1) as nat,
        ) + diag_up_line(cells, n, len, ic - 1, (n - len + 1) as nat)
    }
}

/// All wall-free windows of `len` cells on an `n` by `n` board, in the order the
/// builders list them: rows and columns line by line, then the diagonals row by row.
/// Each such window is listed once (see `lemma_all_lines_are_the_board_lines`).
pub open spec fn all_lines(cells: Seq<u8>, n: int, len: nat) -> Seq<Seq<int>> {
    if n < len {
        Seq::empty()
    } else {
        row_col_all(cells, n, len, n as nat) + diag_all(cells, n, len, (n - len + 1) as nat)
    }
}

/// The row and column windows of one line number are at most two per start position.
proof fn lemma_row_col_line_len(cells: Seq<u8>, n: int, len: nat, i: int, jc: nat)
    ensures
        row_col_line(cells, n, len, i, jc).len() <= 2 * jc,
    decreases jc,
{
    if jc > 0 {
        lemma_row_col_line_len(cells, n, len, i, (jc - 1) as nat);
    }
}

/// The diagonal windows that start in one row are at most one per start position, each way.
proof fn lemma_diag_lines_len(cells: Seq<u8>, n: int, len: nat, i: int, jc: nat)
    ensures
        diag_down_line(cells, n, len, i, jc).len() <= jc,
        diag_up_line(cells, n, len, i, jc).len() <= jc,
    decreases jc,
{
    if jc > 0 {
        lemma_diag_lines_len(cells, n, len, i, (jc - 1) as nat);
    }
}

/// At most `2 * ic * m` row and column windows, and as many diagonal ones, where `m` is the
/// number of start positions on a line.
proof fn lemma_all_parts_len(cells: Seq<u8>, n: int, len: nat, ic: nat)
    requires
        n >= len,
    ensures
        row_col_all(cells, n, len, ic).len() <= 2 * (ic * (n - len + 1)),
        diag_all(cells, n, len, ic).len() <= 2 * (ic * (n - len + 1)),
    decreases ic,
{
    if ic > 0 {
        let m = n - len + 1;
        lemma_all_parts_len(cells, n, len, (ic - 1) as nat);
        lemma_row_col_line_len(cells, n, len, ic - 1, m as nat);
        lemma_diag_lines_len(cells, n, len, ic - 1, m as nat);
        assert((ic - 1) * m + m == ic * m) by (nonlinear_arith);
    }
}

/// An `n` by `n` board has at most `2 n (n - 2) + 2 (n - 2)^2` lines of three.
pub proof fn lemma_lines_of_three_count(cells: Seq<u8>, n: int)
    requires
        n >= 3,
    ensures
        all_lines(cells, n, 3).len() <= 2 * (n * (n - 2)) + 2 * ((n - 2) * (n - 2)),
{
    lemma_all_parts_len(cells, n, 3, n as nat);
    lemma_all_parts_len(cells, n, 3, (n - 2) as nat);
}

/// The cells of a line, as integers.
pub open spec fn line_cells<const L: usize>(line: [u16; L]) -> Seq<int> {
    line@.map_values(|x: u16| x as int)
}

/// The cells of every line, as integers.
pub open spec fn lines_cells<const L: usize>(lines: Seq<[u16; L]>) -> Seq<Seq<int>> {
    lines.map_values(|l: [u16; L]| line_cells(l))
}

/// The positions, in increasing order, among the first `kc` lines of those that contain `idx`.
pub open spec fn lines_through(lines: Seq<Seq<int>>, idx: int, kc: nat) -> Seq<int>
    decreases kc,
{
    if kc == 0 {
        Seq::empty()
    } else if lines[kc - 1].contains(idx) {
        lines_through(lines, idx, (kc - 1) as nat).push(kc - 1)
    } else {
        lines_through(lines, idx, (kc - 1) as nat)
    }
}

/// True when one of the cells that `idxs` names holds a wall.
pub fn has_wall(cells: &[u8], idxs: &[u16]) -> (r: bool)
    requires
        forall|t: int| 0 <= t < idxs@.len() ==> (#[trigger] idxs@[t] as int) < cells@.len(),
    ensures
        r == exists|t: int| 0 <= t < idxs@.len() && cells@[#[trigger] idxs@[t] as int] == C_WALL,
{
    let mut t: usize = 0;
    while t < idxs.len()
        invariant
            t <= idxs@.len(),
            forall|u: int| 0 <= u < idxs@.len() ==> (#[trigger] idxs@[u] as int) < cells@.len(),
            forall|u: int| 0 <= u < t ==> cells@[#[trigger] idxs@[u] as int] != C_WALL,
        decreases idxs@.len() - t,
    {
        if cells[idxs[t] as usize] == C_WALL {
            return true;
        }
        t = t + 1;
    }
    false
}





/// The cells of a list, as integers.
pub open spec fn u16s_as_ints(s: Seq<u16>) -> Seq<int> {
    s.map_values(|x: u16| x as int)
}

/// A line names cells of the board in strictly increasing order.
pub open spec fn line_ok<const L: usize>(l: [u16; L], cell_count: int) -> bool {
    &&& forall|a: int| 0 <= a < L ==> (#[trigger] l@[a] as int) < cell_count
    &&& forall|a: int| 0 <= a < L - 1 ==> (#[trigger] l@[a] as int) < (l@[a + 1] as int)
}

/// Every line names cells of the board in strictly increasing order.
pub open spec fn lines_sorted_in_board<const L: usize>(lines: Seq<[u16; L]>, cell_count: int) -> bool {
    forall|k: int| 0 <= k < lines.len() ==> line_ok(#[trigger] lines[k], cell_count)
}

/// The cells of a line in increasing order are pairwise distinct.
pub proof fn lemma_line_increasing<const L: usize>(line: [u16; L], cell_count: int, a: int, b: int)
    requires
        line_ok(line, cell_count),
        0 <= a < b < L,
    ensures
        (line@[a] as int) < (line@[b] as int),
    decreases b - a,
{
    if a + 1 < b {
        lemma_line_increasing(line, cell_count, a + 1, b);
    }
    assert((line@[a] as int) < (line@[a + 1] as int));
}

/// A line whose cells are `base + t * step` for a positive step, ending on the board, is in order.
proof fn lemma_line_from_values<const L: usize>(l: [u16; L], base: int, step: int, cell_count: int)
    requires
        step > 0,
        base >= 0,
        base + (L - 1) * step < cell_count,
        forall|t: int| 0 <= t < L ==> (#[trigger] l@[t] as int) == base + t * step,
    ensures
        line_ok(l, cell_count),
        line_cells(l) =~= window(base, step, L as nat),
{
    assert forall|a: int| 0 <= a < L implies (#[trigger] l@[a] as int) < cell_count by {
        assert(a * step <= (L - 1) * step) by (nonlinear_arith)
            requires
                a <= L - 1,
                step > 0,
        ;
    }
    assert forall|a: int| 0 <= a < L - 1 implies (#[trigger] l@[a] as int) < (l@[a + 1] as int) by {
        assert(l@[a + 1] as int == base + (a + 1) * step);
        assert((a + 1) * step == a * step + step) by (nonlinear_arith);
    }
}

/// `count` empty lists.
fn empty_lists(count: usize) -> (v: Vec<Vec<u16>>)
    ensures
        v@.len() == count,
        forall|i: int| 0 <= i < count ==> (#[trigger] v@[i])@ == Seq::<u16>::empty(),
{
    let mut v: Vec<Vec<u16>> = Vec::with_capacity(count);
    let mut i: usize = 0;
    while i < count
        invariant
            i <= count,
            v@.len() == i,
            forall|j: int| 0 <= j < i ==> (#[trigger] v@[j])@ == Seq::<u16>::empty(),
        decreases count - i,
    {
        v.push(Vec::new());
        i = i + 1;
    }
    v
}

/// Lists the wall-free lines of 3 cells of an `n` by `n` board (the first `n * n` cells,
/// row after row), and for every cell the positions of the lines through it. Up to 128
/// rows, every cell number and every line position fits in 16 bits.
pub fn build_lines_3(cells: &[u8], n: usize) -> (r: (Vec<[u16; 3]>, Vec<Vec<u16>>))
    requires
        cells@.len() >= n * n,
        n <= 128,
    ensures
        lines_cells(r.0@) == all_lines(cells@, n as int, 3),
        lines_sorted_in_board(r.0@, n * n),
        r.0@.len() <= 4 * n * n,
        r.1@.len() == n * n,
        forall|idx: int|
            0 <= idx < n * n ==> u16s_as_ints(#[trigger] r.1@[idx]@) == lines_through(
                lines_cells(r.0@),
                idx,
                r.0@.len(),
            ),
{
    let mut lines: Vec<[u16; 3]> = Vec::new();
    assert(n * n <= 16384) by (nonlinear_arith)
        requires
            n <= 128,
    ;
    if n < 3 {
        assert(lines_cells(lines@) =~= Seq::<Seq<int>>::empty());
        let per_cell = empty_lists(n * n);
        return (lines, per_cell);
    }
    let ghost c = cells@;
    let ghost nn = n as int;
    let mut i: usize = 0;
    while i < n
        invariant
            3 <= n <= 128,
            cells@ == c,
            nn == n,
            c.len() >= n * n,
            n * n <= 16384,
            0 <= i <= n,
            lines_cells(lines@) == row_col_all(c, nn, 3, i as nat),
            lines_sorted_in_board(lines@, n * n),
            lines@.len() <= 2 * (i * n),
        decreases n - i,
    {
        let mut j: usize = 0;
        while j <= n - 3
            invariant
                3 <= n <= 128,
                cells@ == c,
                nn == n,
                c.len() >= n * n,
                n * n <= 16384,
                0 <= i < n,
                0 <= j <= n - 2,
                lines_cells(lines@) == row_col_all(c, nn, 3, i as nat) + row_col_line(
                    c,
                    nn,
                    3,
                    i as int,
                    j as nat,
                ),
                lines_sorted_in_board(lines@, n * n),
                lines@.len() <= 2 * (i * n) + 2 * j,
            decreases n - j,
        {
            assert(i * n + j + 2 < n * n) by (nonlinear_arith)
                requires
                    i < n,
                    j + 2 < n,
            ;
            assert((j + 2) * n + i < n * n) by (nonlinear_arith)
                requires
                    i < n,
                    j + 2 < n,
            ;
            assert((j + 1) * n == j * n + 1 * n) by (nonlinear_arith)
                requires
                    i < n,
                    j < n,
                    n <= 128,
            ;
            assert((j + 2) * n == j * n + 2 * n) by (nonlinear_arith)
                requires
                    i < n,
                    j < n,
                    n <= 128,
            ;
            let ghost before = lines@;
            let row = [(i * n + j) as u16, (i * n + j + 1) as u16, (i * n + j + 2) as u16];
            assert((row@[0] as int) == i * n + j + 0 * (1) && (row@[1] as int) == i * n + j + 1 * (1) && (row@[2] as int) == i * n + j + 2 * (1));
            proof {
                lemma_line3_from_values(row, i * n + j, 1, (n * n) as int);
            }
            assert(line_cells(row) =~= window(i * n + j, 1, 3));
            let row_wall = has_wall(cells, &row);
            assert(row_wall == window_has_wall(c, window(i * n + j, 1, 3))) by {
                if row_wall {
                    let t = choose|t: int| 0 <= t < row@.len() && c[#[trigger] row@[t] as int] == C_WALL;
                    assert(window(i * n + j, 1, 3)[t] == row@[t] as int);
                }
                if window_has_wall(c, window(i * n + j, 1, 3)) {
                    let t = choose|t: int| 0 <= t < 3 && c[#[trigger] window(i * n + j, 1, 3)[t]] == C_WALL;
                    assert(window(i * n + j, 1, 3)[t] == row@[t] as int);
                }
            }
            if !row_wall {
                lines.push(row);
            }
            assert(lines_cells(lines@) =~= lines_cells(before) + keep(c, window(i * n + j, 1, 3)));
            let ghost middle = lines@;
            let col = [(j * n + i) as u16, ((j + 1) * n + i) as u16, ((j + 2) * n + i) as u16];
            assert((col@[0] as int) == j * n + i + 0 * (nn) && (col@[1] as int) == j * n + i + 1 * (nn) && (col@[2] as int) == j * n + i + 2 * (nn));
            proof {
                lemma_line3_from_values(col, j * n + i, nn, (n * n) as int);
            }
            assert(line_cells(col) =~= window(j * n + i, nn, 3));
            let col_wall = has_wall(cells, &col);
            assert(col_wall == window_has_wall(c, window(j * n + i, nn, 3))) by {
                if col_wall {
                    let t = choose|t: int| 0 <= t < col@.len() && c[#[trigger] col@[t] as int] == C_WALL;
                    assert(window(j * n + i, nn, 3)[t] == col@[t] as int);
                }
                if window_has_wall(c, window(j * n + i, nn, 3)) {
                    let t = choose|t: int| 0 <= t < 3 && c[#[trigger] window(j * n + i, nn, 3)[t]] == C_WALL;
                    assert(window(j * n + i, nn, 3)[t] == col@[t] as int);
                }
            }
            if !col_wall {
                lines.push(col);
            }
            assert(lines_cells(lines@) =~= lines_cells(middle) + keep(c, window(j * n + i, nn, 3)));
            assert(row_col_line(c, nn, 3, i as int, (j + 1) as nat) =~= row_col_line(
                c,
                nn,
                3,
                i as int,
                j as nat,
            ) + row_col_pair(c, nn, 3, i as int, j as int));
            j = j + 1;
        }
        assert(2 * (i * n) + 2 * (n - 2) <= 2 * ((i + 1) * n)) by (nonlinear_arith)
            requires
                n >= 3,
        ;
        i = i + 1;
    }
    assert(lines@.len() <= 2 * (n * n));
    let mut i: usize = 0;
    while i <= n - 3
        invariant
            3 <= n <= 128,
            cells@ == c,
            nn == n,
            c.len() >= n * n,
            n * n <= 16384,
            0 <= i <= n - 2,
            lines_cells(lines@) == row_col_all(c, nn, 3, n as nat) + diag_all(c, nn, 3, i as nat),
            lines_sorted_in_board(lines@, n * n),
            lines@.len() <= 2 * (n * n) + 2 * (i * n),
        decreases n - i,
    {
        let mut j: usize = 0;
        while j <= n - 3
            invariant
                3 <= n <= 128,
                cells@ == c,
                nn == n,
                c.len() >= n * n,
                n * n <= 16384,
                0 <= i <= n - 3,
                0 <= j <= n - 2,
                lines_cells(lines@) == row_col_all(c, nn, 3, n as nat) + diag_all(c, nn, 3, i as nat)
                    + diag_down_line(c, nn, 3, i as int, j as nat),
                lines_sorted_in_board(lines@, n * n),
                lines@.len() <= 2 * (n * n) + 2 * (i * n) + j,
            decreases n - j,
        {
            assert((i + 2) * n + j + 2 < n * n) by (nonlinear_arith)
                requires
                    i + 2 < n,
                    j + 2 < n,
            ;
            assert((i + 1) * n == i * n + 1 * n) by (nonlinear_arith)
                requires
                    i < n,
                    j < n,
                    n <= 128,
            ;
            assert((i + 2) * n == i * n + 2 * n) by (nonlinear_arith)
                requires
                    i < n,
                    j < n,
                    n <= 128,
            ;
            let ghost before = lines@;
            let d1 = [(i * n + j) as u16, ((i + 1) * n + j + 1) as u16, ((i + 2) * n + j + 2) as u16];
            assert((d1@[0] as int) == i * n + j + 0 * (nn + 1) && (d1@[1] as int) == i * n + j + 1 * (nn + 1) && (d1@[2] as int) == i * n + j + 2 * (nn + 1));
            proof {
                lemma_line3_from_values(d1, i * n + j, nn + 1, (n * n) as int);
            }
            assert(line_cells(d1) =~= window(i * n + j, nn + 1, 3));
            let d1_wall = has_wall(cells, &d1);
            assert(d1_wall == window_has_wall(c, window(i * n + j, nn + 1, 3))) by {
                if d1_wall {
                    let t = choose|t: int| 0 <= t < d1@.len() && c[#[trigger] d1@[t] as int] == C_WALL;
                    assert(window(i * n + j, nn + 1, 3)[t] == d1@[t] as int);
                }
                if window_has_wall(c, window(i * n + j, nn + 1, 3)) {
                    let t = choose|t: int| 0 <= t < 3 && c[#[trigger] window(i * n + j, nn + 1, 3)[t]] == C_WALL;
                    assert(window(i * n + j, nn + 1, 3)[t] == d1@[t] as int);
                }
            }
            if !d1_wall {
                lines.push(d1);
            }
            assert(lines_cells(lines@) =~= lines_cells(before) + keep(c, window(i * n + j, nn + 1, 3)));
            assert(diag_down_line(c, nn, 3, i as int, (j + 1) as nat) =~= diag_down_line(
                c,
                nn,
                3,
                i as int,
                j as nat,
            ) + keep(c, window(i * nn + j, nn + 1, 3)));
            j = j + 1;
        }
        let mut j: usize = 2;
        while j < n
            invariant
                3 <= n <= 128,
                cells@ == c,
                nn == n,
                c.len() >= n * n,
                n * n <= 16384,
                0 <= i <= n - 3,
                2 <= j <= n,
                lines_cells(lines@) == row_col_all(c, nn, 3, n as nat) + diag_all(c, nn, 3, i as nat)
                    + diag_down_line(c, nn, 3, i as int, (n - 2) as nat) + diag_up_line(
                    c,
                    nn,
                    3,
                    i as int,
                    (j - 2) as nat,
                ),
                lines_sorted_in_board(lines@, n * n),
                lines@.len() <= 2 * (n * n) + 2 * (i * n) + (n - 2) + (j - 2),
            decreases n - j,
        {
            assert((i + 2) * n + j < n * n) by (nonlinear_arith)
                requires
                    i + 2 < n,
                    j < n,
            ;
            assert((i + 1) * n == i * n + 1 * n) by (nonlinear_arith)
                requires
                    i < n,
                    j < n,
                    n <= 128,
            ;
            assert((i + 2) * n == i * n + 2 * n) by (nonlinear_arith)
                requires
                    i < n,
                    j < n,
                    n <= 128,
            ;
            let ghost before = lines@;
            let d2 = [(i * n + j) as u16, ((i + 1) * n + j - 1) as u16, ((i + 2) * n + j - 2) as u16];
            assert((d2@[0] as int) == i * n + j + 0 * (nn - 1) && (d2@[1] as int) == i * n + j + 1 * (nn - 1) && (d2@[2] as int) == i * n + j + 2 * (nn - 1));
            proof {
                lemma_line3_from_values(d2, i * n + j, nn - 1, (n * n) as int);
            }
            assert(line_cells(d2) =~= window(i * n + j, nn - 1, 3));
            let d2_wall = has_wall(cells, &d2);
            assert(d2_wall == window_has_wall(c, window(i * n + j, nn - 1, 3))) by {
                if d2_wall {
                    let t = choose|t: int| 0 <= t < d2@.len() && c[#[trigger] d2@[t] as int] == C_WALL;
                    assert(window(i * n + j, nn - 1, 3)[t] == d2@[t] as int);
                }
                if window_has_wall(c, window(i * n + j, nn - 1, 3)) {
                    let t = choose|t: int| 0 <= t < 3 && c[#[trigger] window(i * n + j, nn - 1, 3)[t]] == C_WALL;
                    assert(window(i * n + j, nn - 1, 3)[t] == d2@[t] as int);
                }
            }
            if !d2_wall {
                lines.push(d2);
            }
            assert(lines_cells(lines@) =~= lines_cells(before) + keep(c, window(i * n + j, nn - 1, 3)));
            assert(diag_up_line(c, nn, 3, i as int, (j + 1 - 2) as nat) =~= diag_up_line(
                c,
                nn,
                3,
                i as int,
                (j - 2) as nat,
            ) + keep(c, window(i * nn + (3 - 1) + (j - 2), nn - 1, 3)));
            j = j + 1;
        }
        assert(diag_all(c, nn, 3, (i + 1) as nat) =~= diag_all(c, nn, 3, i as nat) + diag_down_line(
            c,
            nn,
            3,
            i as int,
            (nn - 3 + 1) as nat,
        ) + diag_up_line(c, nn, 3, i as int, (nn - 3 + 1) as nat));
        assert(2 * (i * n) + 2 * (n - 2) <= 2 * ((i + 1) * n)) by (nonlinear_arith)
            requires
                n >= 3,
        ;
        i = i + 1;
    }
    assert(2 * (n * n) + 2 * ((n - 2) * n) <= 4 * n * n) by (nonlinear_arith)
        requires
            n >= 3,
    ;
    assert(4 * n * n <= 65536) by (nonlinear_arith)
        requires
            n * n <= 16384,
    ;
    let per_cell = index_lines_3(&lines, n * n);
    (lines, per_cell)
}

/// A line of 3 cells `base + t * step`, for a positive step, ending on the board.
proof fn lemma_line3_from_values(l: [u16; 3], base: int, step: int, cell_count: int)
    requires
        step > 0,
        base >= 0,
        base + 2 * step < cell_count,
        (l@[0] as int) == base + 0 * step,
        (l@[1] as int) == base + 1 * step,
        (l@[2] as int) == base + 2 * step,
    ensures
        line_ok(l, cell_count),
        line_cells(l) =~= window(base, step, 3),
{
    assert forall|t: int| 0 <= t < 3 implies (#[trigger] l@[t] as int) == base + t * step by {
        if t == 0 {{}} else if t == 1 {{}} else {{}}
    }
    lemma_line_from_values(l, base, step, cell_count);
}

/// For every cell, the positions (in increasing order) of the lines through it.
fn index_lines_3(lines: &Vec<[u16; 3]>, cell_count: usize) -> (per_cell: Vec<Vec<u16>>)
    requires
        lines_sorted_in_board(lines@, cell_count as int),
        lines@.len() <= 65536,
    ensures
        per_cell@.len() == cell_count,
        forall|idx: int|
            0 <= idx < cell_count ==> u16s_as_ints(#[trigger] per_cell@[idx]@) == lines_through(
                lines_cells(lines@),
                idx,
                lines@.len(),
            ),
{
    let ghost ls = lines_cells(lines@);
    let mut per_cell = empty_lists(cell_count);
    let mut k: usize = 0;
    while k < lines.len()
        invariant
            ls == lines_cells(lines@),
            lines_sorted_in_board(lines@, cell_count as int),
            lines@.len() <= 65536,
            k <= lines@.len(),
            per_cell@.len() == cell_count,
            forall|idx: int|
                0 <= idx < cell_count ==> u16s_as_ints(#[trigger] per_cell@[idx]@) == lines_through(
                    ls,
                    idx,
                    k as nat,
                ),
        decreases lines@.len() - k,
    {
        let line = lines[k];
        let ghost lc = line_cells(line);
        assert(ls[k as int] == lc);
        let mut t: usize = 0;
        while t < 3
            invariant
                ls == lines_cells(lines@),
                lines_sorted_in_board(lines@, cell_count as int),
                k < lines@.len() <= 65536,
                line == lines@[k as int],
                lc == line_cells(line),
                0 <= t <= 3,
                per_cell@.len() == cell_count,
                forall|idx: int|
                    0 <= idx < cell_count ==> u16s_as_ints(#[trigger] per_cell@[idx]@) == lines_through(
                        ls,
                        idx,
                        k as nat,
                    ) + if lc.subrange(0, t as int).contains(idx) {
                        seq![k as int]
                    } else {
                        Seq::<int>::empty()
                    },
            decreases 3 - t,
        {
            let idx = line[t] as usize;
            assert(!lc.subrange(0, t as int).contains(idx as int)) by {
                if lc.subrange(0, t as int).contains(idx as int) {
                    let u = choose|u: int| 0 <= u < t && #[trigger] lc.subrange(0, t as int)[u] == idx as int;
                    lemma_line_increasing(line, cell_count as int, u, t as int);
                }
            }
            let ghost old_cells = per_cell@;
            per_cell[idx].push(k as u16);
            assert forall|x: int| 0 <= x < cell_count implies u16s_as_ints(#[trigger] per_cell@[x]@) == lines_through(
                ls,
                x,
                k as nat,
            ) + if lc.subrange(0, t + 1).contains(x) {
                seq![k as int]
            } else {
                Seq::<int>::empty()
            } by {
                if x == idx as int {
                    assert(lc.subrange(0, t + 1).contains(x)) by {
                        assert(lc.subrange(0, t + 1)[t as int] == x);
                    }
                    assert(u16s_as_ints(per_cell@[x]@) =~= u16s_as_ints(old_cells[x]@).push(k as int));
                } else {
                    assert(per_cell@[x] == old_cells[x]);
                    if lc.subrange(0, t + 1).contains(x) {
                        let u = choose|u: int| 0 <= u < t + 1 && #[trigger] lc.subrange(0, t + 1)[u] == x;
                        assert(lc.subrange(0, t as int)[u] == x);
                    }
                    if lc.subrange(0, t as int).contains(x) {
                        let u = choose|u: int| 0 <= u < t && #[trigger] lc.subrange(0, t as int)[u] == x;
                        assert(lc.subrange(0, t + 1)[u] == x);
                    }
                }
            }
            t = t + 1;
        }
        assert(lc.subrange(0, 3) =~= lc);
        k = k + 1;
    }
    per_cell
}

/// Lists the wall-free lines of 4 cells of an `n` by `n` board (the first `n * n` cells,
/// row after row), and for every cell the positions of the lines through it. Up to 128
/// rows, every cell number and every line position fits in 16 bits.
pub fn build_lines_4(cells: &[u8], n: usize) -> (r: (Vec<[u16; 4]>, Vec<Vec<u16>>))
    requires
        cells@.len() >= n * n,
        n <= 128,
    ensures
        lines_cells(r.0@) == all_lines(cells@, n as int, 4),
        lines_sorted_in_board(r.0@, n * n),
        r.0@.len() <= 4 * n * n,
        r.1@.len() == n * n,
        forall|idx: int|
            0 <= idx < n * n ==> u16s_as_ints(#[trigger] r.1@[idx]@) == lines_through(
                lines_cells(r.0@),
                idx,
                r.0@.len(),
            ),
{
    let mut lines: Vec<[u16; 4]> = Vec::new();
    assert(n * n <= 16384) by (nonlinear_arith)
        requires
            n <= 128,
    ;
    if n < 4 {
        assert(lines_cells(lines@) =~= Seq::<Seq<int>>::empty());
        let per_cell = empty_lists(n * n);
        return (lines, per_cell);
    }
    let ghost c = cells@;
    let ghost nn = n as int;
    let mut i: usize = 0;
    while i < n
        invariant
            4 <= n <= 128,
            cells@ == c,
            nn == n,
            c.len() >= n * n,
            n * n <= 16384,
            0 <= i <= n,
            lines_cells(lines@) == row_col_all(c, nn, 4, i as nat),
            lines_sorted_in_board(lines@, n * n),
            lines@.len() <= 2 * (i * n),
        decreases n - i,
    {
        let mut j: usize = 0;
        while j <= n - 4
            invariant
                4 <= n <= 128,
                cells@ == c,
                nn == n,
                c.len() >= n * n,
                n * n <= 16384,
                0 <= i < n,
                0 <= j <= n - 3,
                lines_cells(lines@) == row_col_all(c, nn, 4, i as nat) + row_col_line(
                    c,
                    nn,
                    4,
                    i as int,
                    j as nat,
                ),
                lines_sorted_in_board(lines@, n * n),
                lines@.len() <= 2 * (i * n) + 2 * j,
            decreases n - j,
        {
            assert(i * n + j + 3 < n * n) by (nonlinear_arith)
                requires
                    i < n,
                    j + 3 < n,
            ;
            assert((j + 3) * n + i < n * n) by (nonlinear_arith)
                requires
                    i < n,
                    j + 3 < n,
            ;
            assert((j + 1) * n == j * n + 1 * n) by (nonlinear_arith)
                requires
                    i < n,
                    j < n,
                    n <= 128,
            ;
            assert((j + 2) * n == j * n + 2 * n) by (nonlinear_arith)
                requires
                    i < n,
                    j < n,
                    n <= 128,
            ;
            assert((j + 3) * n == j * n + 3 * n) by (nonlinear_arith)
                requires
                    i < n,
                    j < n,
                    n <= 128,
            ;
            let ghost before = lines@;
            let row = [(i * n + j) as u16, (i * n + j + 1) as u16, (i * n + j + 2) as u16, (i * n + j + 3) as u16];
            assert((row@[0] as int) == i * n + j + 0 * (1) && (row@[1] as int) == i * n + j + 1 * (1) && (row@[2] as int) == i * n + j + 2 * (1) && (row@[3] as int) == i * n + j + 3 * (1));
            proof {
                lemma_line4_from_values(row, i * n + j, 1, (n * n) as int);
            }
            assert(line_cells(row) =~= window(i * n + j, 1, 4));
            let row_wall = has_wall(cells, &row);
            assert(row_wall == window_has_wall(c, window(i * n + j, 1, 4))) by {
                if row_wall {
                    let t = choose|t: int| 0 <= t < row@.len() && c[#[trigger] row@[t] as int] == C_WALL;
                    assert(window(i * n + j, 1, 4)[t] == row@[t] as int);
                }
                if window_has_wall(c, window(i * n + j, 1, 4)) {
                    let t = choose|t: int| 0 <= t < 4 && c[#[trigger] window(i * n + j, 1, 4)[t]] == C_WALL;
                    assert(window(i * n + j, 1, 4)[t] == row@[t] as int);
                }
            }
            if !row_wall {
                lines.push(row);
            }
            assert(lines_cells(lines@) =~= lines_cells(before) + keep(c, window(i * n + j, 1, 4)));
            let ghost middle = lines@;
            let col = [(j * n + i) as u16, ((j + 1) * n + i) as u16, ((j + 2) * n + i) as u16, ((j + 3) * n + i) as u16];
            assert((col@[0] as int) == j * n + i + 0 * (nn) && (col@[1] as int) == j * n + i + 1 * (nn) && (col@[2] as int) == j * n + i + 2 * (nn) && (col@[3] as int) == j * n + i + 3 * (nn));
            proof {
                lemma_line4_from_values(col, j * n + i, nn, (n * n) as int);
            }
            assert(line_cells(col) =~= window(j * n + i, nn, 4));
            let col_wall = has_wall(cells, &col);
            assert(col_wall == window_has_wall(c, window(j * n + i, nn, 4))) by {
                if col_wall {
                    let t = choose|t: int| 0 <= t < col@.len() && c[#[trigger] col@[t] as int] == C_WALL;
                    assert(window(j * n + i, nn, 4)[t] == col@[t] as int);
                }
                if window_has_wall(c, window(j * n + i, nn, 4)) {
                    let t = choose|t: int| 0 <= t < 4 && c[#[trigger] window(j * n + i, nn, 4)[t]] == C_WALL;
                    assert(window(j * n + i, nn, 4)[t] == col@[t] as int);
                }
            }
            if !col_wall {
                lines.push(col);
            }
            assert(lines_cells(lines@) =~= lines_cells(middle) + keep(c, window(j * n + i, nn, 4)));
            assert(row_col_line(c, nn, 4, i as int, (j + 1) as nat) =~= row_col_line(
                c,
                nn,
                4,
                i as int,
                j as nat,
            ) + row_col_pair(c, nn, 4, i as int, j as int));
            j = j + 1;
        }
        assert(2 * (i * n) + 2 * (n - 3) <= 2 * ((i + 1) * n)) by (nonlinear_arith)
            requires
                n >= 4,
        ;
        i = i + 1;
    }
    assert(lines@.len() <= 2 * (n * n));
    let mut i: usize = 0;
    while i <= n - 4
        invariant
            4 <= n <= 128,
            cells@ == c,
            nn == n,
            c.len() >= n * n,
            n * n <= 16384,
            0 <= i <= n - 3,
            lines_cells(lines@) == row_col_all(c, nn, 4, n as nat) + diag_all(c, nn, 4, i as nat),
            lines_sorted_in_board(lines@, n * n),
            lines@.len() <= 2 * (n * n) + 2 * (i * n),
        decreases n - i,
    {
        let mut j: usize = 0;
        while j <= n - 4
            invariant
                4 <= n <= 128,
                cells@ == c,
                nn == n,
                c.len() >= n * n,
                n * n <= 16384,
                0 <= i <= n - 4,
                0 <= j <= n - 3,
                lines_cells(lines@) == row_col_all(c, nn, 4, n as nat) + diag_all(c, nn, 4, i as nat)
                    + diag_down_line(c, nn, 4, i as int, j as nat),
                lines_sorted_in_board(lines@, n * n),
                lines@.len() <= 2 * (n * n) + 2 * (i * n) + j,
            decreases n - j,
        {
            assert((i + 3) * n + j + 3 < n * n) by (nonlinear_arith)
                requires
                    i + 3 < n,
                    j + 3 < n,
            ;
            assert((i + 1) * n == i * n + 1 * n) by (nonlinear_arith)
                requires
                    i < n,
                    j < n,
                    n <= 128,
            ;
            assert((i + 2) * n == i * n + 2 * n) by (nonlinear_arith)
                requires
                    i < n,
                    j < n,
                    n <= 128,
            ;
            assert((i + 3) * n == i * n + 3 * n) by (nonlinear_arith)
                requires
                    i < n,
                    j < n,
                    n <= 128,
            ;
            let ghost before = lines@;
            let d1 = [(i * n + j) as u16, ((i + 1) * n + j + 1) as u16, ((i + 2) * n + j + 2) as u16, ((i + 3) * n + j + 3) as u16];
            assert((d1@[0] as int) == i * n + j + 0 * (nn + 1) && (d1@[1] as int) == i * n + j + 1 * (nn + 1) && (d1@[2] as int) == i * n + j + 2 * (nn + 1) && (d1@[3] as int) == i * n + j + 3 * (nn + 1));
            proof {
                lemma_line4_from_values(d1, i * n + j, nn + 1, (n * n) as int);
            }
            assert(line_cells(d1) =~= window(i * n + j, nn + 1, 4));
            let d1_wall = has_wall(cells, &d1);
            assert(d1_wall == window_has_wall(c, window(i * n + j, nn + 1, 4))) by {
                if d1_wall {
                    let t = choose|t: int| 0 <= t < d1@.len() && c[#[trigger] d1@[t] as int] == C_WALL;
                    assert(window(i * n + j, nn + 1, 4)[t] == d1@[t] as int);
                }
                if window_has_wall(c, window(i * n + j, nn + 1, 4)) {
                    let t = choose|t: int| 0 <= t < 4 && c[#[trigger] window(i * n + j, nn + 1, 4)[t]] == C_WALL;
                    assert(window(i * n + j, nn + 1, 4)[t] == d1@[t] as int);
                }
            }
            if !d1_wall {
                lines.push(d1);
            }
            assert(lines_cells(lines@) =~= lines_cells(before) + keep(c, window(i * n + j, nn + 1, 4)));
            assert(diag_down_line(c, nn, 4, i as int, (j + 1) as nat) =~= diag_down_line(
                c,
                nn,
                4,
                i as int,
                j as nat,
            ) + keep(c, window(i * nn + j, nn + 1, 4)));
            j = j + 1;
        }
        let mut j: usize = 3;
        while j < n
            invariant
                4 <= n <= 128,
                cells@ == c,
                nn == n,
                c.len() >= n * n,
                n * n <= 16384,
                0 <= i <= n - 4,
                3 <= j <= n,
                lines_cells(lines@) == row_col_all(c, nn, 4, n as nat) + diag_all(c, nn, 4, i as nat)
                    + diag_down_line(c, nn, 4, i as int, (n - 3) as nat) + diag_up_line(
                    c,
                    nn,
                    4,
                    i as int,
                    (j - 3) as nat,
                ),
                lines_sorted_in_board(lines@, n * n),
                lines@.len() <= 2 * (n * n) + 2 * (i * n) + (n - 3) + (j - 3),
            decreases n - j,
        {
            assert((i + 3) * n + j < n * n) by (nonlinear_arith)
                requires
                    i + 3 < n,
                    j < n,
            ;
            assert((i + 1) * n == i * n + 1 * n) by (nonlinear_arith)
                requires
                    i < n,
                    j < n,
                    n <= 128,
            ;
            assert((i + 2) * n == i * n + 2 * n) by (nonlinear_arith)
                requires
                    i < n,
                    j < n,
                    n <= 128,
            ;
            assert((i + 3) * n == i * n + 3 * n) by (nonlinear_arith)
                requires
                    i < n,
                    j < n,
                    n <= 128,
            ;
            let ghost before = lines@;
            let d2 = [(i * n + j) as u16, ((i + 1) * n + j - 1) as u16, ((i + 2) * n + j - 2) as u16, ((i + 3) * n + j - 3) as u16];
            assert((d2@[0] as int) == i * n + j + 0 * (nn - 1) && (d2@[1] as int) == i * n + j + 1 * (nn - 1) && (d2@[2] as int) == i * n + j + 2 * (nn - 1) && (d2@[3] as int) == i * n + j + 3 * (nn - 1));
            proof {
                lemma_line4_from_values(d2, i * n + j, nn - 1, (n * n) as int);
            }
            assert(line_cells(d2) =~= window(i * n + j, nn - 1, 4));
            let d2_wall = has_wall(cells, &d2);
            assert(d2_wall == window_has_wall(c, window(i * n + j, nn - 1, 4))) by {
                if d2_wall {
                    let t = choose|t: int| 0 <= t < d2@.len() && c[#[trigger] d2@[t] as int] == C_WALL;
                    assert(window(i * n + j, nn - 1, 4)[t] == d2@[t] as int);
                }
                if window_has_wall(c, window(i * n + j, nn - 1, 4)) {
                    let t = choose|t: int| 0 <= t < 4 && c[#[trigger] window(i * n + j, nn - 1, 4)[t]] == C_WALL;
                    assert(window(i * n + j, nn - 1, 4)[t] == d2@[t] as int);
                }
            }
            if !d2_wall {
                lines.push(d2);
            }
            assert(lines_cells(lines@) =~= lines_cells(before) + keep(c, window(i * n + j, nn - 1, 4)));
            assert(diag_up_line(c, nn, 4, i as int, (j + 1 - 3) as nat) =~= diag_up_line(
                c,
                nn,
                4,
                i as int,
                (j - 3) as nat,
            ) + keep(c, window(i * nn + (4 - 1) + (j - 3), nn - 1, 4)));
            j = j + 1;
        }
        assert(diag_all(c, nn, 4, (i + 1) as nat) =~= diag_all(c, nn, 4, i as nat) + diag_down_line(
            c,
            nn,
            4,
            i as int,
            (nn - 4 + 1) as nat,
        ) + diag_up_line(c, nn, 4, i as int, (nn - 4 + 1) as nat));
        assert(2 * (i * n) + 2 * (n - 3) <= 2 * ((i + 1) * n)) by (nonlinear_arith)
            requires
                n >= 4,
        ;
        i = i + 1;
    }
    assert(2 * (n * n) + 2 * ((n - 3) * n) <= 4 * n * n) by (nonlinear_arith)
        requires
            n >= 4,
    ;
    assert(4 * n * n <= 65536) by (nonlinear_arith)
        requires
            n * n <= 16384,
    ;
    let per_cell = index_lines_4(&lines, n * n);
    (lines, per_cell)
}

/// A line of 4 cells `base + t * step`, for a positive step, ending on the board.
proof fn lemma_line4_from_values(l: [u16; 4], base: int, step: int, cell_count: int)
    requires
        step > 0,
        base >= 0,
        base + 3 * step < cell_count,
        (l@[0] as int) == base + 0 * step,
        (l@[1] as int) == base + 1 * step,
        (l@[2] as int) == base + 2 * step,
        (l@[3] as int) == base + 3 * step,
    ensures
        line_ok(l, cell_count),
        line_cells(l) =~= window(base, step, 4),
{
    assert forall|t: int| 0 <= t < 4 implies (#[trigger] l@[t] as int) == base + t * step by {
        if t == 0 {{}} else if t == 1 {{}} else if t == 2 {{}} else {{}}
    }
    lemma_line_from_values(l, base, step, cell_count);
}

/// For every cell, the positions (in increasing order) of the lines through it.
fn index_lines_4(lines: &Vec<[u16; 4]>, cell_count: usize) -> (per_cell: Vec<Vec<u16>>)
    requires
        lines_sorted_in_board(lines@, cell_count as int),
        lines@.len() <= 65536,
    ensures
        per_cell@.len() == cell_count,
        forall|idx: int|
            0 <= idx < cell_count ==> u16s_as_ints(#[trigger] per_cell@[idx]@) == lines_through(
                lines_cells(lines@),
                idx,
                lines@.len(),
            ),
{
    let ghost ls = lines_cells(lines@);
    let mut per_cell = empty_lists(cell_count);
    let mut k: usize = 0;
    while k < lines.len()
        invariant
            ls == lines_cells(lines@),
            lines_sorted_in_board(lines@, cell_count as int),
            lines@.len() <= 65536,
            k <= lines@.len(),
            per_cell@.len() == cell_count,
            forall|idx: int|
                0 <= idx < cell_count ==> u16s_as_ints(#[trigger] per_cell@[idx]@) == lines_through(
                    ls,
                    idx,
                    k as nat,
                ),
        decreases lines@.len() - k,
    {
        let line = lines[k];
        let ghost lc = line_cells(line);
        assert(ls[k as int] == lc);
        let mut t: usize = 0;
        while t < 4
            invariant
                ls == lines_cells(lines@),
                lines_sorted_in_board(lines@, cell_count as int),
                k < lines@.len() <= 65536,
                line == lines@[k as int],
                lc == line_cells(line),
                0 <= t <= 4,
                per_cell@.len() == cell_count,
                forall|idx: int|
                    0 <= idx < cell_count ==> u16s_as_ints(#[trigger] per_cell@[idx]@) == lines_through(
                        ls,
                        idx,
                        k as nat,
                    ) + if lc.subrange(0, t as int).contains(idx) {
                        seq![k as int]
                    } else {
                        Seq::<int>::empty()
                    },
            decreases 4 - t,
        {
            let idx = line[t] as usize;
            assert(!lc.subrange(0, t as int).contains(idx as int)) by {
                if lc.subrange(0, t as int).contains(idx as int) {
                    let u = choose|u: int| 0 <= u < t && #[trigger] lc.subrange(0, t as int)[u] == idx as int;
                    lemma_line_increasing(line, cell_count as int, u, t as int);
                }
            }
            let ghost old_cells = per_cell@;
            per_cell[idx].push(k as u16);
            assert forall|x: int| 0 <= x < cell_count implies u16s_as_ints(#[trigger] per_cell@[x]@) == lines_through(
                ls,
                x,
                k as nat,
            ) + if lc.subrange(0, t + 1).contains(x) {
                seq![k as int]
            } else {
                Seq::<int>::empty()
            } by {
                if x == idx as int {
                    assert(lc.subrange(0, t + 1).contains(x)) by {
                        assert(lc.subrange(0, t + 1)[t as int] == x);
                    }
                    assert(u16s_as_ints(per_cell@[x]@) =~= u16s_as_ints(old_cells[x]@).push(k as int));
                } else {
                    assert(per_cell@[x] == old_cells[x]);
                    if lc.subrange(0, t + 1).contains(x) {
                        let u = choose|u: int| 0 <= u < t + 1 && #[trigger] lc.subrange(0, t + 1)[u] == x;
                        assert(lc.subrange(0, t as int)[u] == x);
                    }
                    if lc.subrange(0, t as int).contains(x) {
                        let u = choose|u: int| 0 <= u < t && #[trigger] lc.subrange(0, t as int)[u] == x;
                        assert(lc.subrange(0, t + 1)[u] == x);
                    }
                }
            }
            t = t + 1;
        }
        assert(lc.subrange(0, 4) =~= lc);
        k = k + 1;
    }
    per_cell
}


} // verus!
