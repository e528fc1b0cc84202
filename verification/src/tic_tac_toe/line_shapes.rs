//! What the lists of lines hold: every wall-free run of cells of the board, in each of
//! the four directions, listed exactly once.
use vstd::prelude::*;
use crate::tic_tac_toe::lines::{
    all_lines, diag_all, diag_down_line, diag_up_line, keep, row_col_all, row_col_line,
    row_col_pair, window, window_has_wall,
};

verus! {

/// The distance between consecutive cells of a line in direction `dir` on a board `n`
/// cells wide: along a row (0), down a column (1), down and right (2), down and left (3).
pub open spec fn dir_step(n: int, dir: int) -> int {
    if dir == 0 {
        1
    } else if dir == 1 {
        n
    } else if dir == 2 {
        n + 1
    } else {
        n - 1
    }
}

/// The `len` cells from row `r`, column `c` on in direction `dir`.
pub open spec fn board_line(n: int, len: nat, r: int, c: int, dir: int) -> Seq<int> {
    window(r * n + c, dir_step(n, dir), len)
}

/// The line of `len` cells from row `r`, column `c` in direction `dir` stays on an `n` by
/// `n` board.
pub open spec fn fits(n: int, len: nat, r: int, c: int, dir: int) -> bool {
    &&& 0 <= dir < 4
    &&& 0 <= r < n
    &&& 0 <= c < n
    &&& (dir == 0 ==> c + len <= n)
    &&& (dir == 1 ==> r + len <= n)
    &&& (dir == 2 ==> r + len <= n && c + len <= n)
    &&& (dir == 3 ==> r + len <= n && c - (len - 1) >= 0)
}

/// `l` lists, each once, exactly the wall-free lines whose start and direction satisfy `p`.
spec fn lists_exactly(
    l: Seq<Seq<int>>,
    cells: Seq<u8>,
    n: int,
    len: nat,
    p: spec_fn(int, int, int) -> bool,
) -> bool {
    &&& l.no_duplicates()
    &&& forall|w: Seq<int>| #[trigger]
        l.contains(w) ==> !window_has_wall(cells, w) && exists|r: int, c: int, d: int|
            p(r, c, d) && #[trigger] board_line(n, len, r, c, d) == w
    &&& forall|r: int, c: int, d: int|
        p(r, c, d) && !window_has_wall(cells, board_line(n, len, r, c, d)) ==> l.contains(
            #[trigger] board_line(n, len, r, c, d),
        )
}

/// Two lines of at least two cells that stay on the board are the same only when they
/// start at the same cell and go the same way.
proof fn lemma_board_line_injective(n: int, len: nat, r1: int, c1: int, d1: int, r2: int, c2: int, d2: int)
    requires
        len >= 2,
        fits(n, len, r1, c1, d1),
        fits(n, len, r2, c2, d2),
        board_line(n, len, r1, c1, d1) == board_line(n, len, r2, c2, d2),
    ensures
        r1 == r2 && c1 == c2 && d1 == d2,
{
    let w1 = board_line(n, len, r1, c1, d1);
    let w2 = board_line(n, len, r2, c2, d2);
    assert(w1[0] == w2[0]);
    assert(w1[1] == w2[1]);
    assert(r1 * n + c1 == r2 * n + c2);
    assert(r1 == r2) by (nonlinear_arith)
        requires
            r1 * n + c1 == r2 * n + c2,
            0 <= c1 < n,
            0 <= c2 < n,
            0 <= r1,
            0 <= r2,
    ;
    assert(dir_step(n, d1) == dir_step(n, d2));
}

/// Nothing listed, for a condition that holds nowhere.
proof fn lemma_lists_none(cells: Seq<u8>, n: int, len: nat, p: spec_fn(int, int, int) -> bool)
    requires
        forall|r: int, c: int, d: int| !#[trigger] p(r, c, d),
    ensures
        lists_exactly(Seq::<Seq<int>>::empty(), cells, n, len, p),
{
}

/// `keep` of one line lists that line when it is wall-free.
proof fn lemma_lists_keep(
    cells: Seq<u8>,
    n: int,
    len: nat,
    r0: int,
    c0: int,
    d0: int,
    p: spec_fn(int, int, int) -> bool,
)
    requires
        forall|r: int, c: int, d: int| #[trigger] p(r, c, d) <==> (r == r0 && c == c0 && d == d0),
    ensures
        lists_exactly(keep(cells, board_line(n, len, r0, c0, d0)), cells, n, len, p),
{
    let w0 = board_line(n, len, r0, c0, d0);
    let l = keep(cells, w0);
    assert forall|w: Seq<int>| #[trigger] l.contains(w) implies !window_has_wall(cells, w) && exists|
        r: int,
        c: int,
        d: int,
    | p(r, c, d) && #[trigger] board_line(n, len, r, c, d) == w by {
        assert(l[0] == w0);
        assert(p(r0, c0, d0));
    }
    assert forall|r: int, c: int, d: int|
        p(r, c, d) && !window_has_wall(cells, board_line(n, len, r, c, d)) implies l.contains(
        #[trigger] board_line(n, len, r, c, d),
    ) by {
        assert(l[0] == w0);
    }
}

/// Two lists with no line in common list, together, what either lists.
proof fn lemma_lists_concat(
    a: Seq<Seq<int>>,
    b: Seq<Seq<int>>,
    cells: Seq<u8>,
    n: int,
    len: nat,
    p: spec_fn(int, int, int) -> bool,
    q: spec_fn(int, int, int) -> bool,
    t: spec_fn(int, int, int) -> bool,
)
    requires
        len >= 2,
        lists_exactly(a, cells, n, len, p),
        lists_exactly(b, cells, n, len, q),
        forall|r: int, c: int, d: int| #[trigger] p(r, c, d) ==> fits(n, len, r, c, d) && !q(r, c, d),
        forall|r: int, c: int, d: int| #[trigger] q(r, c, d) ==> fits(n, len, r, c, d),
        forall|r: int, c: int, d: int| #[trigger] t(r, c, d) <==> (p(r, c, d) || q(r, c, d)),
    ensures
        lists_exactly(a + b, cells, n, len, t),
{
    let l = a + b;
    assert forall|x: Seq<int>| a.contains(x) implies !b.contains(x) by {
        if b.contains(x) {
            let (r1, c1, d1) = choose|r: int, c: int, d: int| p(r, c, d) && #[trigger] board_line(n, len, r, c, d) == x;
            let (r2, c2, d2) = choose|r: int, c: int, d: int| q(r, c, d) && #[trigger] board_line(n, len, r, c, d) == x;
            lemma_board_line_injective(n, len, r1, c1, d1, r2, c2, d2);
        }
    }
    assert forall|i: int, j: int| 0 <= i < l.len() && 0 <= j < l.len() && i != j implies l[i] != l[j] by {
        if i < a.len() && j >= a.len() {
            assert(a.contains(l[i]));
            assert(b.contains(l[j]) && b[j - a.len()] == l[j]);
        } else if j < a.len() && i >= a.len() {
            assert(a.contains(l[j]));
            assert(b.contains(l[i]) && b[i - a.len()] == l[i]);
        } else if i >= a.len() {
            assert(b[i - a.len()] == l[i] && b[j - a.len()] == l[j]);
        }
    }
    assert forall|w: Seq<int>| #[trigger] l.contains(w) implies !window_has_wall(cells, w) && exists|
        r: int,
        c: int,
        d: int,
    | t(r, c, d) && #[trigger] board_line(n, len, r, c, d) == w by {
        let k = choose|k: int| 0 <= k < l.len() && l[k] == w;
        if k < a.len() {
            assert(a.contains(w));
            let (r, c, d) = choose|r: int, c: int, d: int| p(r, c, d) && #[trigger] board_line(n, len, r, c, d) == w;
            assert(t(r, c, d));
        } else {
            assert(b[k - a.len()] == w);
            assert(b.contains(w));
            let (r, c, d) = choose|r: int, c: int, d: int| q(r, c, d) && #[trigger] board_line(n, len, r, c, d) == w;
            assert(t(r, c, d));
        }
    }
    assert forall|r: int, c: int, d: int|
        t(r, c, d) && !window_has_wall(cells, board_line(n, len, r, c, d)) implies l.contains(
        #[trigger] board_line(n, len, r, c, d),
    ) by {
        let w = board_line(n, len, r, c, d);
        if p(r, c, d) {
            assert(a.contains(w));
            let k = choose|k: int| 0 <= k < a.len() && a[k] == w;
            assert(l[k] == w);
        } else {
            assert(b.contains(w));
            let k = choose|k: int| 0 <= k < b.len() && b[k] == w;
            assert(l[k + a.len()] == w);
        }
    }
}

/// The row and column lines of line number `i` for the first `jc` start positions.
proof fn lemma_row_col_line(cells: Seq<u8>, n: int, len: nat, i: int, jc: nat)
    requires
        len >= 2,
        0 <= i < n,
        jc <= n - len + 1,
    ensures
        lists_exactly(
            row_col_line(cells, n, len, i, jc),
            cells,
            n,
            len,
            |r: int, c: int, d: int| (d == 0 && r == i && 0 <= c < jc) || (d == 1 && c == i && 0 <= r < jc),
        ),
    decreases jc,
{
    let t = |r: int, c: int, d: int| (d == 0 && r == i && 0 <= c < jc) || (d == 1 && c == i && 0 <= r < jc);
    if jc == 0 {
        lemma_lists_none(cells, n, len, t);
    } else {
        let j = jc - 1;
        let p = |r: int, c: int, d: int| (d == 0 && r == i && 0 <= c < j) || (d == 1 && c == i && 0 <= r < j);
        lemma_row_col_line(cells, n, len, i, j as nat);
        let pr = |r: int, c: int, d: int| r == i && c == j && d == 0;
        let pc = |r: int, c: int, d: int| r == j && c == i && d == 1;
        let pq = |r: int, c: int, d: int| (r == i && c == j && d == 0) || (r == j && c == i && d == 1);
        lemma_lists_keep(cells, n, len, i, j, 0, pr);
        lemma_lists_keep(cells, n, len, j, i, 1, pc);
        assert(board_line(n, len, i, j, 0) == window(i * n + j, 1, len));
        assert(board_line(n, len, j, i, 1) == window(j * n + i, n, len));
        lemma_lists_concat(
            keep(cells, board_line(n, len, i, j, 0)),
            keep(cells, board_line(n, len, j, i, 1)),
            cells,
            n,
            len,
            pr,
            pc,
            pq,
        );
        assert(row_col_pair(cells, n, len, i, j) == keep(cells, board_line(n, len, i, j, 0)) + keep(
            cells,
            board_line(n, len, j, i, 1),
        ));
        lemma_lists_concat(
            row_col_line(cells, n, len, i, j as nat),
            row_col_pair(cells, n, len, i, j),
            cells,
            n,
            len,
            p,
            pq,
            t,
        );
    }
}

/// The row and column lines of the first `ic` line numbers.
proof fn lemma_row_col_all(cells: Seq<u8>, n: int, len: nat, ic: nat)
    requires
        len >= 2,
        ic <= n,
        len <= n,
    ensures
        lists_exactly(
            row_col_all(cells, n, len, ic),
            cells,
            n,
            len,
            |r: int, c: int, d: int| (d == 0 && 0 <= r < ic && 0 <= c < n - len + 1) || (d == 1 && 0 <= c < ic
                && 0 <= r < n - len + 1),
        ),
    decreases ic,
{
    let m = n - len + 1;
    let t = |r: int, c: int, d: int| (d == 0 && 0 <= r < ic && 0 <= c < m) || (d == 1 && 0 <= c < ic && 0 <= r < m);
    if ic == 0 {
        lemma_lists_none(cells, n, len, t);
    } else {
        let i = ic - 1;
        let p = |r: int, c: int, d: int| (d == 0 && 0 <= r < i && 0 <= c < m) || (d == 1 && 0 <= c < i && 0 <= r < m);
        let q = |r: int, c: int, d: int| (d == 0 && r == i && 0 <= c < m) || (d == 1 && c == i && 0 <= r < m);
        lemma_row_col_all(cells, n, len, i as nat);
        lemma_row_col_line(cells, n, len, i, m as nat);
        lemma_lists_concat(
            row_col_all(cells, n, len, i as nat),
            row_col_line(cells, n, len, i, m as nat),
            cells,
            n,
            len,
            p,
            q,
            t,
        );
    }
}

/// The down-right diagonal lines from row `i`, first `jc` columns.
proof fn lemma_diag_down_line(cells: Seq<u8>, n: int, len: nat, i: int, jc: nat)
    requires
        len >= 2,
        0 <= i < n - len + 1,
        jc <= n - len + 1,
    ensures
        lists_exactly(
            diag_down_line(cells, n, len, i, jc),
            cells,
            n,
            len,
            |r: int, c: int, d: int| d == 2 && r == i && 0 <= c < jc,
        ),
    decreases jc,
{
    let t = |r: int, c: int, d: int| d == 2 && r == i && 0 <= c < jc;
    if jc == 0 {
        lemma_lists_none(cells, n, len, t);
    } else {
        let j = jc - 1;
        let p = |r: int, c: int, d: int| d == 2 && r == i && 0 <= c < j;
        let q = |r: int, c: int, d: int| r == i && c == j && d == 2;
        lemma_diag_down_line(cells, n, len, i, j as nat);
        lemma_lists_keep(cells, n, len, i, j, 2, q);
        assert(board_line(n, len, i, j, 2) == window(i * n + j, n + 1, len));
        lemma_lists_concat(
            diag_down_line(cells, n, len, i, j as nat),
            keep(cells, board_line(n, len, i, j, 2)),
            cells,
            n,
            len,
            p,
            q,
            t,
        );
    }
}

/// The down-left diagonal lines from row `i`, first `jc` columns from column `len - 1` on.
proof fn lemma_diag_up_line(cells: Seq<u8>, n: int, len: nat, i: int, jc: nat)
    requires
        len >= 2,
        0 <= i < n - len + 1,
        jc <= n - len + 1,
    ensures
        lists_exactly(
            diag_up_line(cells, n, len, i, jc),
            cells,
            n,
            len,
            |r: int, c: int, d: int| d == 3 && r == i && len - 1 <= c < len - 1 + jc,
        ),
    decreases jc,
{
    let t = |r: int, c: int, d: int| d == 3 && r == i && len - 1 <= c < len - 1 + jc;
    if jc == 0 {
        lemma_lists_none(cells, n, len, t);
    } else {
        let j = jc - 1;
        let p = |r: int, c: int, d: int| d == 3 && r == i && len - 1 <= c < len - 1 + j;
        let q = |r: int, c: int, d: int| r == i && c == len - 1 + j && d == 3;
        lemma_diag_up_line(cells, n, len, i, j as nat);
        lemma_lists_keep(cells, n, len, i, len - 1 + j, 3, q);
        assert(board_line(n, len, i, len - 1 + j, 3) == window(i * n + (len - 1) + j, n - 1, len));
        lemma_lists_concat(
            diag_up_line(cells, n, len, i, j as nat),
            keep(cells, board_line(n, len, i, len - 1 + j, 3)),
            cells,
            n,
            len,
            p,
            q,
            t,
        );
    }
}

/// The diagonal lines whose first cell lies in one of the first `ic` rows.
proof fn lemma_diag_all(cells: Seq<u8>, n: int, len: nat, ic: nat)
    requires
        len >= 2,
        len <= n,
        ic <= n - len + 1,
    ensures
        lists_exactly(
            diag_all(cells, n, len, ic),
            cells,
            n,
            len,
            |r: int, c: int, d: int| (d == 2 && 0 <= r < ic && 0 <= c < n - len + 1) || (d == 3 && 0 <= r < ic
                && len - 1 <= c < n),
        ),
    decreases ic,
{
    let m = n - len + 1;
    let t = |r: int, c: int, d: int| (d == 2 && 0 <= r < ic && 0 <= c < m) || (d == 3 && 0 <= r < ic && len - 1 <= c < n);
    if ic == 0 {
        lemma_lists_none(cells, n, len, t);
    } else {
        let i = ic - 1;
        let p = |r: int, c: int, d: int| (d == 2 && 0 <= r < i && 0 <= c < m) || (d == 3 && 0 <= r < i && len - 1 <= c < n);
        let qd = |r: int, c: int, d: int| d == 2 && r == i && 0 <= c < m;
        let qu = |r: int, c: int, d: int| d == 3 && r == i && len - 1 <= c < len - 1 + m;
        let pd = |r: int, c: int, d: int| (d == 2 && 0 <= r < i && 0 <= c < m) || (d == 3 && 0 <= r < i && len - 1 <= c < n)
            || (d == 2 && r == i && 0 <= c < m);
        lemma_diag_all(cells, n, len, i as nat);
        lemma_diag_down_line(cells, n, len, i, m as nat);
        lemma_diag_up_line(cells, n, len, i, m as nat);
        lemma_lists_concat(
            diag_all(cells, n, len, i as nat),
            diag_down_line(cells, n, len, i, m as nat),
            cells,
            n,
            len,
            p,
            qd,
            pd,
        );
        lemma_lists_concat(
            diag_all(cells, n, len, i as nat) + diag_down_line(cells, n, len, i, m as nat),
            diag_up_line(cells, n, len, i, m as nat),
            cells,
            n,
            len,
            pd,
            qu,
            t,
        );
    }
}

/// The lines that `all_lines` lists are exactly the wall-free runs of `len` cells (two or
/// more) that stay on the board, along a row, down a column or down either diagonal, and
/// each is listed once.
pub proof fn lemma_all_lines_are_the_board_lines(cells: Seq<u8>, n: int, len: nat)
    requires
        len >= 2,
    ensures
        all_lines(cells, n, len).no_duplicates(),
        forall|w: Seq<int>| #[trigger]
            all_lines(cells, n, len).contains(w) ==> !window_has_wall(cells, w) && exists|r: int, c: int, d: int|
                fits(n, len, r, c, d) && #[trigger] board_line(n, len, r, c, d) == w,
        forall|r: int, c: int, d: int|
            fits(n, len, r, c, d) && !window_has_wall(cells, board_line(n, len, r, c, d)) ==> all_lines(
                cells,
                n,
                len,
            ).contains(#[trigger] board_line(n, len, r, c, d)),
{
    let f = |r: int, c: int, d: int| fits(n, len, r, c, d);
    if n < len {
        lemma_lists_none(cells, n, len, f);
    } else {
        let m = n - len + 1;
        let prc = |r: int, c: int, d: int| (d == 0 && 0 <= r < n && 0 <= c < m) || (d == 1 && 0 <= c < n && 0 <= r < m);
        let pdg = |r: int, c: int, d: int| (d == 2 && 0 <= r < m && 0 <= c < m) || (d == 3 && 0 <= r < m && len - 1 <= c < n);
        lemma_row_col_all(cells, n, len, n as nat);
        lemma_diag_all(cells, n, len, m as nat);
        lemma_lists_concat(
            row_col_all(cells, n, len, n as nat),
            diag_all(cells, n, len, m as nat),
            cells,
            n,
            len,
            prc,
            pdg,
            f,
        );
    }
    assert(lists_exactly(all_lines(cells, n, len), cells, n, len, f));
}

} // verus!
