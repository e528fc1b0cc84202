//! The agent: picks a move for a side on a board by a timed iterative-deepening search.
use vstd::prelude::*;
use crate::tic_tac_toe::board::{C_EMPTY, SIDE_X, SIDE_O};
use crate::tic_tac_toe::clock::{duration_from_millis, instant_checked_add, instant_now};
use crate::tic_tac_toe::state::{
    board_codes, any_empty, answer_at_depth, cell_code, depth_cap, empty_count, no_alarm_since, extends, fallback_move, is_searched_move, keys_distinct_on,
    lemma_row_col, Cell, State, TERMINAL_SCALE,
};
use crate::tic_tac_toe::lines::{all_lines, build_lines_3, lines_cells};
use crate::tic_tac_toe::zobrist::{zobrist_key, splitmix_mix, splitmix_step, GOLDEN_GAMMA};

verus! {

/// The time kept in reserve, in milliseconds, so the agent answers before its limit.
pub const TIME_MARGIN_MS: u64 = 20;

/// A player of the game.
#[derive(Clone, Copy, Debug, PartialEq, Eq)]
pub enum Player {
    X,
    O,
}

/// The negamax side of a player: `SIDE_X` for X, `SIDE_O` for O.
pub open spec fn side_of(player: Player) -> i32 {
    match player {
        Player::X => SIDE_X,
        Player::O => SIDE_O,
    }
}

/// `s` is the search state of `board`, a board of `n` rows: its cells, lines, keys and
/// turn key are those that `State::from_board` builds.
pub open spec fn state_of_board(s: State, board: Seq<Vec<Cell>>, n: int) -> bool {
    &&& s.spec_n() == n
    &&& s.spec_cells() == board_codes(board, n)
    &&& s.spec_lines3() == all_lines(s.spec_cells(), n, 3)
    &&& s.spec_lines4() == all_lines(s.spec_cells(), n, 4)
    &&& forall|idx: int, c: int| 0 <= idx < n * n && 0 <= c < 4 ==> #[trigger] s.spec_key(idx, c) == zobrist_key(n as usize, idx, c)
    &&& s.spec_turn_key() == splitmix_mix(splitmix_step(GOLDEN_GAMMA ^ (n as u64)))
}

/// The number of lines of three of a board of `n` rows (one to 128, each of at least `n`
/// cells): `solve` needs at most 2147 when at most 31 cells are empty, which every board
/// of up to 24 rows meets.
pub fn lines_of_three(board: &Vec<Vec<Cell>>) -> (k: usize)
    requires
        1 <= board@.len() <= 128,
        forall|i: int| 0 <= i < board@.len() ==> (#[trigger] board@[i])@.len() >= board@.len(),
    ensures
        k == all_lines(board_codes(board@, board@.len() as int), board@.len() as int, 3).len(),
        board@.len() <= 24 ==> k <= 2147,
{
    let state = State::from_board(board);
    let n = board.len();
    let lines = build_lines_3(state.cells().as_slice(), n);
    proof {
        let ni = n as int;
        assert(state.spec_cells() == board_codes(board@, ni));
        assert(lines_cells(lines.0@).len() == lines.0@.len());
        if 3 <= ni <= 24 {
            crate::tic_tac_toe::lines::lemma_lines_of_three_count(state.spec_cells(), ni);
            assert(2 * (ni * (ni - 2)) + 2 * ((ni - 2) * (ni - 2)) <= 2147) by (nonlinear_arith)
                requires
                    3 <= ni <= 24,
            ;
        }
    }
    lines.0.len()
}

/// The searching agent.
pub struct SolutionAgent {}

/// Some cell of the first `n` cells of the first `n` rows is empty.
pub open spec fn board_has_empty(board: Seq<Vec<Cell>>, n: int) -> bool {
    exists|r: int, c: int| 0 <= r < n && 0 <= c < n && #[trigger] board[r]@[c] == Cell::Empty
}

impl SolutionAgent {
    /// Picks a move for `player` on a board of `n` rows, one to 128 (each of at least `n`
    /// cells) with at most 2147 lines of three (see `lines_of_three`) or more than 31 empty
    /// cells, so that the scaled score of any finished game the search reaches fits in 32
    /// bits, searching for about `time_limit`
    /// milliseconds less a small margin. Answers `(score, row, column)`: the search's
    /// value of the position from X's point of view and the chosen cell, which is an
    /// empty cell whenever the board has one (next to a stone or wall when such an empty
    /// cell exists, the centre on a board without stones; see `is_searched_move`), and
    /// `(score, 0, 0)` on a full board, whose score it answers. The fourth part, a ghost,
    /// holds the set of positions whose table entry the search looked up, the last depth
    /// that finished, and what each reading of the clock said (whether the deadline was
    /// reached; see `State::search_root`): before any depth finished the answer is 0 with
    /// the first move of best one-ply score, which is the answer when the first reading
    /// found the deadline reached; when no two looked-up positions share a key, a finished
    /// depth's answer is its negamax answer; when no reading found the deadline reached,
    /// the last depth finished is the deepest or one worth at least half a won game.
    pub fn solve(board: &Vec<Vec<Cell>>, player: Player, time_limit: u64) -> (r: (
        i32,
        usize,
        usize,
        Ghost<(Set<(Seq<u8>, i32)>, nat, Seq<bool>)>,
    ))
        requires
            1 <= board@.len() <= 128,
            forall|i: int| 0 <= i < board@.len() ==> (#[trigger] board@[i])@.len() >= board@.len(),
            all_lines(board_codes(board@, board@.len() as int), board@.len() as int, 3).len() <= 2147
                || empty_count(board_codes(board@, board@.len() as int)) > 31,
        ensures
            board_has_empty(board@, board@.len() as int) ==> r.1 < board@.len() && r.2 < board@.len()
                && board@[r.1 as int]@[r.2 as int] == Cell::Empty,
            board_has_empty(board@, board@.len() as int) ==> is_searched_move(
                board_codes(board@, board@.len() as int),
                board@.len() as int,
                r.1 * board@.len() + r.2,
            ),
            !board_has_empty(board@, board@.len() as int) ==> r.1 == 0 && r.2 == 0 && r.3@.1 == 0,
            r.3@.1 == 0 ==> r.0 == 0 || !board_has_empty(board@, board@.len() as int),
            forall|p: (Seq<u8>, i32)| #[trigger] r.3@.0.contains(p) ==> extends(
                board_codes(board@, board@.len() as int),
                p.0,
            ) && (p.1 == SIDE_X || p.1 == SIDE_O),
            board_has_empty(board@, board@.len() as int) ==> r.3@.2.len() >= 1,
            board_has_empty(board@, board@.len() as int) && r.3@.2[0] ==> r.3@.1 == 0,
            board_has_empty(board@, board@.len() as int) && no_alarm_since(r.3@.2, 0) ==> r.3@.1 >= 1 && (r.3@.1 == depth_cap(
                board_codes(board@, board@.len() as int),
            ) || r.0 * side_of(player) >= TERMINAL_SCALE / 2),
            exists|s: State|
                #[trigger] state_of_board(s, board@, board@.len() as int) && (!board_has_empty(
                    board@,
                    board@.len() as int,
                ) ==> r.0 == s.spec_score()) && (board_has_empty(board@, board@.len() as int) && r.3@.1 == 0
                    ==> fallback_move(s, side_of(player), (r.1 * board@.len() + r.2) as int)) && (keys_distinct_on(
                    s.spec_keys(),
                    s.spec_turn_key(),
                    r.3@.0,
                ) && board_has_empty(board@, board@.len() as int) && r.3@.1 > 0 ==> answer_at_depth(
                    s,
                    side_of(player),
                    r.3@.1 as int,
                    r.0 * side_of(player),
                    r.1 * board@.len() + r.2,
                )),
    {
        let mut state = State::from_board(board);
        let ghost s0 = state;
        proof {
            crate::tic_tac_toe::state::lemma_state_facts(state, state);

        }
        let ghost n = board@.len() as int;
        let ghost codes = board_codes(board@, n);
        proof {
            assert(any_empty(codes, n) == board_has_empty(board@, n)) by {
                if any_empty(codes, n) {
                    let y = choose|y: int| 0 <= y < n * n && #[trigger] codes[y] == C_EMPTY;
                    lemma_row_col(n, y);
                    assert(board@[y / n]@[y % n] == Cell::Empty);
                }
                if board_has_empty(board@, n) {
                    let (a, b) = choose|a: int, b: int| 0 <= a < n && 0 <= b < n && #[trigger] board@[a]@[b] == Cell::Empty;
                    crate::tic_tac_toe::state::lemma_row_col_converse(n, a, b);
                    assert(codes[a * n + b] == C_EMPTY);
                }
            }
        }
        if state.is_full() {
            let score = state.actual_score();
            proof {
                assert(state_of_board(s0, board@, n));
                assert(!any_empty(codes, n)) by {
                    if any_empty(codes, n) {
                        let y = choose|y: int| 0 <= y < n * n && #[trigger] codes[y] == C_EMPTY;
                        assert(state.spec_cells()[y] != C_EMPTY);
                    }
                }
            }
            return (score, 0, 0, Ghost((Set::empty(), 0nat, Seq::empty())));
        }
        let start = instant_now();
        let budget = duration_from_millis(time_limit.saturating_sub(TIME_MARGIN_MS));
        let deadline = match instant_checked_add(start, budget) {
            Some(d) => d,
            None => start,
        };
        let root_side = match player {
            Player::X => SIDE_X,
            Player::O => SIDE_O,
        };
        let (score_side_perspective, best_idx, finished) = state.search_root(root_side, deadline);
        let (r, c) = state.idx_to_rc(best_idx);
        proof {
            assert(any_empty(codes, n) == board_has_empty(board@, n)) by {
                if any_empty(codes, n) {
                    let y = choose|y: int| 0 <= y < n * n && #[trigger] codes[y] == C_EMPTY;
                    lemma_row_col(n, y);
                    assert(board@[y / n]@[y % n] == Cell::Empty);
                }
                if board_has_empty(board@, n) {
                    let (a, b) = choose|a: int, b: int| 0 <= a < n && 0 <= b < n && #[trigger] board@[a]@[b] == Cell::Empty;
                    crate::tic_tac_toe::state::lemma_row_col_converse(n, a, b);
                    assert(codes[a * n + b] == C_EMPTY);
                }
            }
            if !any_empty(codes, n) {
                assert(best_idx == 0 && score_side_perspective == 0);
                vstd::arithmetic::div_mod::lemma_fundamental_div_mod_converse(0, n, 0, 0);
                assert(r == 0 && c == 0);
            }
            if any_empty(codes, n) {
                lemma_row_col(n, best_idx as int);
                assert(codes[best_idx as int] == cell_code(board@[r as int]@[c as int]));
                assert(r * n + c == best_idx);
            }
        }
        let score_x = score_side_perspective * root_side;
        proof {
            assert(state_of_board(s0, board@, n));
            assert(any_empty(codes, n) == board_has_empty(board@, n));
            if any_empty(codes, n) {
                assert(r * n + c == best_idx);
                assert((score_x * root_side) as i32 == score_side_perspective);
            }
        }
        (score_x, r, c, Ghost((state.spec_visited(), finished@, state.spec_readings())))
    }
}

} // verus!
