use rust_projects::tic_tac_toe::agent::{lines_of_three, Player, SolutionAgent};
use rust_projects::tic_tac_toe::board::{C_EMPTY, C_O, C_X, SIDE_O, SIDE_X};
use rust_projects::tic_tac_toe::lines::{build_lines_3, build_lines_4, has_wall};
use rust_projects::tic_tac_toe::ordering::{move_to_front, sort_by_score_desc};
use rust_projects::tic_tac_toe::state::{Cell, State, TERMINAL_SCALE};
use rust_projects::tic_tac_toe::zobrist::{build_zobrist, splitmix64};

fn board(rows: &[&str]) -> Vec<Vec<Cell>> {
    rows.iter()
        .map(|r| {
            r.chars()
                .map(|c| match c {
                    'X' => Cell::X,
                    'O' => Cell::O,
                    '#' => Cell::Wall,
                    _ => Cell::Empty,
                })
                .collect()
        })
        .collect()
}

#[test]
fn splitmix64_matches_the_reference_generator() {
    let mut seed = 0u64;
    assert_eq!(splitmix64(&mut seed), 0xE220_A839_7B1D_CDAF);
    assert_eq!(seed, 0x9E37_79B9_7F4A_7C15);
    assert_eq!(splitmix64(&mut seed), 0x6E78_9E6A_A1B9_65F4);
}

#[test]
fn zobrist_table_has_four_keys_per_cell() {
    let t = build_zobrist(3);
    assert_eq!(t.len(), 9);
    let mut seed = 0xA5A5_1F1F_5A5A_2E2Eu64 ^ 3u64.wrapping_mul(0x9E37_79B9_7F4A_7C15);
    for row in &t {
        for key in row.iter() {
            assert_eq!(*key, splitmix64(&mut seed));
        }
    }
}

#[test]
fn wall_detection() {
    let cells = [0u8, 3, 0, 1];
    assert!(has_wall(&cells, &[0, 1]));
    assert!(!has_wall(&cells, &[0, 2, 3]));
    assert!(!has_wall(&cells, &[]));
}

#[test]
fn lines_of_three_on_an_open_three_by_three_board() {
    let cells = vec![0u8; 9];
    let (lines, per_cell) = build_lines_3(&cells, 3);
    assert_eq!(
        lines,
        vec![[0, 1, 2], [0, 3, 6], [3, 4, 5], [1, 4, 7], [6, 7, 8], [2, 5, 8], [0, 4, 8], [2, 4, 6]]
    );
    assert_eq!(per_cell.len(), 9);
    assert_eq!(per_cell[4], vec![2, 3, 6, 7]);
    assert_eq!(per_cell[0], vec![0, 1, 6]);
    assert_eq!(per_cell[1], vec![0, 3]);
}

#[test]
fn walls_remove_the_lines_through_them() {
    let mut cells = vec![0u8; 9];
    cells[4] = 3;
    let (lines, per_cell) = build_lines_3(&cells, 3);
    assert_eq!(lines, vec![[0, 1, 2], [0, 3, 6], [6, 7, 8], [2, 5, 8]]);
    assert!(per_cell[4].is_empty());
}

#[test]
fn lines_of_four() {
    let (lines, _) = build_lines_4(&vec![0u8; 9], 3);
    assert!(lines.is_empty());
    let (lines, per_cell) = build_lines_4(&vec![0u8; 16], 4);
    assert_eq!(lines.len(), 10);
    assert_eq!(lines[8], [0, 5, 10, 15]);
    assert_eq!(lines[9], [3, 6, 9, 12]);
    assert_eq!(per_cell[5], vec![2, 3, 8]);
    let (lines, per_cell) = build_lines_3(&vec![0u8; 4], 2);
    assert!(lines.is_empty());
    assert_eq!(per_cell.len(), 4);
}

#[test]
fn sorting_is_stable_and_descending() {
    let v = vec![(1i64, 10u16), (5, 11), (1, 12), (7, 13), (5, 14)];
    let s = sort_by_score_desc(&v);
    assert_eq!(s, vec![(7, 13), (5, 11), (5, 14), (1, 10), (1, 12)]);
    assert!(sort_by_score_desc(&Vec::new()).is_empty());
}

#[test]
fn move_to_front_swaps_first_occurrence() {
    let mut v = vec![(3i64, 1u16), (2, 2), (1, 3), (0, 2)];
    move_to_front(&mut v, 2);
    assert_eq!(v, vec![(2, 2), (3, 1), (1, 3), (0, 2)]);
    move_to_front(&mut v, 9);
    assert_eq!(v, vec![(2, 2), (3, 1), (1, 3), (0, 2)]);
}

#[test]
fn state_reads_the_board() {
    let s = State::from_board(&board(&["X.O", ".#.", "..."]));
    assert_eq!(*s.cells(), vec![1, 0, 2, 0, 3, 0, 0, 0, 0]);
    assert_eq!(s.idx_to_rc(5), (1, 2));
    assert!(!s.is_full());
    assert_eq!(s.actual_score(), 0);
}

#[test]
fn rows_longer_than_the_board_are_cut() {
    let s = State::from_board(&board(&["XO..", "O.X."]));
    assert_eq!(*s.cells(), vec![1, 2, 2, 0]);
}

#[test]
fn scores_count_complete_lines() {
    let s = State::from_board(&board(&["XXX", "OOO", "XOX"]));
    assert!(s.is_full());
    // X: top row; O: middle row; columns and diagonals are mixed
    assert_eq!(s.actual_score(), 0);
    let s = State::from_board(&board(&["XXX", "XOO", "XOO"]));
    // X: top row, left column; O: none complete
    assert_eq!(s.actual_score(), 2);
}

#[test]
fn heuristic_weights_open_lines() {
    let s = State::from_board(&board(&["X..", "...", "..."]));
    // X lies on three open lines of three (row, column, diagonal): 3 * 2
    assert_eq!(s.heuristic(), 6);
    let s = State::from_board(&board(&["XX.", "O..", "..."]));
    // row 0: 20; column 0 mixed; diagonal 0: 2; column 1: 2; O: column... -2 for (1,0) row 1 and -2 column 0 is mixed
    // lines: r0 X=2 -> 20, c0 mixed -> 0, r1 O=1 -> -2, c1 X=1 -> 2, r2 0, c2 0, d1 X=1 -> 2, d2 0
    assert_eq!(s.heuristic(), 22);
    let s = State::from_board(&board(&["XXXX", "....", "....", "...."]));
    // four: row 0 -> 40; lines of three: row 0 twice -> 200; columns 0..3 -> 2 each
    // (columns: each X is in one vertical three starting at row 0) -> 8; diagonals
    // starting at (0,0),(0,1) down-right -> 2 each; down-left from (0,2),(0,3) -> 2 each -> 8;
    // lines of four: column 0..3 with one X -> 0; diagonals with one X -> 0
    assert_eq!(s.heuristic(), 40 + 200 + 8 + 8);
}

#[test]
fn apply_then_undo_restores_the_position() {
    let mut s = State::from_board(&board(&["X...", ".O..", "..#.", "...."]));
    let hash = s.hash();
    let cells = s.cells().clone();
    let h = s.heuristic();
    s.apply(3, SIDE_X);
    assert_eq!(s.cells()[3], C_X);
    assert_ne!(s.hash(), hash);
    s.undo(3, SIDE_X);
    assert_eq!(s.hash(), hash);
    assert_eq!(*s.cells(), cells);
    assert_eq!(s.heuristic(), h);
    s.apply(15, SIDE_O);
    assert_eq!(s.cells()[15], C_O);
    s.undo(15, SIDE_O);
    assert_eq!(s.hash(), hash);
    assert_eq!(s.cells()[15], C_EMPTY);
}

#[test]
fn apply_updates_the_score() {
    let mut s = State::from_board(&board(&["XX.", "OO.", "XOX"]));
    s.apply(2, SIDE_X);
    s.apply(5, SIDE_O);
    assert!(s.is_full());
    // X: row 0, diagonal (2,4,6)? (2)=X,(4)=O -> no; so X: row 0; O: row 1
    assert_eq!(s.actual_score(), 0);
}

#[test]
fn local_moves_on_an_empty_board_is_the_centre() {
    let s = State::from_board(&board(&[".....", ".....", ".....", ".....", "....."]));
    let mut buf = vec![99u16];
    s.local_moves(&mut buf);
    assert_eq!(buf, vec![12]);
}

#[test]
fn local_moves_are_the_neighbours_of_stones() {
    let s = State::from_board(&board(&["X....", ".....", ".....", ".....", "....#"]));
    let mut buf = Vec::new();
    s.local_moves(&mut buf);
    assert_eq!(buf, vec![1, 5, 6, 18, 19, 23]);
}

#[test]
fn local_moves_fall_back_to_every_empty_cell() {
    let s = State::from_board(&board(&["X.O", "OXX", "OXO"]));
    let mut buf = Vec::new();
    s.local_moves(&mut buf);
    assert_eq!(buf, vec![1]);
    let s = State::from_board(&board(&["XOX", "OXO", "OXO"]));
    let mut buf = vec![4];
    s.local_moves(&mut buf);
    assert!(buf.is_empty());
}

#[test]
fn negamax_at_depth_zero_is_the_evaluation() {
    let mut s = State::from_board(&board(&["X..", "...", "..."]));
    assert_eq!(s.negamax(0, -1000, 1000, SIDE_X, 0), 6);
    assert_eq!(s.negamax(0, -1000, 1000, SIDE_O, 0), -6);
}

#[test]
fn negamax_on_a_full_board_is_the_scaled_score() {
    let mut s = State::from_board(&board(&["XXX", "XOO", "XOO"]));
    assert_eq!(s.negamax(3, -i32::MAX, i32::MAX, SIDE_X, 0), 2 * TERMINAL_SCALE);
    assert_eq!(s.negamax(3, -i32::MAX, i32::MAX, SIDE_O, 0), -2 * TERMINAL_SCALE);
}

#[test]
fn search_finds_the_only_move_and_keeps_the_position() {
    let mut s = State::from_board(&board(&["XOX", "O.O", "XOX"]));
    let hash = s.hash();
    let cells = s.cells().clone();
    let deadline = std::time::Instant::now() + std::time::Duration::from_millis(500);
    let (score, idx, _) = s.search_root(SIDE_X, deadline);
    assert_eq!(idx, 4);
    // X at the centre completes both diagonals
    assert_eq!(score, 2 * TERMINAL_SCALE);
    assert_eq!(s.hash(), hash);
    assert_eq!(*s.cells(), cells);
}

#[test]
fn search_on_a_full_board_answers_zero() {
    let mut s = State::from_board(&board(&["XOX", "OXO", "OXO"]));
    let deadline = std::time::Instant::now() + std::time::Duration::from_millis(100);
    let (score, idx, _) = s.search_root(SIDE_O, deadline);
    assert_eq!((score, idx), (0, 0));
}

#[test]
fn agent_completes_the_only_line() {
    let b = board(&["XX.", "OO#", "X#O"]);
    let (score, r, c, _) = SolutionAgent::solve(&b, Player::X, 500);
    assert_eq!((r, c), (0, 2));
    assert_eq!(score, TERMINAL_SCALE);
}

#[test]
fn agent_always_answers_an_empty_cell() {
    let b = board(&["X....", ".O...", "..#..", ".....", "....."]);
    for player in [Player::X, Player::O] {
        let (_, r, c, _) = SolutionAgent::solve(&b, player, 300);
        assert!(r < 5 && c < 5);
        assert_eq!(b[r][c], Cell::Empty);
    }
}

#[test]
fn agent_on_a_full_board_answers_the_corner() {
    let b = board(&["XO", "OX"]);
    let (_, r, c, _) = SolutionAgent::solve(&b, Player::O, 50);
    assert_eq!((r, c), (0, 0));
}

#[test]
fn local_moves_follow_the_scan_order() {
    // stones at cells 3 and 11: the neighbours of 3 come first, then the new ones of 11
    let s = State::from_board(&board(&["...X.", ".....", ".X...", ".....", "....."]));
    let mut buf = Vec::new();
    s.local_moves(&mut buf);
    assert_eq!(buf, vec![2, 4, 7, 8, 9, 5, 6, 10, 12, 15, 16, 17]);
}

#[test]
fn agent_plays_next_to_the_stones() {
    let b = board(&["X....", ".....", ".....", ".....", "....."]);
    let (_, r, c, _) = SolutionAgent::solve(&b, Player::O, 200);
    assert!(r <= 1 && c <= 1 && (r, c) != (0, 0));
    let empty = board(&[".....", ".....", ".....", ".....", "....."]);
    let (_, r, c, _) = SolutionAgent::solve(&empty, Player::X, 200);
    assert_eq!((r, c), (2, 2));
}

fn plain_negamax(s: &mut State, depth: u8, side: i32) -> i64 {
    if s.is_full() {
        return s.actual_score() as i64 * TERMINAL_SCALE as i64 * side as i64;
    }
    if depth == 0 {
        return s.heuristic() as i64 * side as i64;
    }
    let mut moves = Vec::new();
    s.local_moves(&mut moves);
    let mut best = i64::MIN;
    for m in moves {
        s.apply(m as usize, side);
        let v = -plain_negamax(s, depth - 1, -side);
        s.undo(m as usize, side);
        if v > best {
            best = v;
        }
    }
    best
}

#[test]
fn negamax_answers_the_plain_negamax_value() {
    for rows in [["X..", ".O.", "..."], ["X.O", "...", "O.X"], ["#X.", "O..", "..."]] {
        for side in [SIDE_X, SIDE_O] {
            for depth in 1..=3u8 {
                let mut plain = State::from_board(&board(&rows));
                let expected = plain_negamax(&mut plain, depth, side);
                let mut s = State::from_board(&board(&rows));
                let lo = -(i32::MAX / 2);
                let hi = i32::MAX / 2;
                let r = s.negamax(depth, lo, hi, side, 0) as i64;
                if (lo as i64) < r && r < hi as i64 {
                    assert_eq!(r, expected);
                } else if r <= lo as i64 {
                    assert!(expected <= r);
                } else {
                    assert!(expected >= r);
                }
            }
        }
    }
}

#[test]
fn exchanging_sides_negates_the_evaluation() {
    let a = State::from_board(&board(&["XX..", ".O..", "..O.", "#..X"]));
    let b = State::from_board(&board(&["OO..", ".X..", "..X.", "#..O"]));
    assert_eq!(a.heuristic(), -b.heuristic());
    assert_eq!(a.actual_score(), -b.actual_score());
}

#[test]
fn agent_plays_on_a_board_of_twenty_four_rows() {
    let rows: Vec<String> = (0..24).map(|_| ".".repeat(24)).collect();
    let refs: Vec<&str> = rows.iter().map(|r| r.as_str()).collect();
    let b = board(&refs);
    let (_, r, c, _) = SolutionAgent::solve(&b, Player::X, 100);
    assert_eq!((r, c), (12, 12));
}

#[test]
fn lines_are_built_for_large_boards() {
    let n = 100usize;
    let cells = vec![0u8; n * n + 7];
    let (lines, per_cell) = build_lines_3(&cells, n);
    assert_eq!(lines.len(), 2 * n * (n - 2) + 2 * (n - 2) * (n - 2));
    assert_eq!(per_cell.len(), n * n);
}

#[test]
fn search_stopped_at_once_answers_the_first_best_one_ply_move() {
    // a deadline already passed: the first clock check stops the search
    let mut s = State::from_board(&board(&["X....", ".....", ".....", ".....", "....."]));
    let deadline = std::time::Instant::now();
    let (score, idx, _) = s.search_root(SIDE_O, deadline);
    assert_eq!(score, 0);
    // the one-ply scores of the neighbours 1, 5 and 6 of the stone at 0, for O
    let mut best = None;
    for m in [1usize, 5, 6] {
        let mut t = State::from_board(&board(&["X....", ".....", ".....", ".....", "....."]));
        t.apply(m, SIDE_O);
        let v = t.heuristic() * SIDE_O;
        match best {
            Some((bv, _)) if bv >= v => {}
            _ => best = Some((v, m)),
        }
    }
    assert_eq!(idx, best.unwrap().1);
}

#[test]
fn agent_on_a_full_board_answers_its_score() {
    let b = board(&["XXX", "OOX", "XOO"]);
    let (score, r, c, _) = SolutionAgent::solve(&b, Player::O, 50);
    assert_eq!((score, r, c), (1, 0, 0));
}

#[test]
fn lines_of_three_counts_the_board_lines() {
    assert_eq!(lines_of_three(&board(&["...", "...", "..."])), 8);
    assert_eq!(lines_of_three(&board(&["...", ".#.", "..."])), 4);
    assert_eq!(lines_of_three(&board(&[".."; 2])), 0);
    let big: Vec<&str> = vec!["........................"; 24];
    assert_eq!(lines_of_three(&board(&big)), 2 * 24 * 22 + 2 * 22 * 22);
    let bigger: Vec<&str> = vec!["........................."; 25];
    assert_eq!(lines_of_three(&board(&bigger)), 2 * 25 * 23 + 2 * 23 * 23);
}


#[test]
fn zobrist_keys_are_all_different() {
    let t = build_zobrist(6);
    let mut keys: Vec<u64> = t.iter().flat_map(|row| row.iter().copied()).collect();
    assert_eq!(keys.len(), 144);
    keys.sort();
    keys.dedup();
    assert_eq!(keys.len(), 144);
}

#[test]
fn note_deadline_records_the_clock_reading() {
    let mut s = State::from_board(&board(&["...", "...", "..."]));
    // a fresh state has counted no node, so the reading counts
    assert!(!s.note_deadline(false));
    assert!(s.note_deadline(true));
    // once up, the time stays up whatever the clock says
    assert!(s.note_deadline(false));
    assert!(s.check_time());
}

#[test]
fn agent_searches_an_open_board_of_thirty_rows() {
    // more lines of three than a finished game's score allows, but too many empty cells
    // for the search to reach a finished game
    let row = "..............................";
    let mut rows: Vec<&str> = vec![row; 30];
    rows[15] = "...............X..............";
    let b = board(&rows);
    assert!(lines_of_three(&b) > 2147);
    let (_, r, c, _) = SolutionAgent::solve(&b, Player::O, 50);
    assert!(r < 30 && c < 30);
    assert_eq!(b[r][c], Cell::Empty);
    assert!(r.abs_diff(15) <= 1 && c.abs_diff(15) <= 1);
}
