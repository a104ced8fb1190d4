use chess_ai::board::action::Action;
use chess_ai::board::board::Board;
use chess_ai::command::chess1::{check_request, chess1_solve};
use chess_ai::constants::{BLUE, EMPTY, RED};
use chess_ai::error::EngineError;
use chess_ai::evaluation::evaluation::{Evaluation, SCORE_INF};
use chess_ai::evaluation::manhattan::ManhattanEvaluation;
use chess_ai::evaluation::naive_bonus::NaiveBonusEvaluation;
use chess_ai::solver::action_path::ActionPath;
use chess_ai::solver::alpha_beta_solver::AlphaBetaSolver;
use chess_ai::solver::brute_force_search_solver::BruteForceSearchSolver;
use chess_ai::solver::mix_solver::MixSolver;
use chess_ai::solver::solver::{MaybeSolver, Solver};

fn blank(size: usize) -> Board {
    Board { size, data: vec![vec![EMPTY; size]; size] }
}

/// Red has fifteen pieces in the high block and one a step away from the cell
/// that is missing; blue stands in two rows at the bottom, out of the way.
fn one_step_from_winning() -> Board {
    let mut b = blank(9);
    for x in 5..9 {
        for y in 5..9 {
            b.set_cell(x, y, RED);
        }
    }
    b.set_cell(5, 5, EMPTY);
    b.set_cell(4, 5, RED);
    for x in 0..8 {
        b.set_cell(x, 0, BLUE);
        b.set_cell(x, 1, BLUE);
    }
    b
}

fn completing_move() -> Action {
    Action::from_usize(4, 5, 5, 5)
}

/// Plain minimax without cut-offs, to hold the search against.
fn minimax(e: &ManhattanEvaluation, board: &mut Board, player: usize, depth: usize) -> i64 {
    if depth == 0 {
        return e.evaluate(board, player);
    }
    let mut best = -SCORE_INF;
    for a in board.generate_actions_all(player) {
        board.perform_action(a);
        let v = -minimax(e, board, 3 - player, depth - 1);
        board.undo_action(a);
        if v > best {
            best = v;
        }
    }
    best
}

#[test]
fn path_starts_empty_and_grows_at_the_end() {
    let mut p = ActionPath::new();
    assert_eq!(p.len(), 0);
    assert_eq!(p.get(0), None);
    assert_eq!(p.pop(), None);
    let a = Action::from_usize(1, 2, 3, 4);
    let b = Action::from_usize(5, 6, 7, 8);
    p.push(a);
    assert_eq!(p.len(), 1);
    p.push(b);
    assert_eq!(p.len(), 2);
    assert_eq!(p.get(0), Some(a));
    assert_eq!(p.get(1), Some(b));
    assert_eq!(p.get(2), None);
    let q = p.clone();
    assert_eq!(p.pop(), Some(b));
    assert_eq!(p.len(), 1);
    assert_eq!(p.get(0), Some(a));
    assert_eq!(q.len(), 2);
    assert_eq!(q.get(1), Some(b));
}

#[test]
fn path_holds_more_than_its_inline_capacity() {
    let mut p = ActionPath::new();
    for i in 0..40 {
        p.push(Action::from_usize(i, 0, 0, i));
    }
    assert_eq!(p.len(), 40);
    for i in 0..40 {
        assert_eq!(p.get(i), Some(Action::from_usize(i, 0, 0, i)));
    }
    assert_eq!(p.pop(), Some(Action::from_usize(39, 0, 0, 39)));
}

#[test]
fn alpha_beta_at_depth_zero_returns_the_raw_score() {
    let solver = AlphaBetaSolver::new(ManhattanEvaluation, 3);
    let mut b = Board::new(9);
    b.perform_action(Action::from_usize(2, 0, 4, 0));
    let before = b.clone();
    let start = Action::from_usize(9, 9, 9, 9);
    for player in [RED, BLUE] {
        let mut best = start;
        let expected = ManhattanEvaluation.evaluate(&b, player);
        let v = solver.ab_search(&mut b, player, 0, -SCORE_INF, SCORE_INF, &mut best);
        assert_eq!(v, expected);
        assert_eq!(best, start);
        let narrow = solver.ab_search(&mut b, player, 0, 100, 101, &mut best);
        assert_eq!(narrow, expected);
        assert_eq!(b.data, before.data);
    }
    assert_eq!(ManhattanEvaluation.evaluate(&b, RED), 2);
}

#[test]
fn alpha_beta_at_depth_zero_returns_the_raw_score_of_any_evaluator() {
    let solver = AlphaBetaSolver::new(NaiveBonusEvaluation::default(), 2);
    let mut b = one_step_from_winning();
    let mut best = completing_move();
    let v = solver.ab_search(&mut b, RED, 0, -SCORE_INF, SCORE_INF, &mut best);
    assert_eq!(v, 51 - 41);
    let w = solver.ab_search(&mut b, BLUE, 0, -SCORE_INF, SCORE_INF, &mut best);
    assert_eq!(w, 41 - 51);
}

#[test]
fn alpha_beta_value_is_the_minimax_value() {
    let solver = AlphaBetaSolver::new(ManhattanEvaluation, 2);
    let mut b = Board::new(9);
    let before = b.clone();
    for depth in 1..3 {
        let mut best = Action::from_usize(9, 9, 9, 9);
        let v = solver.ab_search(&mut b, RED, depth, -SCORE_INF, SCORE_INF, &mut best);
        assert_eq!(b.data, before.data);
        let mut copy = before.clone();
        assert_eq!(v, minimax(&ManhattanEvaluation, &mut copy, RED, depth));
        assert!(b.generate_actions_all(RED).contains(&best));
        b.perform_action(best);
        let reply = minimax(&ManhattanEvaluation, &mut b, BLUE, depth - 1);
        b.undo_action(best);
        assert_eq!(-reply, v);
    }
}

#[test]
fn alpha_beta_value_is_cut_to_the_window() {
    let solver = AlphaBetaSolver::new(ManhattanEvaluation, 1);
    let mut b = Board::new(9);
    let mut copy = b.clone();
    let exact = minimax(&ManhattanEvaluation, &mut copy, RED, 1);
    assert_eq!(exact, 2);
    let start = Action::from_usize(9, 9, 9, 9);
    let mut best = start;
    assert_eq!(solver.ab_search(&mut b, RED, 1, 5, 9, &mut best), 5);
    assert_eq!(best, start);
    assert_eq!(solver.ab_search(&mut b, RED, 1, -9, 1, &mut best), 1);
    assert_ne!(best, start);
    let mut other = start;
    assert_eq!(solver.ab_search(&mut b, RED, 1, -9, 9, &mut other), 2);
    assert!(b.generate_actions_all(RED).contains(&other));
}

#[test]
fn alpha_beta_returns_the_completing_move() {
    let b = one_step_from_winning();
    for depth in [1, 2] {
        let solver = AlphaBetaSolver::new(ManhattanEvaluation, depth);
        assert_eq!(solver.solve(&b, RED), completing_move());
    }
}

#[test]
fn alpha_beta_default_looks_six_plies_ahead() {
    let solver = AlphaBetaSolver::default();
    assert_eq!(solver.max_depth, 6);
}

#[test]
fn alpha_beta_with_depth_zero_returns_the_first_legal_move() {
    let b = Board::new(9);
    let solver = AlphaBetaSolver::new(ManhattanEvaluation, 0);
    let action = solver.solve(&b, BLUE);
    assert_eq!(action, b.generate_actions_all(BLUE)[0]);
}

#[test]
fn alpha_beta_returns_a_legal_move_when_every_move_loses() {
    let mut b = blank(9);
    for x in 0..4 {
        for y in 0..4 {
            b.set_cell(x, y, BLUE);
        }
    }
    b.set_cell(6, 6, RED);
    let solver = AlphaBetaSolver::new(ManhattanEvaluation, 1);
    let action = solver.solve(&b, RED);
    assert!(b.generate_actions_all(RED).contains(&action));
}

#[test]
fn extract_board_keeps_the_pieces_of_one_side() {
    let solver = BruteForceSearchSolver::new(1);
    let b = Board::new(9);
    let red = solver.extract_board(&b, RED);
    assert_eq!(red.count_pieces(RED), 16);
    assert_eq!(red.count_pieces(BLUE), 0);
    assert_eq!(red.data[0][0], RED);
    assert_eq!(red.data[8][8], EMPTY);
    let blue = solver.extract_board(&b, BLUE);
    assert_eq!(blue.count_pieces(RED), 0);
    assert_eq!(blue.count_pieces(BLUE), 16);
    assert_eq!(b.count_pieces(BLUE), 16);
}

#[test]
fn brute_force_default_searches_five_moves() {
    assert_eq!(BruteForceSearchSolver::default().max_depth, 5);
    assert_eq!(BruteForceSearchSolver::new(3).max_depth, 3);
}

#[test]
fn brute_force_returns_the_completing_move() {
    let b = one_step_from_winning();
    let solver = BruteForceSearchSolver::new(1);
    assert_eq!(MaybeSolver::solve(&solver, &b, RED), Some(completing_move()));
    let deeper = BruteForceSearchSolver::new(2);
    assert_eq!(MaybeSolver::solve(&deeper, &b, RED), Some(completing_move()));
}

#[test]
fn brute_force_finds_nothing_within_too_small_a_bound() {
    let b = one_step_from_winning();
    let none = BruteForceSearchSolver::new(0);
    assert_eq!(MaybeSolver::solve(&none, &b, RED), None);
    let fresh = Board::new(9);
    let shallow = BruteForceSearchSolver::new(2);
    assert_eq!(MaybeSolver::solve(&shallow, &fresh, RED), None);
    assert_eq!(MaybeSolver::solve(&shallow, &fresh, BLUE), None);
}

#[test]
fn brute_force_ignores_the_other_side() {
    let mut b = one_step_from_winning();
    b.set_cell(5, 5, BLUE);
    let solver = BruteForceSearchSolver::new(1);
    assert_eq!(MaybeSolver::solve(&solver, &b, RED), Some(completing_move()));
}

#[test]
fn brute_force_finds_a_win_in_two() {
    let mut b = one_step_from_winning();
    b.set_cell(4, 5, EMPTY);
    b.set_cell(3, 5, RED);
    let one = BruteForceSearchSolver::new(1);
    assert_eq!(MaybeSolver::solve(&one, &b, RED), None);
    let two = BruteForceSearchSolver::new(2);
    assert_eq!(MaybeSolver::solve(&two, &b, RED), Some(Action::from_usize(3, 5, 4, 5)));
}

#[test]
fn dfs_appends_the_winning_line_and_leaves_the_won_position() {
    let solver = BruteForceSearchSolver::new(2);
    let mut b = one_step_from_winning();
    b.set_cell(4, 5, EMPTY);
    b.set_cell(3, 5, RED);
    let mut path = ActionPath::new();
    let marker = Action::from_usize(9, 9, 9, 9);
    path.push(marker);
    assert!(solver.dfs(&mut b, &mut path, 0, RED));
    assert_eq!(path.len(), 3);
    assert_eq!(path.get(0), Some(marker));
    assert_eq!(path.get(1), Some(Action::from_usize(3, 5, 4, 5)));
    assert_eq!(path.get(2), Some(completing_move()));
    assert!(b.is_red_winning());
}

#[test]
fn dfs_leaves_board_and_path_alone_when_it_fails() {
    let solver = BruteForceSearchSolver::new(2);
    let mut b = one_step_from_winning();
    b.set_cell(4, 5, EMPTY);
    b.set_cell(3, 5, RED);
    let before = b.clone();
    let mut path = ActionPath::new();
    assert!(!solver.dfs(&mut b, &mut path, 1, RED));
    assert_eq!(path.len(), 0);
    assert_eq!(b.data, before.data);
    assert!(!solver.dfs(&mut b, &mut path, 0, BLUE));
    assert_eq!(b.data, before.data);
}

#[test]
fn dfs_finds_a_won_position_at_once() {
    let solver = BruteForceSearchSolver::new(0);
    let mut b = one_step_from_winning();
    b.perform_action(completing_move());
    let mut path = ActionPath::new();
    assert!(solver.dfs(&mut b, &mut path, 0, RED));
    assert_eq!(path.len(), 0);
}

#[test]
fn search_returns_a_shortest_winning_line() {
    let solver = BruteForceSearchSolver::new(3);
    let b = one_step_from_winning();
    let found = solver.search(&b, 3, RED);
    assert!(found.is_some());
    let path = found.unwrap();
    assert_eq!(path.len(), 1);
    assert_eq!(path.get(0), Some(completing_move()));

    let mut two = one_step_from_winning();
    two.set_cell(4, 5, EMPTY);
    two.set_cell(3, 5, RED);
    let line = solver.search(&two, 3, RED).unwrap();
    assert_eq!(line.len(), 2);
    let mut replay = two.clone();
    for i in 0..line.len() {
        let a = line.get(i).unwrap();
        assert!(replay.generate_actions_all(RED).contains(&a));
        replay.perform_action(a);
    }
    assert!(replay.is_red_winning());
    assert!(solver.search(&two, 1, RED).is_none());
}

#[test]
fn search_finds_a_line_whenever_the_depth_first_search_does() {
    let mut b = one_step_from_winning();
    b.set_cell(4, 5, EMPTY);
    b.set_cell(2, 5, RED);
    for depth in 0..4 {
        let solver = BruteForceSearchSolver::new(depth);
        let breadth = solver.search(&b, depth, RED);
        let mut path = ActionPath::new();
        let mut copy = b.clone();
        let found = solver.dfs(&mut copy, &mut path, 0, RED);
        assert_eq!(breadth.is_some(), found);
        assert_eq!(found, depth >= 3);
        if let Some(line) = breadth {
            assert_eq!(line.len(), 3);
            assert!(line.len() <= path.len());
        }
    }
}

#[test]
fn search_reaches_a_position_by_the_shorter_of_two_ways() {
    let mut b = blank(9);
    for x in 5..9 {
        for y in 5..9 {
            b.set_cell(x, y, RED);
        }
    }
    b.set_cell(5, 5, EMPTY);
    b.set_cell(3, 5, RED);
    b.set_cell(4, 4, BLUE);
    let solver = BruteForceSearchSolver::new(4);
    let line = solver.search(&b, 4, RED).unwrap();
    assert_eq!(line.len(), 2);
    assert_eq!(line.get(0), Some(Action::from_usize(3, 5, 4, 5)));
    assert_eq!(line.get(1), Some(completing_move()));
}

#[test]
fn alpha_beta_with_an_empty_window_returns_one_of_its_ends() {
    let solver = AlphaBetaSolver::new(ManhattanEvaluation, 2);
    let mut b = Board::new(9);
    let first = b.generate_actions_all(RED)[0];
    let start = Action::from_usize(9, 9, 9, 9);
    let mut best = start;
    assert_eq!(solver.ab_search(&mut b, RED, 1, 5, 5, &mut best), 5);
    assert_eq!(best, start);
    assert_eq!(solver.ab_search(&mut b, RED, 1, 7, 3, &mut best), 7);
    assert_eq!(best, start);
    assert_eq!(solver.ab_search(&mut b, RED, 1, 7, 2, &mut best), 2);
    assert!(b.generate_actions_all(RED).contains(&best));
    let mut other = start;
    assert_eq!(solver.ab_search(&mut b, RED, 2, 7, 3, &mut other), 3);
    assert_eq!(other, first);
    assert_eq!(solver.ab_search(&mut b, RED, 3, 9, 9, &mut other), 9);
    assert_eq!(solver.ab_search(&mut b, RED, 0, 9, 1, &mut other), 0);
}

#[test]
fn search_returns_the_empty_line_for_a_won_position() {
    let solver = BruteForceSearchSolver::new(3);
    let mut b = one_step_from_winning();
    b.perform_action(completing_move());
    let found = solver.search(&b, 0, RED);
    assert!(found.is_some());
    assert_eq!(found.unwrap().len(), 0);
    assert!(solver.search(&b, 0, BLUE).is_none());
}

#[test]
fn mix_solver_returns_the_completing_move() {
    let b = one_step_from_winning();
    assert!(b.is_separable());
    assert_eq!(MixSolver::default().solve(&b, RED), completing_move());
    assert_eq!(MixSolver.solve(&b, RED), completing_move());
}

#[test]
fn chess1_solve_returns_the_completing_move() {
    let b = one_step_from_winning();
    assert_eq!(chess1_solve(&b, RED), Ok(completing_move()));
}

#[test]
fn chess1_solve_rejects_malformed_boards() {
    let small = Board { size: 3, data: vec![vec![EMPTY; 3]; 3] };
    assert_eq!(chess1_solve(&small, RED), Err(EngineError::BadShape));
    let mut bad_cell = Board::new(9);
    bad_cell.data[4][4] = 3;
    assert_eq!(chess1_solve(&bad_cell, RED), Err(EngineError::BadCell));
    let mut missing = Board::new(9);
    missing.data[0][0] = EMPTY;
    assert_eq!(chess1_solve(&missing, RED), Err(EngineError::BadPieceCount));
}

#[test]
fn chess1_solve_rejects_an_unknown_player() {
    let b = Board::new(9);
    assert_eq!(chess1_solve(&b, EMPTY), Err(EngineError::BadPlayer));
    assert_eq!(chess1_solve(&b, 3), Err(EngineError::BadPlayer));
}

#[test]
fn chess1_solve_reports_a_decided_game() {
    let mut b = one_step_from_winning();
    b.perform_action(completing_move());
    assert_eq!(chess1_solve(&b, BLUE), Err(EngineError::NoLegalMove));
    assert_eq!(chess1_solve(&b, RED), Err(EngineError::NoLegalMove));
}

#[test]
fn chess1_solve_reports_a_player_without_moves() {
    let mut b = blank(9);
    for x in 0..4 {
        for y in 0..4 {
            b.set_cell(x, y, RED);
        }
        b.set_cell(x, 4, BLUE);
        b.set_cell(x, 5, BLUE);
        b.set_cell(4, x, BLUE);
        b.set_cell(5, x, BLUE);
    }
    assert_eq!(b.validate(), Ok(()));
    assert_eq!(b.is_game_over(), None);
    assert!(b.generate_actions_all(RED).is_empty());
    assert_eq!(chess1_solve(&b, RED), Err(EngineError::NoLegalMove));
    assert_eq!(check_request(&b, RED), Err(EngineError::NoLegalMove));
    assert_eq!(check_request(&b, BLUE), Ok(()));
    let action = chess1_solve(&b, BLUE).unwrap();
    assert!(b.generate_actions_all(BLUE).contains(&action));
}

#[test]
fn check_request_accepts_the_opening_position() {
    let b = Board::new(9);
    assert_eq!(check_request(&b, RED), Ok(()));
    assert_eq!(check_request(&b, BLUE), Ok(()));
    assert_eq!(check_request(&b, 0), Err(EngineError::BadPlayer));
    assert_eq!(check_request(&Board::new(6), RED), Err(EngineError::BadPieceCount));
}
