use chess_ai::board::action::Action;
use chess_ai::board::board::Board;
use chess_ai::constants::{opponent, BLUE, EMPTY, RED};
use chess_ai::error::EngineError;

fn empty_board(size: usize) -> Board {
    Board { size, data: vec![vec![EMPTY; size]; size] }
}

fn is_single_step(a: &Action) -> bool {
    let dx = (a.from_x as i32 - a.to_x as i32).abs();
    let dy = (a.from_y as i32 - a.to_y as i32).abs();
    dx + dy == 1
}

fn grids_equal(a: &Board, b: &Board) -> bool {
    a.size == b.size && a.data == b.data
}

#[test]
fn constants_are_the_three_cell_codes() {
    assert_eq!(EMPTY, 0);
    assert_eq!(RED, 1);
    assert_eq!(BLUE, 2);
    assert_eq!(opponent(RED), BLUE);
    assert_eq!(opponent(BLUE), RED);
}

#[test]
fn action_from_usize_keeps_small_coordinates() {
    let a = Action::from_usize(1, 2, 3, 4);
    assert_eq!(a, Action { from_x: 1, from_y: 2, to_x: 3, to_y: 4 });
}

#[test]
fn action_from_usize_reduces_modulo_256() {
    let a = Action::from_usize(256, 257, 511, 1000);
    assert_eq!(a, Action { from_x: 0, from_y: 1, to_x: 255, to_y: 232 });
}

#[test]
fn action_forward_for_red_is_not_backward_on_either_axis() {
    assert!(Action::from_usize(2, 2, 3, 2).is_forward(RED));
    assert!(Action::from_usize(2, 2, 2, 4).is_forward(RED));
    assert!(Action::from_usize(2, 2, 2, 2).is_forward(RED));
    assert!(!Action::from_usize(2, 2, 1, 2).is_forward(RED));
    assert!(!Action::from_usize(2, 2, 3, 1).is_forward(RED));
}

#[test]
fn action_forward_for_blue_is_the_mirror() {
    assert!(Action::from_usize(5, 5, 4, 5).is_forward(BLUE));
    assert!(Action::from_usize(5, 5, 5, 3).is_forward(BLUE));
    assert!(!Action::from_usize(5, 5, 6, 5).is_forward(BLUE));
    assert!(!Action::from_usize(5, 5, 4, 6).is_forward(BLUE));
}

#[test]
fn new_board_holds_the_opening_position() {
    let b = Board::new(9);
    assert_eq!(b.size, 9);
    for x in 0..9 {
        for y in 0..9 {
            let expected = if x < 4 && y < 4 {
                RED
            } else if x >= 5 && y >= 5 {
                BLUE
            } else {
                EMPTY
            };
            assert_eq!(b.data[x][y], expected);
            assert_eq!(b.cell(x, y), expected);
        }
    }
}

#[test]
fn new_board_puts_the_pieces_on_in_pairs() {
    for size in 4..10 {
        let mut expected = vec![vec![EMPTY; size]; size];
        for i in 0..4 {
            for j in 0..4 {
                expected[i][j] = RED;
                expected[size - i - 1][size - j - 1] = BLUE;
            }
        }
        assert_eq!(Board::new(size).data, expected);
    }
}

#[test]
fn new_board_of_six_columns_overlaps_in_four_cells() {
    let b = Board::new(6);
    assert_eq!(b.data[2][2], BLUE);
    assert_eq!(b.data[2][3], BLUE);
    assert_eq!(b.data[3][2], RED);
    assert_eq!(b.data[3][3], RED);
    assert_eq!(b.data[1][1], RED);
    assert_eq!(b.data[4][4], BLUE);
    assert_eq!(b.count_pieces(RED), 14);
    assert_eq!(b.count_pieces(BLUE), 14);
}

#[test]
fn new_board_is_not_over() {
    assert_eq!(Board::new(9).is_game_over(), None);
    assert_eq!(Board::new(8).is_game_over(), None);
    assert_eq!(Board::new(5).is_game_over(), None);
    assert_eq!(Board::new(4).is_game_over(), None);
    assert!(!Board::new(9).is_red_winning());
    assert!(!Board::new(9).is_blue_winning());
}

#[test]
fn new_board_of_four_columns_is_half_and_half() {
    let b = Board::new(4);
    for y in 0..4 {
        assert_eq!(b.data[0][y], BLUE);
        assert_eq!(b.data[1][y], BLUE);
        assert_eq!(b.data[2][y], RED);
        assert_eq!(b.data[3][y], RED);
    }
    assert_eq!(b.is_game_over(), None);
}

#[test]
fn game_is_over_exactly_when_a_block_is_filled() {
    let mut b = empty_board(9);
    for x in 5..9 {
        for y in 5..9 {
            b.set_cell(x, y, RED);
        }
    }
    assert!(b.is_red_winning());
    assert_eq!(b.is_game_over(), Some(RED));
    b.set_cell(5, 5, EMPTY);
    assert!(!b.is_red_winning());
    assert_eq!(b.is_game_over(), None);
    b.set_cell(5, 5, BLUE);
    assert_eq!(b.is_game_over(), None);

    let mut c = empty_board(9);
    for x in 0..4 {
        for y in 0..4 {
            c.set_cell(x, y, BLUE);
        }
    }
    assert!(c.is_blue_winning());
    assert_eq!(c.is_game_over(), Some(BLUE));
    c.set_cell(3, 0, RED);
    assert_eq!(c.is_game_over(), None);
}

#[test]
fn red_takes_precedence_when_both_blocks_are_filled() {
    let mut b = empty_board(9);
    for x in 0..4 {
        for y in 0..4 {
            b.set_cell(x, y, BLUE);
            b.set_cell(8 - x, 8 - y, RED);
        }
    }
    assert_eq!(b.is_game_over(), Some(RED));
}

#[test]
fn fresh_board_moves_of_red() {
    let b = Board::new(9);
    let moves = b.generate_actions_all(RED);
    let steps: Vec<&Action> = moves.iter().filter(|a| is_single_step(a)).collect();
    assert_eq!(steps.len(), 8);
    for a in steps.iter() {
        assert!(a.to_x == 4 || a.to_y == 4);
    }
    let jumps: Vec<&Action> = moves.iter().filter(|a| !is_single_step(a)).collect();
    assert_eq!(jumps.len(), 8);
    for a in jumps.iter() {
        let along_x = a.from_x == 2 && a.to_x == 4 && a.from_y == a.to_y;
        let along_y = a.from_y == 2 && a.to_y == 4 && a.from_x == a.to_x;
        assert!(along_x || along_y);
    }
    assert_eq!(moves.len(), 16);
    assert!(moves.contains(&Action::from_usize(3, 0, 4, 0)));
    assert!(moves.contains(&Action::from_usize(2, 0, 4, 0)));
}

#[test]
fn fresh_board_moves_of_blue_mirror_those_of_red() {
    let b = Board::new(9);
    let moves = b.generate_actions_all(BLUE);
    assert_eq!(moves.len(), 16);
    assert!(moves.contains(&Action::from_usize(5, 8, 4, 8)));
    assert!(moves.contains(&Action::from_usize(6, 8, 4, 8)));
}

#[test]
fn generated_moves_are_listed_once() {
    let b = Board::new(9);
    let moves = b.generate_actions_all(RED);
    for i in 0..moves.len() {
        for j in (i + 1)..moves.len() {
            assert_ne!(moves[i], moves[j]);
        }
    }
}

#[test]
fn generated_moves_land_on_empty_cells() {
    let mut b = Board::new(9);
    let mut player = RED;
    for round in 0..12 {
        let moves = b.generate_actions_all(player);
        assert!(!moves.is_empty());
        for a in moves.iter() {
            assert_eq!(b.data[a.from_x as usize][a.from_y as usize], player);
            assert_eq!(b.data[a.to_x as usize][a.to_y as usize], EMPTY);
        }
        b.perform_action(moves[round % moves.len()]);
        player = opponent(player);
    }
}

#[test]
fn perform_then_undo_restores_the_board() {
    let mut b = Board::new(9);
    let mut player = RED;
    for round in 0..10 {
        let moves = b.generate_actions_all(player);
        for a in moves.iter() {
            let before = b.clone();
            b.perform_action(*a);
            assert!(!grids_equal(&before, &b));
            assert_eq!(b.data[a.to_x as usize][a.to_y as usize], player);
            assert_eq!(b.data[a.from_x as usize][a.from_y as usize], EMPTY);
            b.undo_action(*a);
            assert!(grids_equal(&before, &b));
        }
        b.perform_action(moves[(round * 7) % moves.len()]);
        player = opponent(player);
    }
}

#[test]
fn piece_counts_stay_sixteen() {
    let mut b = Board::new(9);
    assert_eq!(b.count_pieces(RED), 16);
    assert_eq!(b.count_pieces(BLUE), 16);
    assert_eq!(b.count_pieces(EMPTY), 81 - 32);
    let mut player = RED;
    for round in 0..40 {
        let moves = b.generate_actions_all(player);
        if moves.is_empty() {
            break;
        }
        b.perform_action(moves[(round * 5 + 3) % moves.len()]);
        assert_eq!(b.count_pieces(RED), 16);
        assert_eq!(b.count_pieces(BLUE), 16);
        assert_eq!(b.validate(), Ok(()));
        player = opponent(player);
    }
}

#[test]
fn jump_chain_yields_origin_to_landing_pairs() {
    let mut b = empty_board(9);
    b.set_cell(0, 0, RED);
    b.set_cell(1, 0, BLUE);
    b.set_cell(3, 0, RED);
    b.set_cell(4, 1, BLUE);
    let mut jumps: Vec<Action> = Vec::new();
    b.generate_actions_from_point_jumps(0, 0, &mut jumps);
    assert_eq!(jumps.len(), 3);
    assert!(jumps.contains(&Action::from_usize(0, 0, 2, 0)));
    assert!(jumps.contains(&Action::from_usize(0, 0, 4, 0)));
    assert!(jumps.contains(&Action::from_usize(0, 0, 4, 2)));
    let mut steps: Vec<Action> = Vec::new();
    b.generate_actions_from_point_single_step(0, 0, &mut steps);
    assert_eq!(steps, vec![Action::from_usize(0, 0, 0, 1)]);
}

#[test]
fn jump_chain_may_hop_over_the_moving_piece_itself() {
    let mut b = empty_board(9);
    b.set_cell(2, 2, RED);
    b.set_cell(3, 2, RED);
    b.set_cell(4, 3, RED);
    b.set_cell(3, 4, RED);
    b.set_cell(2, 3, RED);
    let mut jumps: Vec<Action> = Vec::new();
    b.generate_actions_from_point_jumps(2, 2, &mut jumps);
    assert!(jumps.contains(&Action::from_usize(2, 2, 4, 2)));
    assert!(jumps.contains(&Action::from_usize(2, 2, 4, 4)));
    assert!(jumps.contains(&Action::from_usize(2, 2, 2, 4)));
    assert!(!jumps.contains(&Action::from_usize(2, 2, 2, 2)));
    assert_eq!(jumps.len(), 3);
}

#[test]
fn jumps_append_to_what_the_list_holds() {
    let b = Board::new(9);
    let first = Action::from_usize(9, 9, 9, 9);
    let mut list = vec![first];
    b.generate_actions_from_point_jumps(2, 0, &mut list);
    assert_eq!(list, vec![first, Action::from_usize(2, 0, 4, 0)]);
    b.generate_actions_from_point_single_step(3, 3, &mut list);
    assert_eq!(list.len(), 4);
    assert_eq!(list[0], first);
}

#[test]
fn forward_only_moves_leave_out_the_backward_ones() {
    let mut b = empty_board(9);
    b.set_cell(4, 4, RED);
    b.set_cell(3, 4, BLUE);
    b.set_cell(4, 5, BLUE);
    let all = b.generate_actions_all(RED);
    let forward = b.generate_actions_forward_only(RED);
    assert_eq!(all.len(), 4);
    assert!(all.contains(&Action::from_usize(4, 4, 5, 4)));
    assert!(all.contains(&Action::from_usize(4, 4, 4, 3)));
    assert!(all.contains(&Action::from_usize(4, 4, 2, 4)));
    assert!(all.contains(&Action::from_usize(4, 4, 4, 6)));
    assert_eq!(forward.len(), 2);
    assert!(forward.contains(&Action::from_usize(4, 4, 5, 4)));
    assert!(forward.contains(&Action::from_usize(4, 4, 4, 6)));

    let mut steps: Vec<Action> = Vec::new();
    b.generate_actions_from_point_single_step_forward_only(4, 4, &mut steps);
    assert_eq!(steps, vec![Action::from_usize(4, 4, 5, 4)]);
    let mut jumps: Vec<Action> = Vec::new();
    b.generate_actions_from_point_jumps_forward_only(4, 4, &mut jumps);
    assert_eq!(jumps, vec![Action::from_usize(4, 4, 4, 6)]);

    let blue_forward = b.generate_actions_forward_only(BLUE);
    for a in blue_forward.iter() {
        assert!(a.to_x <= a.from_x && a.to_y <= a.from_y);
    }
    assert!(blue_forward.contains(&Action::from_usize(3, 4, 2, 4)));
    assert!(blue_forward.contains(&Action::from_usize(4, 5, 4, 3)));
}

#[test]
fn forward_jumps_are_found_behind_backward_landings() {
    let mut b = empty_board(9);
    b.set_cell(4, 4, RED);
    b.set_cell(4, 3, BLUE);
    b.set_cell(5, 2, BLUE);
    b.set_cell(6, 3, BLUE);
    b.set_cell(6, 5, BLUE);
    let mut jumps: Vec<Action> = Vec::new();
    b.generate_actions_from_point_jumps_forward_only(4, 4, &mut jumps);
    assert_eq!(jumps, vec![Action::from_usize(4, 4, 6, 4), Action::from_usize(4, 4, 6, 6)]);
}

#[test]
fn fresh_board_is_not_separable() {
    assert!(!Board::new(9).is_separable());
}

#[test]
fn sides_that_have_passed_each_other_are_separable() {
    let mut b = empty_board(9);
    for x in 0..4 {
        for y in 0..4 {
            b.set_cell(x, y, BLUE);
            b.set_cell(8 - x, 8 - y, RED);
        }
    }
    assert!(b.is_separable());
}

#[test]
fn neighbours_of_both_sides_are_not_separable() {
    let mut b = empty_board(9);
    b.set_cell(5, 5, RED);
    b.set_cell(4, 5, BLUE);
    assert!(!b.is_separable());
    let mut c = empty_board(9);
    c.set_cell(5, 5, RED);
    c.set_cell(5, 4, BLUE);
    assert!(!c.is_separable());
    let mut d = empty_board(9);
    d.set_cell(5, 5, RED);
    d.set_cell(3, 5, BLUE);
    assert!(d.is_separable());
}

#[test]
fn blue_ahead_of_red_is_not_separable() {
    let mut b = empty_board(9);
    b.set_cell(2, 2, RED);
    b.set_cell(7, 2, BLUE);
    assert!(!b.is_separable());
    let mut c = empty_board(9);
    c.set_cell(2, 2, RED);
    c.set_cell(7, 1, BLUE);
    assert!(c.is_separable());
}

#[test]
fn set_row_by_string_writes_a_row_from_the_top() {
    let mut b = empty_board(9);
    b.set_cell(2, 8, RED);
    b.set_row_by_string(0, "0r0b");
    assert_eq!(b.data[0][8], EMPTY);
    assert_eq!(b.data[1][8], RED);
    assert_eq!(b.data[2][8], EMPTY);
    assert_eq!(b.data[3][8], BLUE);
    assert_eq!(b.data[4][8], EMPTY);
    b.set_row_by_string(8, "bbbbrrrr0");
    for x in 0..4 {
        assert_eq!(b.data[x][0], BLUE);
        assert_eq!(b.data[x + 4][0], RED);
    }
    assert_eq!(b.data[8][0], EMPTY);
    assert_eq!(b.count_pieces(RED), 5);
    b.set_row_by_string(3, "");
    assert_eq!(b.count_pieces(RED), 5);
}

#[test]
fn clone_copies_the_cells() {
    let mut b = Board::new(9);
    let c = b.clone();
    b.set_cell(0, 0, EMPTY);
    assert_eq!(c.data[0][0], RED);
    assert_eq!(b.data[0][0], EMPTY);
    assert_eq!(c.size, 9);
}

#[test]
fn validate_accepts_the_opening_position() {
    assert_eq!(Board::new(9).validate(), Ok(()));
    assert_eq!(Board::new(8).validate(), Ok(()));
}

#[test]
fn validate_rejects_a_bad_shape() {
    let small = Board { size: 3, data: vec![vec![EMPTY; 3]; 3] };
    assert_eq!(small.validate(), Err(EngineError::BadShape));
    let mut ragged = Board::new(9);
    ragged.data[4].pop();
    assert_eq!(ragged.validate(), Err(EngineError::BadShape));
    let mut short = Board::new(9);
    short.data.pop();
    assert_eq!(short.validate(), Err(EngineError::BadShape));
    let wrong_size = Board { size: 10, data: vec![vec![EMPTY; 9]; 9] };
    assert_eq!(wrong_size.validate(), Err(EngineError::BadShape));
}

#[test]
fn validate_rejects_an_unknown_cell_code() {
    let mut b = Board::new(9);
    b.data[4][4] = 7;
    assert_eq!(b.validate(), Err(EngineError::BadCell));
    b.data[0][0] = EMPTY;
    assert_eq!(b.validate(), Err(EngineError::BadCell));
}

#[test]
fn validate_rejects_a_wrong_piece_count() {
    let mut b = Board::new(9);
    b.data[0][0] = EMPTY;
    assert_eq!(b.validate(), Err(EngineError::BadPieceCount));
    let mut c = Board::new(9);
    c.data[4][4] = BLUE;
    assert_eq!(c.validate(), Err(EngineError::BadPieceCount));
    assert_eq!(Board::new(6).validate(), Err(EngineError::BadPieceCount));
}

#[test]
fn check_action_accepts_steps_and_jumps() {
    let b = Board::new(9);
    assert_eq!(b.check_action(Action::from_usize(3, 0, 4, 0)), Ok(()));
    assert_eq!(b.check_action(Action::from_usize(2, 0, 4, 0)), Ok(()));
    assert_eq!(b.check_action(Action::from_usize(5, 8, 4, 8)), Ok(()));
}

#[test]
fn check_action_rejects_moves_off_the_board() {
    let b = Board::new(9);
    assert_eq!(b.check_action(Action::from_usize(3, 0, 9, 0)), Err(EngineError::MoveOutOfRange));
    assert_eq!(b.check_action(Action::from_usize(9, 0, 4, 0)), Err(EngineError::MoveOutOfRange));
    assert_eq!(b.check_action(Action::from_usize(0, 200, 0, 0)), Err(EngineError::MoveOutOfRange));
}

#[test]
fn check_action_rejects_an_empty_origin() {
    let b = Board::new(9);
    assert_eq!(b.check_action(Action::from_usize(4, 4, 4, 5)), Err(EngineError::EmptyOrigin));
}

#[test]
fn check_action_rejects_what_the_rules_do_not_allow() {
    let b = Board::new(9);
    assert_eq!(b.check_action(Action::from_usize(0, 0, 1, 0)), Err(EngineError::IllegalMove));
    assert_eq!(b.check_action(Action::from_usize(3, 3, 4, 4)), Err(EngineError::IllegalMove));
    assert_eq!(b.check_action(Action::from_usize(3, 3, 5, 3)), Err(EngineError::IllegalMove));
    assert_eq!(b.check_action(Action::from_usize(3, 3, 3, 3)), Err(EngineError::IllegalMove));
}

#[test]
fn try_perform_action_makes_legal_moves_only() {
    let mut b = Board::new(9);
    let before = b.clone();
    assert_eq!(b.try_perform_action(Action::from_usize(0, 0, 1, 0)), Err(EngineError::IllegalMove));
    assert_eq!(b.try_perform_action(Action::from_usize(4, 4, 4, 5)), Err(EngineError::EmptyOrigin));
    assert_eq!(
        b.try_perform_action(Action::from_usize(3, 0, 9, 0)),
        Err(EngineError::MoveOutOfRange)
    );
    assert!(grids_equal(&before, &b));
    assert_eq!(b.try_perform_action(Action::from_usize(2, 0, 4, 0)), Ok(()));
    assert_eq!(b.data[4][0], RED);
    assert_eq!(b.data[2][0], EMPTY);
    assert_eq!(b.count_pieces(RED), 16);
    assert_eq!(b.try_perform_action(Action::from_usize(2, 0, 4, 0)), Err(EngineError::EmptyOrigin));
}

#[test]
fn shape_and_codes_are_checked_apart() {
    let mut b = Board::new(9);
    assert!(b.has_good_shape());
    assert!(b.has_known_codes());
    b.data[3][3] = 9;
    assert!(b.has_good_shape());
    assert!(!b.has_known_codes());
    b.data[3].push(0);
    assert!(!b.has_good_shape());
}
