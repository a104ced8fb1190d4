use chess_ai::board::action::Action;
use chess_ai::board::board::Board;
use chess_ai::constants::{BLUE, EMPTY, RED};
use chess_ai::simulator::naive_simulator::NaiveSimulator;

fn bare(size: usize) -> Board {
    Board { size, data: vec![vec![EMPTY; size]; size] }
}

fn red_one_step_from_winning() -> Board {
    let mut b = bare(9);
    for x in 5..9 {
        for y in 5..9 {
            b.set_cell(x, y, RED);
        }
    }
    b.set_cell(5, 5, EMPTY);
    b.set_cell(4, 5, RED);
    for x in 0..8 {
        b.set_cell(x, 0, BLUE);
        b.set_cell(x, 1, BLUE);
    }
    b
}

#[test]
fn pick_action_takes_the_pick_modulo_the_length() {
    let a = Action::from_usize(0, 0, 0, 1);
    let b = Action::from_usize(0, 0, 1, 0);
    let c = Action::from_usize(1, 1, 1, 2);
    let list = vec![a, b, c];
    assert_eq!(NaiveSimulator::pick_action(&list, 0), a);
    assert_eq!(NaiveSimulator::pick_action(&list, 1), b);
    assert_eq!(NaiveSimulator::pick_action(&list, 2), c);
    assert_eq!(NaiveSimulator::pick_action(&list, 3), a);
    assert_eq!(NaiveSimulator::pick_action(&list, 7), b);
    assert_eq!(NaiveSimulator::pick_action(&list, usize::MAX), list[usize::MAX % 3]);
    assert_eq!(NaiveSimulator::pick_action(&vec![c], 12345), c);
}

#[test]
fn simulate_reports_the_winner_of_a_won_position() {
    let mut red_won = bare(9);
    let mut blue_won = bare(9);
    for x in 0..4 {
        for y in 0..4 {
            red_won.set_cell(8 - x, 8 - y, RED);
            blue_won.set_cell(x, y, BLUE);
        }
    }
    let s = NaiveSimulator::default();
    for player in [RED, BLUE] {
        assert!(s.simulate(&red_won, player));
        assert!(!s.simulate(&blue_won, player));
    }
}

#[test]
fn simulate_lets_the_side_without_forward_moves_lose() {
    let s = NaiveSimulator;
    let mut b = bare(9);
    b.set_cell(8, 8, RED);
    b.set_cell(4, 4, BLUE);
    assert!(b.generate_actions_forward_only(RED).is_empty());
    assert!(!b.generate_actions_all(RED).is_empty());
    assert!(!s.simulate(&b, RED));
    let mut c = bare(9);
    c.set_cell(0, 0, BLUE);
    c.set_cell(4, 4, RED);
    assert!(c.generate_actions_forward_only(BLUE).is_empty());
    assert!(s.simulate(&c, BLUE));
}

#[test]
fn simulate_plays_the_only_forward_move() {
    let mut b = red_one_step_from_winning();
    b.set_cell(7, 0, EMPTY);
    b.set_cell(7, 1, EMPTY);
    b.set_cell(4, 6, BLUE);
    b.set_cell(4, 7, BLUE);
    assert_eq!(b.generate_actions_forward_only(RED), vec![Action::from_usize(4, 5, 5, 5)]);
    let s = NaiveSimulator;
    for _ in 0..20 {
        assert!(s.simulate(&b, RED));
    }
}

#[test]
fn simulate_leaves_the_board_alone_and_ends() {
    let b = Board::new(9);
    let before = b.clone();
    let s = NaiveSimulator;
    let mut red = 0;
    for round in 0..30 {
        if s.simulate(&b, if round % 2 == 0 { RED } else { BLUE }) {
            red += 1;
        }
    }
    assert!(red <= 30);
    assert_eq!(b.data, before.data);
}
