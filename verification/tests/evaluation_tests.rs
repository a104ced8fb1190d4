use chess_ai::board::board::Board;
use chess_ai::constants::{BLUE, EMPTY, RED};
use chess_ai::evaluation::evaluation::{Evaluation, SCORE_INF};
use chess_ai::evaluation::manhattan::ManhattanEvaluation;
use chess_ai::evaluation::naive_bonus::NaiveBonusEvaluation;

fn blank(size: usize) -> Board {
    Board { size, data: vec![vec![EMPTY; size]; size] }
}

fn swapped(size: usize) -> Board {
    let mut b = blank(size);
    for x in 0..4 {
        for y in 0..4 {
            b.set_cell(x, y, BLUE);
            b.set_cell(size - 1 - x, size - 1 - y, RED);
        }
    }
    b
}

#[test]
fn score_inf_is_the_greatest_score() {
    assert_eq!(SCORE_INF, i64::MAX);
    assert_eq!(-SCORE_INF, i64::MIN + 1);
}

#[test]
fn step_distances_of_the_opening_position() {
    let b = Board::new(9);
    let e = ManhattanEvaluation;
    assert_eq!(e.dis_red(&b), 112);
    assert_eq!(e.dis_blue(&b), 112);
}

#[test]
fn step_distance_of_single_pieces() {
    let e = ManhattanEvaluation;
    let mut b = blank(9);
    b.set_cell(0, 0, RED);
    assert_eq!(e.dis_red(&b), 10);
    assert_eq!(e.dis_blue(&b), 0);
    b.set_cell(0, 0, EMPTY);
    b.set_cell(6, 2, RED);
    assert_eq!(e.dis_red(&b), 3);
    b.set_cell(6, 2, EMPTY);
    b.set_cell(5, 5, RED);
    assert_eq!(e.dis_red(&b), 0);
    b.set_cell(8, 8, BLUE);
    assert_eq!(e.dis_blue(&b), 10);
    b.set_cell(8, 8, EMPTY);
    b.set_cell(2, 6, BLUE);
    assert_eq!(e.dis_blue(&b), 3);
    b.set_cell(2, 6, EMPTY);
    b.set_cell(3, 3, BLUE);
    assert_eq!(e.dis_blue(&b), 0);
}

#[test]
fn centre_distances_of_the_opening_position() {
    let b = Board::new(9);
    let e = ManhattanEvaluation;
    assert_eq!(e.dis_red2(&b), 160);
    assert_eq!(e.dis_blue2(&b), 160);
}

#[test]
fn centre_distance_of_single_pieces() {
    let e = ManhattanEvaluation;
    let mut b = blank(9);
    b.set_cell(0, 0, RED);
    assert_eq!(e.dis_red2(&b), 13);
    b.set_cell(0, 0, EMPTY);
    b.set_cell(8, 8, RED);
    assert_eq!(e.dis_red2(&b), 3);
    b.set_cell(8, 8, EMPTY);
    b.set_cell(6, 7, RED);
    assert_eq!(e.dis_red2(&b), 1);
    b.set_cell(6, 7, EMPTY);
    b.set_cell(0, 0, BLUE);
    assert_eq!(e.dis_blue2(&b), 3);
    b.set_cell(0, 0, EMPTY);
    b.set_cell(2, 1, BLUE);
    assert_eq!(e.dis_blue2(&b), 1);
    b.set_cell(2, 1, EMPTY);
    b.set_cell(8, 8, BLUE);
    assert_eq!(e.dis_blue2(&b), 13);
}

#[test]
fn rim_bonus_of_the_high_block() {
    let e = ManhattanEvaluation;
    let mut b = blank(9);
    assert_eq!(e.bonus_red(&b), 0);
    b.set_cell(8, 8, RED);
    assert_eq!(e.bonus_red(&b), 3);
    b.set_cell(5, 8, RED);
    b.set_cell(5, 5, RED);
    b.set_cell(8, 5, RED);
    assert_eq!(e.bonus_red(&b), 9);
    b.set_cell(7, 8, RED);
    b.set_cell(5, 6, RED);
    assert_eq!(e.bonus_red(&b), 11);
    b.set_cell(6, 6, RED);
    b.set_cell(7, 7, RED);
    assert_eq!(e.bonus_red(&b), 11);
    b.set_cell(8, 7, BLUE);
    assert_eq!(e.bonus_red(&b), 11);
    assert_eq!(e.bonus_red(&swapped(9)), 17);
    assert_eq!(e.bonus_blue(&swapped(9)), 17);
    assert_eq!(e.bonus_red(&Board::new(9)), 0);
}

#[test]
fn rim_bonus_of_the_low_block_counts_blue_pieces() {
    let e = ManhattanEvaluation;
    let mut b = blank(9);
    b.set_cell(0, 0, BLUE);
    assert_eq!(e.bonus_blue(&b), 3);
    b.set_cell(0, 3, BLUE);
    b.set_cell(1, 0, BLUE);
    assert_eq!(e.bonus_blue(&b), 6);
    b.set_cell(1, 1, BLUE);
    assert_eq!(e.bonus_blue(&b), 6);
    assert_eq!(e.bonus_blue(&Board::new(9)), 0);
}

#[test]
fn distance_heuristic_scores_the_opening_position_even() {
    let e = ManhattanEvaluation;
    let b = Board::new(9);
    assert_eq!(e.evaluate(&b, RED), 0);
    assert_eq!(e.evaluate(&b, BLUE), 0);
}

#[test]
fn distance_heuristic_prefers_the_side_that_is_ahead() {
    let e = ManhattanEvaluation;
    let mut b = Board::new(9);
    b.set_cell(3, 3, EMPTY);
    b.set_cell(5, 4, RED);
    assert_eq!(e.dis_red2(&b), 157);
    assert_eq!(e.evaluate(&b, RED), 3);
    assert_eq!(e.evaluate(&b, BLUE), -3);
}

#[test]
fn distance_heuristic_adds_the_bonus() {
    let e = ManhattanEvaluation;
    let mut b = blank(9);
    b.set_cell(8, 8, RED);
    b.set_cell(3, 0, BLUE);
    assert_eq!(e.evaluate(&b, RED), 3 - 3 + 3 - 2);
    assert_eq!(e.evaluate(&b, BLUE), 3 - 3 + 2 - 3);
}

#[test]
fn distance_heuristic_scores_won_positions_as_infinite() {
    let e = ManhattanEvaluation;
    let mut b = blank(9);
    for x in 5..9 {
        for y in 5..9 {
            b.set_cell(x, y, RED);
        }
    }
    assert_eq!(e.evaluate(&b, RED), SCORE_INF);
    assert_eq!(e.evaluate(&b, BLUE), -SCORE_INF);
    let mut c = blank(9);
    for x in 0..4 {
        for y in 0..4 {
            c.set_cell(x, y, BLUE);
        }
    }
    assert_eq!(e.evaluate(&c, BLUE), SCORE_INF);
    assert_eq!(e.evaluate(&c, RED), -SCORE_INF);
}

#[test]
fn corner_weights_default_to_twenty_five_two_one() {
    let e = NaiveBonusEvaluation::default();
    assert_eq!((e.score0, e.score1, e.score2, e.score3), (20, 5, 2, 1));
    assert_eq!(e.total_score(), 52);
}

#[test]
fn corner_weights_are_taken_in_ring_order() {
    let e = NaiveBonusEvaluation::new((1, 10, 100, 1000));
    assert_eq!((e.score0, e.score1, e.score2, e.score3), (1, 10, 100, 1000));
    assert_eq!(e.total_score(), 1 + 30 + 500 + 7000);
}

#[test]
fn red_score_counts_red_pieces_ring_by_ring() {
    let e = NaiveBonusEvaluation::new((1, 10, 100, 1000));
    let mut b = blank(9);
    assert_eq!(e.get_red_score(&b), 0);
    b.set_cell(8, 8, RED);
    assert_eq!(e.get_red_score(&b), 1);
    b.set_cell(7, 7, RED);
    b.set_cell(7, 8, RED);
    assert_eq!(e.get_red_score(&b), 21);
    b.set_cell(6, 8, RED);
    b.set_cell(8, 6, RED);
    b.set_cell(6, 6, RED);
    assert_eq!(e.get_red_score(&b), 321);
    b.set_cell(5, 5, RED);
    b.set_cell(5, 8, RED);
    b.set_cell(7, 5, RED);
    assert_eq!(e.get_red_score(&b), 3321);
    b.set_cell(4, 8, RED);
    b.set_cell(8, 7, BLUE);
    assert_eq!(e.get_red_score(&b), 3321);
    assert_eq!(e.get_red_score(&swapped(9)), e.total_score());
    assert_eq!(e.get_red_score(&Board::new(9)), 0);
}

#[test]
fn blue_score_counts_blue_pieces_ring_by_ring() {
    let e = NaiveBonusEvaluation::new((1, 10, 100, 1000));
    let mut b = blank(9);
    b.set_cell(0, 0, BLUE);
    assert_eq!(e.get_blue_score(&b), 1);
    b.set_cell(1, 1, BLUE);
    b.set_cell(0, 1, BLUE);
    b.set_cell(1, 0, BLUE);
    assert_eq!(e.get_blue_score(&b), 31);
    b.set_cell(2, 0, BLUE);
    b.set_cell(1, 2, BLUE);
    assert_eq!(e.get_blue_score(&b), 231);
    b.set_cell(3, 3, BLUE);
    b.set_cell(0, 3, BLUE);
    assert_eq!(e.get_blue_score(&b), 2231);
    b.set_cell(2, 2, RED);
    assert_eq!(e.get_blue_score(&b), 2231);
    assert_eq!(e.get_blue_score(&swapped(9)), e.total_score());
    assert_eq!(e.get_blue_score(&Board::new(9)), 0);
}

#[test]
fn corner_heuristic_is_own_score_less_the_other() {
    let e = NaiveBonusEvaluation::default();
    let mut b = blank(9);
    b.set_cell(8, 8, RED);
    b.set_cell(1, 1, BLUE);
    assert_eq!(e.evaluate(&b, RED), 15);
    assert_eq!(e.evaluate(&b, BLUE), -15);
    assert_eq!(e.evaluate(&Board::new(9), RED), 0);
    assert_eq!(e.evaluate(&swapped(9), RED), 0);
    b.set_cell(8, 8, EMPTY);
    assert_eq!(e.evaluate(&b, RED), -5);
    assert_eq!(e.evaluate(&b, BLUE), 5);
}
