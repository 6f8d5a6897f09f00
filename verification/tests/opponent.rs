use choss::ai::{ranked_moves, INFINITE};
use choss::board::Board;
use choss::make_board::standard_board;
use choss::opponent::{search_depth, shortlist, should_undo};
use choss::piece::{Action, Color, Piece};
use choss::pos::Pos;

fn scored(score: i128, x: i32) -> (i128, Pos, Vec<Action>) {
    (score, Pos(x, 0), vec![Action::Go(Pos(x, 1))])
}

#[test]
fn the_search_goes_deeper_as_the_player_has_less_left() {
    assert_eq!(search_depth(0), 4);
    assert_eq!(search_depth(499), 4);
    assert_eq!(search_depth(500), 2);
    assert_eq!(search_depth(999), 2);
    assert_eq!(search_depth(1000), 1);
    assert_eq!(search_depth(4000), 1);
    assert_eq!(search_depth(-1), 4);
}

#[test]
fn shortlist_keeps_the_first_three_that_are_close_to_the_best() {
    let list = vec![scored(500, 0), scored(200, 1), scored(199, 2), scored(500, 3)];
    assert_eq!(shortlist(&list), vec![scored(500, 0), scored(200, 1)]);
    let list = vec![scored(10, 0), scored(10, 1), scored(8, 2), scored(7, 3)];
    assert_eq!(shortlist(&list), list[0..3].to_vec());
    let list = vec![scored(10, 0), scored(-291, 1)];
    assert_eq!(shortlist(&list), vec![scored(10, 0)]);
    let list = vec![scored(10, 0), scored(-290, 1)];
    assert_eq!(shortlist(&list), list);
    assert_eq!(shortlist(&vec![scored(-7, 5)]), vec![scored(-7, 5)]);
}

#[test]
fn shortlist_with_infinite_scores() {
    let list = vec![scored(INFINITE, 0), scored(INFINITE, 1), scored(INFINITE - 1, 2)];
    assert_eq!(shortlist(&list), list[0..2].to_vec());
    let list = vec![scored(-INFINITE, 0), scored(-INFINITE, 1), scored(i128::MIN, 2)];
    assert_eq!(shortlist(&list), list);
    let list = vec![scored(i128::MIN + 300, 0), scored(i128::MIN, 1)];
    assert_eq!(shortlist(&list), list);
    let list = vec![scored(i128::MIN + 301, 0), scored(i128::MIN, 1), scored(i128::MIN + 1, 2)];
    assert_eq!(shortlist(&list), vec![list[0].clone(), list[2].clone()]);
}

#[test]
fn only_the_second_opponent_undoes_and_only_a_bad_turn() {
    assert!(should_undo(1, 1, Some(300), 99));
    assert!(!should_undo(1, 1, Some(300), 100));
    assert!(!should_undo(1, 1, Some(500), 200));
    assert!(should_undo(1, 3, Some(500), 199));
    assert!(!should_undo(0, 1, Some(300), 0));
    assert!(!should_undo(2, 1, Some(300), 0));
    assert!(!should_undo(1, 0, Some(300), 0));
    assert!(!should_undo(1, 1, None, 0));
    assert!(should_undo(1, 1, Some(INFINITE), -INFINITE));
    assert!(!should_undo(1, 1, Some(-INFINITE), -INFINITE));
    assert!(!should_undo(1, 1, Some(i128::MIN), i128::MIN));
    assert!(should_undo(1, 1, Some(i128::MIN + 201), i128::MIN));
    assert!(!should_undo(1, 1, Some(i128::MIN + 200), i128::MIN));
}

#[test]
fn ranked_moves_searches_where_it_can() {
    let board = standard_board();
    let ranked = ranked_moves(&board, Color::White, 2).unwrap();
    assert_eq!(ranked, choss::ai::negamax(&board, Color::White, 2));
    assert!(ranked_moves(&board, Color::White, u32::MAX).is_none());
    assert!(ranked_moves(&board, Color::White, 0x8000_0000).is_none());
    assert!(ranked_moves(&board, Color::White, 0).is_some());

    let mut lone = Board::new(3, 3);
    lone.set(Pos(0, 0), Some((Color::White, Piece::King)));
    assert!(ranked_moves(&lone, Color::Black, 1).is_none());
    assert!(ranked_moves(&lone, Color::White, 1).is_none());
    lone.set(Pos(2, 2), Some((Color::Black, Piece::King)));
    assert_eq!(ranked_moves(&lone, Color::White, 1).unwrap().len(), 2);

    // White to move could take the king: the search refuses the position
    let mut hanging = Board::new(3, 3);
    hanging.set(Pos(0, 0), Some((Color::White, Piece::King)));
    hanging.set(Pos(0, 2), Some((Color::White, Piece::Rook)));
    hanging.set(Pos(2, 2), Some((Color::Black, Piece::King)));
    assert!(hanging.is_checked(Color::Black));
    assert!(ranked_moves(&hanging, Color::White, 1).is_none());
    assert!(ranked_moves(&hanging, Color::Black, 1).is_some());
}
