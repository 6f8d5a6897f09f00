use choss::choss::ChossGame;
use choss::piece::{Action, Color, PawnStatus, Piece};
use choss::pos::Pos;

fn go(target: Pos) -> Vec<Action> {
    vec![Action::Go(target)]
}

#[test]
fn a_new_game_starts_with_white() {
    let game = ChossGame::new(Color::White);
    assert_eq!(game.player, Color::White);
    assert_eq!(game.turn, 0);
    assert_eq!(game.turn_color(), Color::White);
    assert_eq!(game.board.squares.len(), 64);
    assert_eq!(game.board.moves(Color::White, true).len(), 20);
}

#[test]
fn the_turn_passes_with_every_move() {
    let mut game = ChossGame::new(Color::White);
    game.play(Pos(4, 6), &go(Pos(4, 4)));
    assert_eq!(game.turn, 1);
    assert_eq!(game.turn_color(), Color::Black);
    assert_eq!(game.player, Color::White);
    assert_eq!(
        game.board.get(Pos(4, 4)),
        Some(&Some((
            Color::White,
            Piece::Pawn { orientation: Pos(0, -1), status: PawnStatus::JustLeaped }
        )))
    );
    game.play(Pos(4, 1), &go(Pos(4, 3)));
    assert_eq!(game.turn, 2);
    assert_eq!(game.turn_color(), Color::White);
}

#[test]
fn only_the_player_s_pieces_are_playable_and_only_on_the_player_s_turn() {
    let mut game = ChossGame::new(Color::White);
    assert_eq!(game.playable_moves(Pos(4, 6)), Some(vec![go(Pos(4, 5)), go(Pos(4, 4))]));
    assert_eq!(game.playable_moves(Pos(1, 7)), Some(vec![go(Pos(0, 5)), go(Pos(2, 5))]));
    assert_eq!(game.playable_moves(Pos(0, 7)), Some(vec![]));
    assert_eq!(game.playable_moves(Pos(4, 1)), None);
    assert_eq!(game.playable_moves(Pos(4, 4)), None);
    assert_eq!(game.playable_moves(Pos(-1, 4)), None);
    game.play(Pos(4, 6), &go(Pos(4, 4)));
    assert_eq!(game.playable_moves(Pos(3, 6)), None);
    assert_eq!(game.playable_moves(Pos(4, 1)), None);
    let black = ChossGame::new(Color::Black);
    assert_eq!(black.playable_moves(Pos(4, 1)), None);
    assert_eq!(black.playable_moves(Pos(4, 6)), None);
}

#[test]
fn playable_move_finds_the_move_to_a_square() {
    let game = ChossGame::new(Color::White);
    assert_eq!(game.playable_move(Pos(4, 6), Pos(4, 4)), Some(go(Pos(4, 4))));
    assert_eq!(game.playable_move(Pos(4, 6), Pos(4, 5)), Some(go(Pos(4, 5))));
    assert_eq!(game.playable_move(Pos(4, 6), Pos(4, 3)), None);
    assert_eq!(game.playable_move(Pos(4, 1), Pos(4, 2)), None);
    assert_eq!(game.playable_move(Pos(6, 7), Pos(7, 5)), Some(go(Pos(7, 5))));
}

#[test]
fn playable_move_prefers_the_first_promotion() {
    let mut game = ChossGame::new(Color::White);
    for square in game.board.squares.iter_mut() {
        *square = None;
    }
    game.board.set(Pos(0, 7), Some((Color::White, Piece::King)));
    game.board.set(
        Pos(5, 1),
        Some((Color::White, Piece::Pawn { orientation: Pos(0, -1), status: PawnStatus::CannotLeap })),
    );
    assert_eq!(
        game.playable_move(Pos(5, 1), Pos(5, 0)),
        Some(vec![Action::Go(Pos(5, 0)), Action::Promotion(Piece::Queen)])
    );
}

#[test]
fn remaining_value_leaves_the_king_out() {
    let mut game = ChossGame::new(Color::White);
    assert_eq!(game.remaining_value(), 8 * 100 + 2 * 300 + 2 * 350 + 2 * 500 + 900);
    game.board.set(Pos(3, 7), None);
    assert_eq!(game.remaining_value(), 3100);
    game.board.set(Pos(4, 7), None);
    assert_eq!(game.remaining_value(), 3100);
    game.board.set(Pos(0, 0), None);
    assert_eq!(game.remaining_value(), 3100);
    assert_eq!(ChossGame::new(Color::Black).remaining_value(), 4000);
}
