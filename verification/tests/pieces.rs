use choss::board::Board;
use choss::make_board::standard_board;
use choss::piece::{Action, Color, PawnStatus, Piece};
use choss::pos::Pos;

fn pawn(orientation: Pos, status: PawnStatus) -> Piece {
    Piece::Pawn { orientation, status }
}

fn go(target: Pos) -> Vec<Action> {
    vec![Action::Go(target)]
}

fn step(board: &Board, color: Color, from: Pos, to: Pos) -> Board {
    board.play(color, from, &go(to))
}

#[test]
fn color_next_alternates() {
    assert_eq!(Color::White.next(), Color::Black);
    assert_eq!(Color::Black.next(), Color::White);
    assert_eq!(Color::White.next().next(), Color::White);
}

#[test]
fn begin_turn_expires_a_leap() {
    let up = Pos(0, -1);
    assert_eq!(pawn(up, PawnStatus::JustLeaped).begin_turn(), pawn(up, PawnStatus::CannotLeap));
    assert_eq!(pawn(up, PawnStatus::CanLeap).begin_turn(), pawn(up, PawnStatus::CanLeap));
    assert_eq!(pawn(up, PawnStatus::CannotLeap).begin_turn(), pawn(up, PawnStatus::CannotLeap));
    assert_eq!(Piece::Queen.begin_turn(), Piece::Queen);
}

#[test]
fn moved_tells_a_leap_from_any_other_move() {
    let up = Pos(0, -1);
    let start = pawn(up, PawnStatus::CanLeap);
    assert_eq!(start.moved(Pos(3, 6), Pos(3, 4)), pawn(up, PawnStatus::JustLeaped));
    assert_eq!(start.moved(Pos(3, 6), Pos(3, 5)), pawn(up, PawnStatus::CannotLeap));
    assert_eq!(start.moved(Pos(3, 6), Pos(4, 5)), pawn(up, PawnStatus::CannotLeap));
    assert_eq!(start.moved(Pos(3, 6), Pos(3, 8)), pawn(up, PawnStatus::CannotLeap));
    let down = pawn(Pos(0, 1), PawnStatus::CannotLeap);
    assert_eq!(down.moved(Pos(3, 1), Pos(3, 3)), pawn(Pos(0, 1), PawnStatus::JustLeaped));
    assert_eq!(Piece::Rook.moved(Pos(0, 0), Pos(0, 2)), Piece::Rook);
    let far = pawn(up, PawnStatus::CanLeap);
    assert_eq!(
        far.moved(Pos(0, i32::MIN), Pos(0, i32::MAX - 1)),
        pawn(up, PawnStatus::CannotLeap)
    );
}

#[test]
fn knight_jumps_in_their_order() {
    let mut board = Board::new(5, 5);
    board.set(Pos(2, 2), Some((Color::White, Piece::Knight)));
    let moves = Piece::Knight.moves(&board, Pos(2, 2), Color::White);
    assert_eq!(
        moves,
        vec![
            go(Pos(0, 1)),
            go(Pos(1, 0)),
            go(Pos(0, 3)),
            go(Pos(3, 0)),
            go(Pos(4, 1)),
            go(Pos(1, 4)),
            go(Pos(4, 3)),
            go(Pos(3, 4)),
        ]
    );
    assert!(Piece::Knight.takes(&board, Pos(2, 2), Color::White).is_empty());
}

#[test]
fn knight_in_the_corner_with_friend_and_foe() {
    let mut board = Board::new(5, 5);
    board.set(Pos(0, 0), Some((Color::White, Piece::Knight)));
    board.set(Pos(2, 1), Some((Color::White, Piece::Rook)));
    board.set(Pos(1, 2), Some((Color::Black, Piece::Bishop)));
    assert_eq!(Piece::Knight.moves(&board, Pos(0, 0), Color::White), vec![go(Pos(1, 2))]);
    assert_eq!(Piece::Knight.takes(&board, Pos(0, 0), Color::White), vec![go(Pos(1, 2))]);
    assert_eq!(Piece::Knight.moves(&board, Pos(0, 0), Color::Black), vec![go(Pos(2, 1))]);
}

#[test]
fn rook_slides_until_blocked() {
    let mut board = Board::new(4, 4);
    board.set(Pos(1, 1), Some((Color::White, Piece::Rook)));
    board.set(Pos(1, 3), Some((Color::White, Piece::Knight)));
    board.set(Pos(3, 1), Some((Color::Black, Piece::Knight)));
    let moves = Piece::Rook.moves(&board, Pos(1, 1), Color::White);
    assert_eq!(
        moves,
        vec![go(Pos(1, 2)), go(Pos(1, 0)), go(Pos(2, 1)), go(Pos(3, 1)), go(Pos(0, 1))]
    );
    assert_eq!(Piece::Rook.takes(&board, Pos(1, 1), Color::White), vec![go(Pos(3, 1))]);
}

#[test]
fn bishop_and_queen_rays() {
    let mut board = Board::new(3, 3);
    board.set(Pos(1, 1), Some((Color::Black, Piece::Bishop)));
    board.set(Pos(0, 0), Some((Color::White, Piece::Pawn {
        orientation: Pos(0, -1),
        status: PawnStatus::CannotLeap,
    })));
    assert_eq!(
        Piece::Bishop.moves(&board, Pos(1, 1), Color::Black),
        vec![go(Pos(2, 2)), go(Pos(2, 0)), go(Pos(0, 2)), go(Pos(0, 0))]
    );
    assert_eq!(Piece::Bishop.takes(&board, Pos(1, 1), Color::Black), vec![go(Pos(0, 0))]);
    assert_eq!(
        Piece::Queen.moves(&board, Pos(1, 1), Color::Black),
        vec![
            go(Pos(1, 2)),
            go(Pos(1, 0)),
            go(Pos(2, 1)),
            go(Pos(0, 1)),
            go(Pos(2, 2)),
            go(Pos(2, 0)),
            go(Pos(0, 2)),
            go(Pos(0, 0)),
        ]
    );
}

#[test]
fn king_steps_once_in_each_direction() {
    let mut board = Board::new(3, 3);
    board.set(Pos(0, 1), Some((Color::White, Piece::King)));
    board.set(Pos(0, 2), Some((Color::White, Piece::Rook)));
    board.set(Pos(1, 0), Some((Color::Black, Piece::Rook)));
    let moves = Piece::King.moves(&board, Pos(0, 1), Color::White);
    assert_eq!(moves, vec![go(Pos(0, 0)), go(Pos(1, 1)), go(Pos(1, 2)), go(Pos(1, 0))]);
    assert_eq!(Piece::King.takes(&board, Pos(0, 1), Color::White), vec![go(Pos(1, 0))]);
}

#[test]
fn pawn_advances_and_leaps() {
    let up = Pos(0, -1);
    let mut board = Board::new(3, 6);
    board.set(Pos(1, 4), Some((Color::White, pawn(up, PawnStatus::CanLeap))));
    let fresh = pawn(up, PawnStatus::CanLeap);
    assert_eq!(fresh.moves(&board, Pos(1, 4), Color::White), vec![go(Pos(1, 3)), go(Pos(1, 2))]);
    let moved = pawn(up, PawnStatus::CannotLeap);
    assert_eq!(moved.moves(&board, Pos(1, 4), Color::White), vec![go(Pos(1, 3))]);
    board.set(Pos(1, 2), Some((Color::Black, Piece::Knight)));
    assert_eq!(fresh.moves(&board, Pos(1, 4), Color::White), vec![go(Pos(1, 3))]);
    board.set(Pos(1, 3), Some((Color::Black, Piece::Knight)));
    assert!(fresh.moves(&board, Pos(1, 4), Color::White).is_empty());
    assert!(fresh.takes(&board, Pos(1, 4), Color::White).is_empty());
}

#[test]
fn pawn_captures_on_both_diagonals() {
    let up = Pos(0, -1);
    let mut board = Board::new(3, 6);
    let piece = pawn(up, PawnStatus::CannotLeap);
    board.set(Pos(1, 4), Some((Color::White, piece)));
    board.set(Pos(0, 3), Some((Color::Black, Piece::Rook)));
    board.set(Pos(2, 3), Some((Color::Black, Piece::Bishop)));
    assert_eq!(piece.takes(&board, Pos(1, 4), Color::White), vec![go(Pos(2, 3)), go(Pos(0, 3))]);
    assert_eq!(
        piece.moves(&board, Pos(1, 4), Color::White),
        vec![go(Pos(1, 3)), go(Pos(2, 3)), go(Pos(0, 3))]
    );
    board.set(Pos(2, 3), Some((Color::White, Piece::Bishop)));
    assert_eq!(piece.takes(&board, Pos(1, 4), Color::White), vec![go(Pos(0, 3))]);
}

#[test]
fn pawn_reaching_the_last_rank_promotes_to_queen_or_knight_only() {
    let up = Pos(0, -1);
    let mut board = Board::new(3, 4);
    let piece = pawn(up, PawnStatus::CannotLeap);
    board.set(Pos(1, 1), Some((Color::White, piece)));
    board.set(Pos(0, 0), Some((Color::Black, Piece::Rook)));
    let moves = piece.moves(&board, Pos(1, 1), Color::White);
    assert_eq!(
        moves,
        vec![
            vec![Action::Go(Pos(1, 0)), Action::Promotion(Piece::Queen)],
            vec![Action::Go(Pos(1, 0)), Action::Promotion(Piece::Knight)],
            vec![Action::Go(Pos(0, 0)), Action::Promotion(Piece::Queen)],
            vec![Action::Go(Pos(0, 0)), Action::Promotion(Piece::Knight)],
        ]
    );
    let takes = piece.takes(&board, Pos(1, 1), Color::White);
    assert_eq!(takes, moves[2..].to_vec());
    for actions in &moves {
        for action in actions {
            assert_ne!(*action, Action::Promotion(Piece::Rook));
            assert_ne!(*action, Action::Promotion(Piece::Bishop));
        }
    }
    let promoted = board.play(Color::White, Pos(1, 1), &moves[3]);
    assert_eq!(promoted.get(Pos(0, 0)), Some(&Some((Color::White, Piece::Knight))));
    assert_eq!(promoted.get(Pos(1, 1)), Some(&None));
    let queened = board.play(Color::White, Pos(1, 1), &moves[0]);
    assert_eq!(queened.get(Pos(1, 0)), Some(&Some((Color::White, Piece::Queen))));
    assert_eq!(queened.get(Pos(0, 0)), Some(&Some((Color::Black, Piece::Rook))));
}

#[test]
fn pawn_one_rank_short_of_the_last_does_not_promote() {
    let down = Pos(0, 1);
    let mut board = Board::new(3, 4);
    let piece = pawn(down, PawnStatus::CanLeap);
    board.set(Pos(1, 1), Some((Color::Black, piece)));
    assert_eq!(
        piece.moves(&board, Pos(1, 1), Color::Black),
        vec![
            go(Pos(1, 2)),
            vec![Action::Go(Pos(1, 3)), Action::Promotion(Piece::Queen)],
            vec![Action::Go(Pos(1, 3)), Action::Promotion(Piece::Knight)],
        ]
    );
}

#[test]
fn en_passant_is_offered_for_one_ply_only() {
    let board = standard_board();
    let board = step(&board, Color::White, Pos(4, 6), Pos(4, 4));
    let board = step(&board, Color::Black, Pos(0, 1), Pos(0, 2));
    let board = step(&board, Color::White, Pos(4, 4), Pos(4, 3));
    let board = step(&board, Color::Black, Pos(3, 1), Pos(3, 3));
    assert_eq!(
        board.get(Pos(3, 3)),
        Some(&Some((Color::Black, pawn(Pos(0, 1), PawnStatus::JustLeaped))))
    );
    let capture = vec![Action::Go(Pos(3, 2)), Action::Take(Pos(3, 3))];
    let white_pawn = pawn(Pos(0, -1), PawnStatus::CannotLeap);
    assert_eq!(board.get(Pos(4, 3)), Some(&Some((Color::White, white_pawn))));
    assert_eq!(white_pawn.takes(&board, Pos(4, 3), Color::White), vec![capture.clone()]);
    assert!(white_pawn.moves(&board, Pos(4, 3), Color::White).contains(&capture));
    assert!(board.moves(Color::White, true).contains(&(Pos(4, 3), capture.clone())));
    assert!(board.takes(Color::White, false).contains(&(Pos(4, 3), capture.clone())));

    let taken = board.play(Color::White, Pos(4, 3), &capture);
    assert_eq!(taken.get(Pos(3, 2)), Some(&Some((Color::White, white_pawn))));
    assert_eq!(taken.get(Pos(3, 3)), Some(&None));
    assert_eq!(taken.get(Pos(4, 3)), Some(&None));

    let later = step(&board, Color::White, Pos(7, 6), Pos(7, 5));
    assert!(later.takes(Color::White, false).contains(&(Pos(4, 3), capture.clone())));
    let later = step(&later, Color::Black, Pos(0, 2), Pos(0, 3));
    assert_eq!(
        later.get(Pos(3, 3)),
        Some(&Some((Color::Black, pawn(Pos(0, 1), PawnStatus::CannotLeap))))
    );
    assert!(white_pawn.takes(&later, Pos(4, 3), Color::White).is_empty());
    assert!(!later.moves(Color::White, true).contains(&(Pos(4, 3), capture)));
}

#[test]
fn en_passant_needs_a_pawn_that_has_just_leaped() {
    let up = Pos(0, -1);
    let down = Pos(0, 1);
    let mut board = Board::new(3, 5);
    let piece = pawn(up, PawnStatus::CannotLeap);
    board.set(Pos(1, 2), Some((Color::White, piece)));
    board.set(Pos(0, 2), Some((Color::Black, pawn(down, PawnStatus::CannotLeap))));
    board.set(Pos(2, 2), Some((Color::Black, Piece::Rook)));
    assert!(piece.takes(&board, Pos(1, 2), Color::White).is_empty());
    board.set(Pos(0, 2), Some((Color::White, pawn(up, PawnStatus::JustLeaped))));
    assert!(piece.takes(&board, Pos(1, 2), Color::White).is_empty());
    board.set(Pos(0, 2), Some((Color::Black, pawn(down, PawnStatus::JustLeaped))));
    assert_eq!(
        piece.takes(&board, Pos(1, 2), Color::White),
        vec![vec![Action::Go(Pos(0, 1)), Action::Take(Pos(0, 2))]]
    );
}
