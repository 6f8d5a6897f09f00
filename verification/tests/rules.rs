use choss::board::Board;
use choss::make_board::{from_backrank, halved_board, standard_board};
use choss::piece::{Action, Color, PawnStatus, Piece};
use choss::pos::Pos;

fn white_pawn(status: PawnStatus) -> Piece {
    Piece::Pawn { orientation: Pos(0, -1), status }
}

fn black_pawn(status: PawnStatus) -> Piece {
    Piece::Pawn { orientation: Pos(0, 1), status }
}

#[test]
fn standard_layout_has_twenty_legal_moves() {
    let board = standard_board();
    let white = board.moves(Color::White, true);
    assert_eq!(white.len(), 20);
    let pawn_moves = white
        .iter()
        .filter(|(pos, _)| matches!(board.get(*pos), Some(Some((_, Piece::Pawn { .. })))))
        .count();
    let knight_moves = white
        .iter()
        .filter(|(pos, _)| matches!(board.get(*pos), Some(Some((_, Piece::Knight)))))
        .count();
    assert_eq!(pawn_moves, 16);
    assert_eq!(knight_moves, 4);
    assert_eq!(board.moves(Color::Black, true).len(), 20);
    assert_eq!(board.takes(Color::White, true).len(), 0);
}

#[test]
fn standard_layout_squares() {
    let board = standard_board();
    assert_eq!(board.width, 8);
    assert_eq!(board.height, 8);
    assert_eq!(board.squares.len(), 64);
    assert_eq!(board.get(Pos(0, 0)), Some(&Some((Color::Black, Piece::Rook))));
    assert_eq!(board.get(Pos(3, 0)), Some(&Some((Color::Black, Piece::Queen))));
    assert_eq!(board.get(Pos(4, 0)), Some(&Some((Color::Black, Piece::King))));
    assert_eq!(board.get(Pos(4, 7)), Some(&Some((Color::White, Piece::King))));
    assert_eq!(board.get(Pos(3, 7)), Some(&Some((Color::White, Piece::Queen))));
    assert_eq!(board.get(Pos(2, 1)), Some(&Some((Color::Black, black_pawn(PawnStatus::CanLeap)))));
    assert_eq!(board.get(Pos(2, 6)), Some(&Some((Color::White, white_pawn(PawnStatus::CanLeap)))));
    assert_eq!(board.get(Pos(2, 3)), Some(&None));
    assert_eq!(board.get(Pos(8, 0)), None);
    assert_eq!(board.get(Pos(0, -1)), None);
}

#[test]
fn halved_layout_squares() {
    let board = halved_board();
    assert_eq!(board.width, 5);
    assert_eq!(board.height, 8);
    assert_eq!(board.get(Pos(3, 0)), Some(&Some((Color::Black, Piece::King))));
    assert_eq!(board.get(Pos(4, 7)), Some(&Some((Color::White, Piece::Queen))));
    assert_eq!(board.get(Pos(0, 6)), Some(&Some((Color::White, white_pawn(PawnStatus::CanLeap)))));
    assert_eq!(board.get(Pos(5, 0)), None);
}

#[test]
fn play_does_not_touch_the_board_it_starts_from() {
    let board = standard_board();
    let after = board.play(Color::White, Pos(4, 6), &vec![Action::Go(Pos(4, 4))]);
    assert_eq!(board.get(Pos(4, 6)), Some(&Some((Color::White, white_pawn(PawnStatus::CanLeap)))));
    assert_eq!(after.get(Pos(4, 6)), Some(&None));
    assert_eq!(
        after.get(Pos(4, 4)),
        Some(&Some((Color::White, white_pawn(PawnStatus::JustLeaped))))
    );
    let _ = Board::new(3, 3);
}

#[test]
fn begin_turn_only_touches_the_side_that_moves() {
    let mut board = Board::new(2, 2);
    board.set(Pos(0, 0), Some((Color::White, white_pawn(PawnStatus::JustLeaped))));
    board.set(Pos(1, 0), Some((Color::Black, black_pawn(PawnStatus::JustLeaped))));
    board.set(Pos(0, 1), Some((Color::White, white_pawn(PawnStatus::CanLeap))));
    board.begin_turn(Color::White);
    assert_eq!(board.get(Pos(0, 0)), Some(&Some((Color::White, white_pawn(PawnStatus::CannotLeap)))));
    assert_eq!(board.get(Pos(1, 0)), Some(&Some((Color::Black, black_pawn(PawnStatus::JustLeaped)))));
    assert_eq!(board.get(Pos(0, 1)), Some(&Some((Color::White, white_pawn(PawnStatus::CanLeap)))));
    assert_eq!(board.get(Pos(1, 1)), Some(&None));
}

#[test]
fn moved_records_a_leap_on_the_board() {
    let mut board = Board::new(1, 4);
    board.set(Pos(0, 1), Some((Color::White, white_pawn(PawnStatus::CanLeap))));
    board.moved(Pos(0, 3), Pos(0, 1));
    assert_eq!(board.get(Pos(0, 1)), Some(&Some((Color::White, white_pawn(PawnStatus::JustLeaped)))));
    board.moved(Pos(0, 2), Pos(0, 1));
    assert_eq!(board.get(Pos(0, 1)), Some(&Some((Color::White, white_pawn(PawnStatus::CannotLeap)))));
}

#[test]
fn play_applies_the_actions_in_order() {
    let mut board = Board::new(3, 3);
    board.set(Pos(0, 0), Some((Color::White, Piece::Rook)));
    board.set(Pos(2, 2), Some((Color::Black, Piece::Knight)));
    board.set(Pos(1, 1), Some((Color::Black, black_pawn(PawnStatus::JustLeaped))));
    let after = board.play(
        Color::White,
        Pos(0, 0),
        &vec![
            Action::Go(Pos(0, 2)),
            Action::Take(Pos(2, 2)),
            Action::Go(Pos(1, 2)),
            Action::Promotion(Piece::Queen),
        ],
    );
    assert_eq!(after.get(Pos(0, 0)), Some(&None));
    assert_eq!(after.get(Pos(0, 2)), Some(&None));
    assert_eq!(after.get(Pos(2, 2)), Some(&None));
    assert_eq!(after.get(Pos(1, 2)), Some(&Some((Color::White, Piece::Queen))));
    assert_eq!(after.get(Pos(1, 1)), Some(&Some((Color::Black, black_pawn(PawnStatus::JustLeaped)))));
    let same = board.play(Color::White, Pos(0, 0), &vec![]);
    assert_eq!(same.squares, board.squares);
}

#[test]
fn king_pos_finds_the_king() {
    let board = standard_board();
    assert_eq!(board.king_pos(Color::White), Some(Pos(4, 7)));
    assert_eq!(board.king_pos(Color::Black), Some(Pos(4, 0)));
    assert_eq!(halved_board().king_pos(Color::White), Some(Pos(3, 7)));
    assert_eq!(Board::new(2, 2).king_pos(Color::White), None);
}

#[test]
fn a_pinned_rook_may_only_move_along_the_pin() {
    let mut board = Board::new(4, 4);
    board.set(Pos(0, 3), Some((Color::White, Piece::King)));
    board.set(Pos(0, 2), Some((Color::White, Piece::Rook)));
    board.set(Pos(0, 0), Some((Color::Black, Piece::Rook)));
    assert!(!board.is_checked(Color::White));
    let all = Piece::Rook.moves(&board, Pos(0, 2), Color::White);
    assert_eq!(all.len(), 5);
    let safe = board.filter_safe_moves(Color::White, Pos(0, 2), all);
    assert_eq!(safe, vec![vec![Action::Go(Pos(0, 1))], vec![Action::Go(Pos(0, 0))]]);
    assert_eq!(
        board.moves(Color::White, true),
        vec![
            (Pos(0, 2), vec![Action::Go(Pos(0, 1))]),
            (Pos(0, 2), vec![Action::Go(Pos(0, 0))]),
            (Pos(0, 3), vec![Action::Go(Pos(1, 3))]),
            (Pos(0, 3), vec![Action::Go(Pos(1, 2))]),
        ]
    );
    assert_eq!(board.moves(Color::White, false).len(), 7);
    assert_eq!(board.takes(Color::White, true), vec![(Pos(0, 2), vec![Action::Go(Pos(0, 0))])]);
}

#[test]
fn check_is_seen_and_must_be_answered() {
    let mut board = Board::new(4, 4);
    board.set(Pos(0, 3), Some((Color::White, Piece::King)));
    board.set(Pos(3, 2), Some((Color::White, Piece::Rook)));
    board.set(Pos(0, 0), Some((Color::Black, Piece::Rook)));
    board.set(Pos(2, 0), Some((Color::Black, Piece::King)));
    assert!(board.is_checked(Color::White));
    assert!(!board.is_checked(Color::Black));
    assert_eq!(
        board.moves(Color::White, true),
        vec![
            (Pos(3, 2), vec![Action::Go(Pos(0, 2))]),
            (Pos(0, 3), vec![Action::Go(Pos(1, 3))]),
            (Pos(0, 3), vec![Action::Go(Pos(1, 2))]),
        ]
    );
}

#[test]
fn halved_layout_has_twelve_legal_moves() {
    let board = halved_board();
    assert_eq!(board.moves(Color::White, true).len(), 12);
    assert_eq!(board.moves(Color::Black, true).len(), 12);
}

#[test]
fn a_back_rank_is_mirrored_from_top_to_bottom() {
    let board = from_backrank(vec![Piece::King, Piece::Rook, Piece::Knight]);
    assert_eq!(board.width, 3);
    assert_eq!(board.height, 8);
    assert_eq!(board.squares.len(), 24);
    for (x, piece) in [Piece::King, Piece::Rook, Piece::Knight].into_iter().enumerate() {
        let x = x as i32;
        assert_eq!(board.get(Pos(x, 0)), Some(&Some((Color::Black, piece))));
        assert_eq!(board.get(Pos(x, 7)), Some(&Some((Color::White, piece))));
        assert_eq!(board.get(Pos(x, 1)), Some(&Some((Color::Black, black_pawn(PawnStatus::CanLeap)))));
        assert_eq!(board.get(Pos(x, 6)), Some(&Some((Color::White, white_pawn(PawnStatus::CanLeap)))));
        for y in 2..6 {
            assert_eq!(board.get(Pos(x, y)), Some(&None));
        }
    }
    let none = from_backrank(vec![]);
    assert_eq!((none.width, none.height, none.squares.len()), (0, 8, 0));
}
