use choss::board::Board;
use choss::make_board::{halved_board, standard_board};
use choss::pgn::{move2pgn, piece2pgn, pos2pgn};
use choss::piece::{Action, Color, PawnStatus, Piece};
use choss::pos::Pos;
use choss::show::piece_tex_name;

fn pawn() -> Piece {
    Piece::Pawn { orientation: Pos(0, -1), status: PawnStatus::CanLeap }
}

#[test]
fn a_plain_step_is_written_as_origin_and_target() {
    let text = move2pgn(Pos(4, 6), &vec![Action::Go(Pos(4, 5))]);
    assert_eq!(text, "e6e5");
    assert_eq!(text, format!("{}{}", pos2pgn(Pos(4, 6)), pos2pgn(Pos(4, 5))));
    assert!(!text.contains('='));
    for x in 0..8 {
        for y in 0..8 {
            let origin = Pos(x, y);
            let target = Pos(7 - x, (y + 1) % 8);
            let text = move2pgn(origin, &vec![Action::Go(target)]);
            assert_eq!(text, pos2pgn(origin) + &pos2pgn(target));
            assert!(!text.contains('='));
        }
    }
}

#[test]
fn coordinates_are_a_file_letter_and_the_raw_rank() {
    assert_eq!(pos2pgn(Pos(0, 0)), "a0");
    assert_eq!(pos2pgn(Pos(7, 7)), "h7");
    assert_eq!(pos2pgn(Pos(2, 10)), "c10");
    assert_eq!(pos2pgn(Pos(3, 1234567)), "d1234567");
    assert_eq!(pos2pgn(Pos(5, -3)), "f-3");
    assert_eq!(pos2pgn(Pos(6, i32::MAX)), "g2147483647");
    assert_eq!(pos2pgn(Pos(1, i32::MIN)), "b-2147483648");
}

#[test]
fn piece_letters() {
    assert_eq!(piece2pgn(pawn()), "p");
    assert_eq!(piece2pgn(Piece::Knight), "N");
    assert_eq!(piece2pgn(Piece::Bishop), "B");
    assert_eq!(piece2pgn(Piece::Rook), "R");
    assert_eq!(piece2pgn(Piece::Queen), "Q");
    assert_eq!(piece2pgn(Piece::King), "K");
}

#[test]
fn promotions_and_captures_in_text() {
    assert_eq!(
        move2pgn(Pos(1, 1), &vec![Action::Go(Pos(1, 0)), Action::Promotion(Piece::Queen)]),
        "b1b0=Q"
    );
    assert_eq!(
        move2pgn(Pos(1, 1), &vec![Action::Go(Pos(0, 0)), Action::Promotion(Piece::Knight)]),
        "b1a0=N"
    );
    assert_eq!(
        move2pgn(Pos(4, 3), &vec![Action::Go(Pos(3, 2)), Action::Take(Pos(3, 3))]),
        "e3d2"
    );
    assert_eq!(move2pgn(Pos(4, 3), &vec![]), "");
    assert_eq!(move2pgn(Pos(40, 3), &vec![Action::Take(Pos(-3, 3))]), "");
    assert_eq!(
        move2pgn(Pos(0, 0), &vec![Action::Go(Pos(0, 1)), Action::Go(Pos(0, 2))]),
        "a0a1a0a2"
    );
    assert_eq!(move2pgn(Pos(9, 9), &vec![Action::Promotion(pawn())]), "=p");
}

#[test]
fn piece_names() {
    assert_eq!(pawn().name(), "pawn");
    assert_eq!(Piece::Knight.name(), "knight");
    assert_eq!(Piece::Bishop.to_text(), "bishop");
    assert_eq!(Piece::Rook.to_text(), "rook");
    assert_eq!(Piece::Queen.to_text(), "queen");
    assert_eq!(Piece::King.to_text(), "king");
    assert_eq!(piece_tex_name(&pawn(), &Color::White), "pawn_w");
    assert_eq!(piece_tex_name(&Piece::Queen, &Color::Black), "queen_b");
}

#[test]
fn board_as_text() {
    let text = standard_board().to_text();
    let lines: Vec<&str> = text.split('\n').collect();
    assert_eq!(lines.len(), 8);
    assert_eq!(lines[0], "♖ ♘ ♗ ♕ ♔ ♗ ♘ ♖ ");
    assert_eq!(lines[1], "♙ ♙ ♙ ♙ ♙ ♙ ♙ ♙ ");
    assert_eq!(lines[2], "· · · · · · · · ");
    assert_eq!(lines[5], "· · · · · · · · ");
    assert_eq!(lines[6], "\u{265f}\u{fe0e} ".repeat(8));
    assert_eq!(lines[7], "♜ ♞ ♝ ♛ ♚ ♝ ♞ ♜ ");
    assert_eq!(halved_board().to_text().split('\n').next(), Some("♖ ♘ ♗ ♔ ♕ "));
    assert_eq!(Board::new(2, 2).to_text(), "· · \n· · ");
    assert_eq!(Board::new(0, 0).to_text(), "");
}
