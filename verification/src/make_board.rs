//! Starting positions.

use crate::board::{Board, Grid};
use crate::piece::{Color, PawnStatus, Piece, Square};
use crate::pos::Pos;
use vstd::prelude::*;

verus! {

/// A pawn of Black as it starts: it advances towards higher ranks.
pub open spec fn black_pawn() -> Square {
    Some((Color::Black, Piece::Pawn { orientation: Pos(0, 1), status: PawnStatus::CanLeap }))
}

/// A pawn of White as it starts: it advances towards lower ranks.
pub open spec fn white_pawn() -> Square {
    Some((Color::White, Piece::Pawn { orientation: Pos(0, -1i32), status: PawnStatus::CanLeap }))
}

/// The starting position on eight ranks for a back rank of the given pieces:
/// Black's pieces on rank 0 and its pawns on rank 1, White's pawns on rank
/// 6 and its pieces on rank 7, each piece on the same file for both sides.
pub open spec fn backrank_layout(pieces: Seq<Piece>) -> Grid {
    let n = pieces.len() as int;
    Grid {
        width: n,
        height: 8,
        squares: Seq::new(
            (8 * n) as nat,
            |i: int|
                if i < n {
                    Some((Color::Black, pieces[i]))
                } else if i < 2 * n {
                    black_pawn()
                } else if i < 6 * n {
                    None
                } else if i < 7 * n {
                    white_pawn()
                } else {
                    Some((Color::White, pieces[i - 7 * n]))
                },
        ),
    }
}

/// The back rank of the standard position.
pub open spec fn standard_backrank() -> Seq<Piece> {
    seq![
        Piece::Rook,
        Piece::Knight,
        Piece::Bishop,
        Piece::Queen,
        Piece::King,
        Piece::Bishop,
        Piece::Knight,
        Piece::Rook,
    ]
}

/// The back rank of the position on five files.
pub open spec fn halved_backrank() -> Seq<Piece> {
    seq![Piece::Rook, Piece::Knight, Piece::Bishop, Piece::King, Piece::Queen]
}

/// The starting position for a back rank of the given pieces.
pub fn from_backrank(pieces: Vec<Piece>) -> (board: Board)
    requires
        pieces.len() * 8 <= crate::board::MAX_SQUARES,
        forall|i: int| 0 <= i < pieces.len() ==> (#[trigger] pieces[i]).wf(),
    ensures
        board.wf(),
        board@ == backrank_layout(pieces@),
{
    let n: usize = pieces.len();
    let mut board = Board::new(n, 8);
    let len_squares: usize = board.squares.len();
    let mut i: usize = 0;
    while i < n
        invariant
            i <= n,
            n == pieces.len(),
            n * 8 <= crate::board::MAX_SQUARES,
            len_squares == 8 * n,
            board.width == n,
            board.height == 8,
            board.squares@.len() == len_squares,
            forall|j: int|
                0 <= j < len_squares ==> #[trigger] board.squares@[j] == if j < i {
                    Some((Color::Black, pieces[j]))
                } else if n <= j < n + i {
                    black_pawn()
                } else if 7 * n - i <= j < 7 * n {
                    white_pawn()
                } else if 8 * n - i <= j {
                    Some((Color::White, pieces[j - 7 * n]))
                } else {
                    None
                },
        decreases n - i,
    {
        board.squares.set(i, Some((Color::Black, pieces[i])));
        board.squares.set(
            n + i,
            Some(
                (Color::Black, Piece::Pawn { orientation: Pos(0, 1), status: PawnStatus::CanLeap }),
            ),
        );
        board.squares.set(len_squares - i - 1, Some((Color::White, pieces[n - i - 1])));
        board.squares.set(
            len_squares - n - i - 1,
            Some(
                (
                    Color::White,
                    Piece::Pawn { orientation: Pos(0, -1), status: PawnStatus::CanLeap },
                ),
            ),
        );
        i = i + 1;
    }
    assert(board@.squares =~= backrank_layout(pieces@).squares);
    board
}

/// The standard starting position on eight files.
pub fn standard_board() -> (board: Board)
    ensures
        board.wf(),
        board@ == backrank_layout(standard_backrank()),
{
    let pieces = vec![
        Piece::Rook,
        Piece::Knight,
        Piece::Bishop,
        Piece::Queen,
        Piece::King,
        Piece::Bishop,
        Piece::Knight,
        Piece::Rook,
    ];
    assert(pieces@ =~= standard_backrank());
    from_backrank(pieces)
}

/// The starting position on five files.
pub fn halved_board() -> (board: Board)
    ensures
        board.wf(),
        board@ == backrank_layout(halved_backrank()),
{
    let pieces = vec![Piece::Rook, Piece::Knight, Piece::Bishop, Piece::King, Piece::Queen];
    assert(pieces@ =~= halved_backrank());
    from_backrank(pieces)
}

} // verus!
