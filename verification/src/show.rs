//! Pieces and boards as text.

use crate::board::{Board, Grid};
use crate::piece::{Color, Piece, Square};
use vstd::prelude::*;
use vstd::string::*;

verus! {

/// The name of a kind of piece, in lower case.
pub open spec fn piece_name(piece: Piece) -> Seq<char> {
    match piece {
        Piece::Pawn { .. } => "pawn"@,
        Piece::Knight => "knight"@,
        Piece::Bishop => "bishop"@,
        Piece::Rook => "rook"@,
        Piece::Queen => "queen"@,
        Piece::King => "king"@,
    }
}

/// The letter of a side.
pub open spec fn side_letter(color: Color) -> Seq<char> {
    match color {
        Color::White => "w"@,
        Color::Black => "b"@,
    }
}

/// The chess symbol of a piece: the outlined figures for Black, the solid
/// ones for White.
pub open spec fn symbol(color: Color, piece: Piece) -> Seq<char> {
    match color {
        Color::Black => match piece {
            Piece::Pawn { .. } => "\u{2659}"@,
            Piece::Knight => "\u{2658}"@,
            Piece::Bishop => "\u{2657}"@,
            Piece::Rook => "\u{2656}"@,
            Piece::Queen => "\u{2655}"@,
            Piece::King => "\u{2654}"@,
        },
        Color::White => match piece {
            Piece::Pawn { .. } => "\u{265f}\u{fe0e}"@,
            Piece::Knight => "\u{265e}"@,
            Piece::Bishop => "\u{265d}"@,
            Piece::Rook => "\u{265c}"@,
            Piece::Queen => "\u{265b}"@,
            Piece::King => "\u{265a}"@,
        },
    }
}

/// A square as text: the symbol of its piece, or a dot, and a space.
pub open spec fn square_text(square: Square) -> Seq<char> {
    match square {
        Some((color, piece)) => symbol(color, piece) + " "@,
        None => "\u{b7} "@,
    }
}

/// What separates the square with index `i` from the one before it: a line
/// break where a new rank begins, else nothing.
pub open spec fn rank_break(g: Grid, i: int) -> Seq<char> {
    if i % g.width == 0 && i != 0 {
        "\n"@
    } else {
        Seq::empty()
    }
}

/// The first `n` squares of the grid as text, one rank to a line.
pub open spec fn grid_text(g: Grid, n: int) -> Seq<char>
    decreases n,
{
    if n <= 0 {
        Seq::empty()
    } else {
        grid_text(g, n - 1) + rank_break(g, n - 1) + square_text(g.squares[n - 1])
    }
}

impl Piece {
    /// The name of the kind of piece, in lower case.
    pub fn name(&self) -> (name: &'static str)
        ensures
            name@ == piece_name(*self),
    {
        match self {
            Piece::Pawn { orientation: _, status: _ } => "pawn",
            Piece::Knight => "knight",
            Piece::Bishop => "bishop",
            Piece::Rook => "rook",
            Piece::Queen => "queen",
            Piece::King => "king",
        }
    }

    /// The name of the kind of piece as a string.
    pub fn to_text(&self) -> (text: String)
        ensures
            text@ == piece_name(*self),
    {
        let mut text = String::new();
        text.append(self.name());
        assert(text@ =~= piece_name(*self));
        text
    }
}

/// The name under which the picture of a piece is kept: the name of its
/// kind, an underscore, and the letter of its side.
pub fn piece_tex_name(piece: &Piece, color: &Color) -> (name: String)
    ensures
        name@ == piece_name(*piece) + "_"@ + side_letter(*color),
{
    let mut name = String::new();
    name.append(piece.name());
    name.append("_");
    name.append(
        match color {
            Color::White => "w",
            Color::Black => "b",
        },
    );
    assert(name@ =~= piece_name(*piece) + "_"@ + side_letter(*color));
    name
}

/// The chess symbol of a piece.
fn symbol_of(color: Color, piece: Piece) -> (text: &'static str)
    ensures
        text@ == symbol(color, piece),
{
    match color {
        Color::Black => match piece {
            Piece::Pawn { orientation: _, status: _ } => "\u{2659}",
            Piece::Knight => "\u{2658}",
            Piece::Bishop => "\u{2657}",
            Piece::Rook => "\u{2656}",
            Piece::Queen => "\u{2655}",
            Piece::King => "\u{2654}",
        },
        Color::White => match piece {
            Piece::Pawn { orientation: _, status: _ } => "\u{265f}\u{fe0e}",
            Piece::Knight => "\u{265e}",
            Piece::Bishop => "\u{265d}",
            Piece::Rook => "\u{265c}",
            Piece::Queen => "\u{265b}",
            Piece::King => "\u{265a}",
        },
    }
}

impl Board {
    /// The board as text: one rank to a line, rank 0 first; for each square
    /// the symbol of its piece, or a dot, and a space.
    pub fn to_text(&self) -> (text: String)
        requires
            self.wf(),
        ensures
            text@ == grid_text(self@, self.squares.len() as int),
    {
        let mut text = String::new();
        let mut i: usize = 0;
        while i < self.squares.len()
            invariant
                i <= self.squares.len(),
                self.wf(),
                text@ == grid_text(self@, i as int),
            decreases self.squares.len() - i,
        {
            let ghost so_far = text@;
            proof {
                if self.width == 0 {
                    assert(self.width * self.height == 0) by (nonlinear_arith)
                        requires
                            self.width == 0,
                    ;
                }
            }
            if i % self.width == 0 && i != 0 {
                text.append("\n");
            }
            if let Some((color, piece)) = self.squares[i] {
                text.append(symbol_of(color, piece));
                text.append(" ");
            } else {
                text.append("\u{b7} ");
            }
            assert(text@ =~= so_far + rank_break(self@, i as int) + square_text(
                self@.squares[i as int],
            ));
            i = i + 1;
        }
        text
    }
}

} // verus!
