//! A game in progress: the board, the side the player has, and whose turn it
//! is.

use crate::ai::{piece_value, value_of};
use crate::board::{lemma_index_bijection, lemma_own_king_stays, square_wf, Board};
use crate::make_board::{backrank_layout, standard_backrank, standard_board};
use crate::piece::{
    copy_actions, lemma_shaped_accepted, moves_view, shaped, Action, Color, Piece, Square,
};
use crate::pos::Pos;
use vstd::prelude::*;

verus! {

/// A game between the player and an opponent. White moves first, and the
/// sides alternate.
#[derive(Clone)]
pub struct ChossGame {
    pub board: Board,
    pub player: Color,
    pub turn: u32,
}

/// The side that moves on the given turn: White on even turns, Black on odd
/// ones.
pub open spec fn side_on(turn: nat) -> Color {
    if turn % 2 == 0 {
        Color::White
    } else {
        Color::Black
    }
}

/// The first move of the list that goes to `to`, if there is one.
pub open spec fn first_to(moves: Seq<Seq<Action>>, to: Pos) -> Option<Seq<Action>>
    decreases moves.len(),
{
    if moves.len() == 0 {
        None
    } else if goes_to(moves.first(), to) {
        Some(moves.first())
    } else {
        first_to(moves.drop_first(), to)
    }
}

/// The move has an action that takes the moving piece to `to`.
pub open spec fn goes_to(actions: Seq<Action>, to: Pos) -> bool {
    exists|k: int| 0 <= k < actions.len() && #[trigger] actions[k] == Action::Go(to)
}

/// What a square adds to the value that `player` has left: the value of a
/// piece of `player` on it, unless it is the king.
pub open spec fn remaining_on(square: Square, player: Color) -> int {
    match square {
        Some((owner, piece)) => if owner == player && piece != Piece::King {
            value_of(piece)
        } else {
            0
        },
        None => 0,
    }
}

/// The value of the pieces of `player` on the squares, the king left out.
pub open spec fn remaining(squares: Seq<Square>, player: Color) -> int
    decreases squares.len(),
{
    if squares.len() == 0 {
        0
    } else {
        remaining(squares.drop_last(), player) + remaining_on(squares.last(), player)
    }
}

impl ChossGame {
    /// The side to move.
    pub open spec fn to_move(&self) -> Color {
        side_on(self.turn as nat)
    }

    /// The player may move the piece at `from` now: it is a piece of the
    /// player, and it is the player's turn.
    pub open spec fn may_move(&self, from: Pos) -> bool {
        self.board@.is_own(from, self.player) && self.player == self.to_move()
    }

    /// The legal moves of the piece at `from`.
    pub open spec fn legal_from(&self, from: Pos) -> Seq<Seq<Action>> {
        self.board@.safe_only(
            self.to_move(),
            from,
            self.board@.at(from).unwrap().unwrap().1.moves_of(self.board@, from, self.to_move()),
        )
    }

    /// A game at the standard starting position.
    pub fn new(player: Color) -> (game: ChossGame)
        ensures
            game.board.wf(),
            game.board@ == backrank_layout(standard_backrank()),
            game.player == player,
            game.turn == 0,
    {
        ChossGame { board: standard_board(), player: player, turn: 0 }
    }

    /// The side to move.
    pub fn turn_color(&self) -> (color: Color)
        ensures
            color == self.to_move(),
    {
        if self.turn % 2 == 0 {
            Color::White
        } else {
            Color::Black
        }
    }

    /// The legal moves of `piece`, which stands at `from` and belongs to the
    /// side to move.
    fn safe_moves(&self, piece: Piece, from: Pos) -> (moves: Vec<Vec<Action>>)
        requires
            self.board.wf(),
            self.board@.at(from) == Some(Some((self.to_move(), piece))),
            self.board@.king_pos(self.to_move()) is Some,
        ensures
            moves_view(moves@) == self.legal_from(from),
    {
        let color = self.turn_color();
        proof {
            lemma_index_bijection(self.board@);
            assert(square_wf(self.board@.squares[self.board@.index(from)]));
        }
        let offered = piece.moves(&self.board, from, color);
        proof {
            assert forall|j: int| 0 <= j < offered.len() implies self.board@.accepts(
                #[trigger] offered[j]@,
            ) && self.board@.play(color, from, offered[j]@).king_pos(color) is Some by {
                assert(shaped(self.board@, color, piece is Pawn, moves_view(offered@)[j]));
                lemma_shaped_accepted(self.board@, color, piece is Pawn, offered[j]@);
                lemma_own_king_stays(self.board@, color, from, offered[j]@);
            }
        }
        self.board.filter_safe_moves(color, from, offered)
    }

    /// The legal moves of the piece at `from`, if the player may move it
    /// now.
    pub fn playable_moves(&self, from: Pos) -> (r: Option<Vec<Vec<Action>>>)
        requires
            self.board.wf(),
            self.may_move(from) ==> self.board@.king_pos(self.player) is Some,
        ensures
            r is Some <==> self.may_move(from),
            r matches Some(moves) ==> moves_view(moves@) == self.legal_from(from),
    {
        if let Some(Some((color, piece))) = self.board.get(from) {
            if *color == self.player && self.player == self.turn_color() {
                return Some(self.safe_moves(*piece, from));
            }
        }
        None
    }

    /// The first legal move of the piece at `from` that takes it to `to`, if
    /// the player may move the piece now and it has such a move.
    pub fn playable_move(&self, from: Pos, to: Pos) -> (r: Option<Vec<Action>>)
        requires
            self.board.wf(),
            self.may_move(from) ==> self.board@.king_pos(self.player) is Some,
        ensures
            match r {
                Some(actions) => self.may_move(from) && first_to(self.legal_from(from), to)
                    == Some(actions@),
                None => !self.may_move(from) || first_to(self.legal_from(from), to) is None,
            },
    {
        if let Some(moves) = self.playable_moves(from) {
            let ghost all = moves_view(moves@);
            assert(all.skip(0) == all);
            let mut i: usize = 0;
            while i < moves.len()
                invariant
                    i <= moves.len(),
                    self.may_move(from),
                    all == self.legal_from(from),
                    all == moves_view(moves@),
                    first_to(all.skip(i as int), to) == first_to(all, to),
                decreases moves.len() - i,
            {
                let actions = &moves[i];
                let mut k: usize = 0;
                while k < actions.len()
                    invariant
                        k <= actions.len(),
                        i < moves.len(),
                        self.may_move(from),
                        all == self.legal_from(from),
                        all == moves_view(moves@),
                        first_to(all.skip(i as int), to) == first_to(all, to),
                        actions@ == all[i as int],
                        forall|j: int| 0 <= j < k ==> actions@[j] != Action::Go(to),
                    decreases actions.len() - k,
                {
                    if let Action::Go(pos) = actions[k] {
                        if pos == to {
                            proof {
                                assert(all.skip(i as int).first() == all[i as int]);
                                assert(goes_to(all[i as int], to));
                            }
                            return Some(copy_actions(actions));
                        }
                    }
                    k = k + 1;
                }
                proof {
                    assert(all.skip(i as int).first() == all[i as int]);
                    assert(!goes_to(all[i as int], to));
                    assert(all.skip(i as int).drop_first() == all.skip(i + 1));
                }
                i = i + 1;
            }
            assert(all.skip(i as int).len() == 0);
        }
        None
    }

    /// Plays a move of the side to move, and passes the turn.
    pub fn play(&mut self, pos: Pos, actions: &Vec<Action>)
        requires
            old(self).board.wf(),
            old(self).board@.is_own(pos, old(self).to_move()),
            old(self).board@.accepts(actions@),
            old(self).turn < u32::MAX,
        ensures
            final(self).board.wf(),
            final(self).board@ == old(self).board@.play(old(self).to_move(), pos, actions@),
            final(self).player == old(self).player,
            final(self).turn == old(self).turn + 1,
    {
        let color = self.turn_color();
        self.board = self.board.play(color, pos, actions);
        self.turn = self.turn + 1;
    }

    /// The value of the pieces the player has left, the king left out, in
    /// hundredths of a pawn.
    pub fn remaining_value(&self) -> (sum: i128)
        ensures
            sum == remaining(self.board@.squares, self.player),
    {
        let mut sum: i128 = 0;
        let mut i: usize = 0;
        while i < self.board.squares.len()
            invariant
                i <= self.board.squares.len(),
                sum == remaining(self.board@.squares.take(i as int), self.player),
                0 <= sum <= 100_000 * i,
            decreases self.board.squares.len() - i,
        {
            assert(self.board@.squares.take(i + 1).drop_last() == self.board@.squares.take(
                i as int,
            ));
            if let Some((color, piece)) = self.board.squares[i] {
                if color == self.player && piece != Piece::King {
                    sum = sum + piece_value(piece);
                }
            }
            i = i + 1;
        }
        assert(self.board@.squares.take(i as int) == self.board@.squares);
        sum
    }
}

} // verus!
