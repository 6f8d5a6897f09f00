//! The board: a grid of squares, the transition a move makes on it, and the
//! enumeration of the moves a side has.

use crate::piece::{
    all_shaped, any_threatens, copy_actions, hits, leaped_foe_pawn, lemma_offers_shaped,
    lemma_offers_threat, lemma_shaped_accepted, moves_view, shaped, threatens, Action, Color,
    Piece, Square,
};
use crate::pos::Pos;
use vstd::prelude::*;

verus! {

/// The largest number of squares a board may have. Coordinates are `i32`,
/// and two steps past any square must still be a coordinate.
pub const MAX_SQUARES: usize = 0x7fff_fffd;

/// A rectangular board. The square at `Pos(x, y)` is `squares[x + y * width]`.
#[derive(Clone)]
pub struct Board {
    pub width: usize,
    pub height: usize,
    pub squares: Vec<Square>,
}

/// The mathematical board that a `Board` stands for.
pub struct Grid {
    pub width: int,
    pub height: int,
    pub squares: Seq<Square>,
}

impl View for Board {
    type V = Grid;

    open spec fn view(&self) -> Grid {
        Grid { width: self.width as int, height: self.height as int, squares: self.squares@ }
    }
}

/// A square holds no pawn with a malformed orientation.
pub open spec fn square_wf(square: Square) -> bool {
    square matches Some((_, piece)) ==> piece.wf()
}

impl Grid {
    /// The grid has a square for every coordinate, few enough of them for
    /// `i32` coordinates, and every pawn on it has a direction to advance in.
    pub open spec fn wf(self) -> bool {
        &&& 0 <= self.width
        &&& 0 <= self.height
        &&& self.squares.len() == self.width * self.height
        &&& self.squares.len() <= MAX_SQUARES
        &&& forall|i: int| 0 <= i < self.squares.len() ==> square_wf(#[trigger] self.squares[i])
    }

    /// The grid of the given size with nothing on it.
    pub open spec fn empty(width: int, height: int) -> Grid {
        Grid { width, height, squares: Seq::new((width * height) as nat, |i: int| None) }
    }

    /// `pos` is a coordinate of the grid.
    pub open spec fn in_bound(self, pos: Pos) -> bool {
        0 <= pos.0 < self.width && 0 <= pos.1 < self.height
    }

    /// The index of the square at `pos`.
    pub open spec fn index(self, pos: Pos) -> int {
        pos.0 + pos.1 * self.width
    }

    /// The coordinate of the square with index `i`.
    pub open spec fn pos_of(self, i: int) -> Pos {
        Pos((i % self.width) as i32, (i / self.width) as i32)
    }

    /// What is at `pos`: `None` off the board, else the square.
    pub open spec fn at(self, pos: Pos) -> Option<Square> {
        if self.in_bound(pos) {
            Some(self.squares[self.index(pos)])
        } else {
            None
        }
    }

    /// The grid with the square at `pos` replaced.
    pub open spec fn put(self, pos: Pos, square: Square) -> Grid {
        Grid { squares: self.squares.update(self.index(pos), square), ..self }
    }

    /// `pos` is on the board and empty.
    pub open spec fn is_free(self, pos: Pos) -> bool {
        self.at(pos) == Some(None::<(Color, Piece)>)
    }

    /// `pos` holds a piece of the side opposed to `color`.
    pub open spec fn is_foe(self, pos: Pos, color: Color) -> bool {
        self.at(pos) matches Some(Some((other, _))) && other != color
    }

    /// Every square that the actions name is on the board, and every piece
    /// they promote to is well formed.
    pub open spec fn accepts(self, actions: Seq<Action>) -> bool {
        forall|k: int|
            0 <= k < actions.len() ==> match #[trigger] actions[k] {
                Action::Go(target) => self.in_bound(target),
                Action::Take(target) => self.in_bound(target),
                Action::Promotion(piece) => piece.wf(),
            }
    }

    /// `pos` holds a piece of `color`.
    pub open spec fn is_own(self, pos: Pos, color: Color) -> bool {
        self.at(pos) matches Some(Some((own, _))) && own == color
    }

    /// The grid as the turn of `color` begins: none of its pawns counts as
    /// having just leaped any more.
    pub open spec fn turn_begun(self, color: Color) -> Grid {
        Grid {
            squares: Seq::new(self.squares.len(), |i: int| begun(self.squares[i], color)),
            ..self
        }
    }

    /// The effect of one action of a move. `mover` is the moving piece as it
    /// stood before the move, `last` the square it stands on now. The result
    /// is the new grid and the square the piece stands on then.
    pub open spec fn act(self, mover: (Color, Piece), last: Pos, action: Action) -> (Grid, Pos) {
        match action {
            Action::Go(target) => (
                self.put(last, None).put(
                    target,
                    Some((mover.0, mover.1.relocated(last, target))),
                ),
                target,
            ),
            Action::Take(target) => (self.put(target, None), last),
            Action::Promotion(piece) => (self.put(last, Some((mover.0, piece))), last),
        }
    }

    /// The effect of the actions of a move, one after the other.
    pub open spec fn apply(self, mover: (Color, Piece), last: Pos, actions: Seq<Action>) -> Grid
        decreases actions.len(),
    {
        if actions.len() == 0 {
            self
        } else {
            let (next, stands) = self.act(mover, last, actions.first());
            next.apply(mover, stands, actions.drop_first())
        }
    }

    /// The grid after `color` has played the move `actions` with the piece
    /// at `origin`.
    pub open spec fn play(self, color: Color, origin: Pos, actions: Seq<Action>) -> Grid {
        self.turn_begun(color).apply(self.at(origin).unwrap().unwrap(), origin, actions)
    }

    /// The coordinate of the first king of `color` among the squares from
    /// index `from` on.
    pub open spec fn first_king(self, color: Color, from: int) -> Option<Pos>
        decreases self.squares.len() - from,
    {
        if from < 0 || from >= self.squares.len() {
            None
        } else if self.squares[from] == Some((color, Piece::King)) {
            Some(self.pos_of(from))
        } else {
            self.first_king(color, from + 1)
        }
    }

    /// Where the king of `color` stands, if it has one.
    pub open spec fn king_pos(self, color: Color) -> Option<Pos> {
        self.first_king(color, 0)
    }

    /// The king of `color` is attacked: a capture that the other side offers
    /// names the square it stands on.
    pub open spec fn is_checked(self, color: Color) -> bool {
        any_aims(
            self.pseudo_legal(color.other(), true, self.squares.len() as int),
            self.king_pos(color).unwrap(),
        )
    }

    /// The move leaves the mover's own king unattacked.
    pub open spec fn is_safe(self, color: Color, origin: Pos, actions: Seq<Action>) -> bool {
        !self.play(color, origin, actions).is_checked(color)
    }

    /// The moves of the list that leave the mover's own king unattacked, in
    /// the order of the list.
    pub open spec fn safe_only(self, color: Color, origin: Pos, moves: Seq<Seq<Action>>) -> Seq<
        Seq<Action>,
    >
        decreases moves.len(),
    {
        if moves.len() == 0 {
            Seq::empty()
        } else {
            let kept = self.safe_only(color, origin, moves.drop_last());
            if self.is_safe(color, origin, moves.last()) {
                kept.push(moves.last())
            } else {
                kept
            }
        }
    }

    /// What the piece on the square with index `i` offers, if it is of
    /// `color`: its moves, or only its captures.
    pub open spec fn offered_at(self, color: Color, capture_only: bool, i: int) -> Seq<
        Seq<Action>,
    > {
        match self.squares[i] {
            Some((owner, piece)) => if owner == color {
                if capture_only {
                    piece.takes_of(self, self.pos_of(i), color)
                } else {
                    piece.moves_of(self, self.pos_of(i), color)
                }
            } else {
                Seq::empty()
            },
            None => Seq::empty(),
        }
    }

    /// What the pieces of `color` on the first `n` squares offer, in the order
    /// of the squares, without regard to the safety of their king.
    pub open spec fn pseudo_legal(self, color: Color, capture_only: bool, n: int) -> Seq<
        (Pos, Seq<Action>),
    >
        decreases n,
    {
        if n <= 0 {
            Seq::empty()
        } else {
            self.pseudo_legal(color, capture_only, n - 1) + tagged(
                self.pos_of(n - 1),
                self.offered_at(color, capture_only, n - 1),
            )
        }
    }

    /// What the pieces of `color` on the first `n` squares offer and leaves
    /// their king unattacked, in the order of the squares.
    pub open spec fn legal(self, color: Color, capture_only: bool, n: int) -> Seq<
        (Pos, Seq<Action>),
    >
        decreases n,
    {
        if n <= 0 {
            Seq::empty()
        } else {
            self.legal(color, capture_only, n - 1) + tagged(
                self.pos_of(n - 1),
                self.safe_only(
                    color,
                    self.pos_of(n - 1),
                    self.offered_at(color, capture_only, n - 1),
                ),
            )
        }
    }

    /// The candidates of the first `n` squares.
    pub open spec fn candidates(
        self,
        color: Color,
        capture_only: bool,
        safe_moves: bool,
        n: int,
    ) -> Seq<
        (Pos, Seq<Action>),
    > {
        if safe_moves {
            self.legal(color, capture_only, n)
        } else {
            self.pseudo_legal(color, capture_only, n)
        }
    }

    /// All captures that `color` has.
    pub open spec fn takes(self, color: Color, safe_moves: bool) -> Seq<(Pos, Seq<Action>)> {
        self.candidates(color, true, safe_moves, self.squares.len() as int)
    }

    /// All moves that `color` has.
    pub open spec fn moves(self, color: Color, safe_moves: bool) -> Seq<(Pos, Seq<Action>)> {
        self.candidates(color, false, safe_moves, self.squares.len() as int)
    }

    /// `actions` has the form of a move that the piece of `color` at `origin`
    /// is offered.
    pub open spec fn offers(self, color: Color, origin: Pos, actions: Seq<Action>) -> bool {
        &&& self.is_own(origin, color)
        &&& shaped(self, color, self.at(origin).unwrap().unwrap().1 is Pawn, actions)
    }
}

/// A square as the turn of `color` begins.
pub open spec fn begun(square: Square, color: Color) -> Square {
    match square {
        Some((owner, piece)) => if owner == color {
            Some((owner, piece.turn_begun()))
        } else {
            square
        },
        None => None,
    }
}

/// One of the candidates has an action that moves to `target` or clears it.
pub open spec fn any_aims(cands: Seq<(Pos, Seq<Action>)>, target: Pos) -> bool {
    exists|i: int| 0 <= i < cands.len() && threatens((#[trigger] cands[i]).1, target)
}

/// The moves of a list, each with the coordinate of the piece that makes it.
pub open spec fn tagged(pos: Pos, moves: Seq<Seq<Action>>) -> Seq<(Pos, Seq<Action>)> {
    Seq::new(moves.len(), |k: int| (pos, moves[k]))
}

/// The candidates of a list, each as a coordinate and a sequence of actions.
pub open spec fn cands_view(cands: Seq<(Pos, Vec<Action>)>) -> Seq<(Pos, Seq<Action>)> {
    Seq::new(cands.len(), |k: int| (cands[k].0, cands[k].1@))
}

/// Every candidate of the list is a move that its piece is offered.
pub open spec fn all_offered(g: Grid, color: Color, cands: Seq<(Pos, Seq<Action>)>) -> bool {
    forall|i: int| 0 <= i < cands.len() ==> g.offers(color, (#[trigger] cands[i]).0, cands[i].1)
}

/// On a well-formed grid, coordinates on the board and indices of squares
/// correspond one to one.
pub proof fn lemma_index_bijection(g: Grid)
    requires
        g.wf(),
    ensures
        forall|p: Pos| #[trigger]
            g.in_bound(p) ==> 0 <= g.index(p) < g.squares.len() && g.pos_of(g.index(p)) == p,
        forall|i: int|
            0 <= i < g.squares.len() ==> g.in_bound(#[trigger] g.pos_of(i)) && g.index(g.pos_of(i))
                == i,
{
    assert forall|p: Pos| #[trigger] g.in_bound(p) implies 0 <= g.index(p) < g.squares.len()
        && g.pos_of(g.index(p)) == p by {
        lemma_index_of_pos(g.width, g.height, p.0 as int, p.1 as int);
    }
    assert forall|i: int| 0 <= i < g.squares.len() implies g.in_bound(#[trigger] g.pos_of(i))
        && g.index(g.pos_of(i)) == i by {
        lemma_pos_of_index(g.width, g.height, i);
    }
}

proof fn lemma_index_of_pos(w: int, h: int, x: int, y: int)
    requires
        0 <= x < w,
        0 <= y < h,
    ensures
        0 <= x + y * w < w * h,
        0 <= y * w <= w * h - w,
        (x + y * w) % w == x,
        (x + y * w) / w == y,
{
    assert(0 <= y * w <= w * h - w) by (nonlinear_arith)
        requires
            0 <= y < h,
            0 < w,
    ;
    vstd::arithmetic::div_mod::lemma_fundamental_div_mod_converse(x + y * w, w, y, x);
}

proof fn lemma_pos_of_index(w: int, h: int, i: int)
    requires
        0 <= w,
        0 <= h,
        0 <= i < w * h,
    ensures
        0 < w,
        0 <= i % w < w,
        0 <= i / w < h,
        i % w + (i / w) * w == i,
        i / w <= i,
{
    assert(0 < w) by (nonlinear_arith)
        requires
            0 <= w,
            0 <= i < w * h,
    ;
    vstd::arithmetic::div_mod::lemma_fundamental_div_mod(i, w);
    assert(0 <= i / w < h && i / w <= i) by (nonlinear_arith)
        requires
            0 < w,
            0 <= h,
            0 <= i < w * h,
            i == w * (i / w) + i % w,
            0 <= i % w < w,
    ;
    assert((i / w) * w == w * (i / w)) by (nonlinear_arith);
}

impl Board {
    /// The board is well formed when its grid is.
    pub open spec fn wf(&self) -> bool {
        self@.wf()
    }

    /// An empty board of the given size.
    pub fn new(width: usize, height: usize) -> (board: Board)
        requires
            width * height <= MAX_SQUARES,
        ensures
            board.wf(),
            board@ == Grid::empty(width as int, height as int),
    {
        let count: usize = width * height;
        let mut squares: Vec<Square> = Vec::new();
        let mut i: usize = 0;
        while i < count
            invariant
                i <= count,
                squares@ == Seq::new(i as nat, |k: int| None::<(Color, Piece)>),
            decreases count - i,
        {
            squares.push(None);
            i = i + 1;
        }
        Board { width, height, squares }
    }

    /// Whether `pos` is a coordinate of the board.
    pub fn in_bound(&self, pos: Pos) -> (r: bool)
        ensures
            r == self@.in_bound(pos),
    {
        0 <= pos.0 && (pos.0 as usize) < self.width && 0 <= pos.1 && (pos.1 as usize)
            < self.height
    }

    /// The square at `pos`, or `None` off the board.
    pub fn get(&self, pos: Pos) -> (r: Option<&Square>)
        requires
            self.wf(),
        ensures
            match r {
                Some(square) => self@.at(pos) == Some(*square),
                None => self@.at(pos) is None,
            },
    {
        if !self.in_bound(pos) {
            return None;
        }
        Some(&self.squares[self.i(pos)])
    }

    /// Replaces the square at `pos`.
    pub fn set(&mut self, pos: Pos, square: Square)
        requires
            old(self).wf(),
            old(self)@.in_bound(pos),
            square_wf(square),
        ensures
            final(self).wf(),
            final(self)@ == old(self)@.put(pos, square),
    {
        let i: usize = self.i(pos);
        self.squares.set(i, square);
    }

    /// The coordinate of the square with index `i`.
    pub fn pos(&self, i: usize) -> (pos: Pos)
        requires
            self.wf(),
            i < self.squares.len(),
        ensures
            pos == self@.pos_of(i as int),
            self@.in_bound(pos),
            self@.index(pos) == i,
    {
        proof {
            lemma_pos_of_index(self.width as int, self.height as int, i as int);
        }
        Pos((i % self.width) as i32, (i / self.width) as i32)
    }

    /// The index of the square at `pos`.
    pub fn i(&self, pos: Pos) -> (i: usize)
        requires
            self.wf(),
            self@.in_bound(pos),
        ensures
            i == self@.index(pos),
            i < self.squares.len(),
    {
        proof {
            lemma_index_of_pos(self.width as int, self.height as int, pos.0 as int, pos.1 as int);
        }
        pos.0 as usize + pos.1 as usize * self.width
    }

    /// A copy of the board.
    fn duplicate(&self) -> (copy: Board)
        ensures
            copy@ == self@,
    {
        let mut squares: Vec<Square> = Vec::new();
        let mut i: usize = 0;
        while i < self.squares.len()
            invariant
                i <= self.squares.len(),
                squares@ == self.squares@.take(i as int),
            decreases self.squares.len() - i,
        {
            squares.push(self.squares[i]);
            i = i + 1;
        }
        assert(self.squares@.take(i as int) == self.squares@);
        Board { width: self.width, height: self.height, squares }
    }

    /// Where the king of `color` stands, if it has one.
    pub fn king_pos(&self, color: Color) -> (r: Option<Pos>)
        requires
            self.wf(),
        ensures
            r == self@.king_pos(color),
    {
        let mut i: usize = 0;
        while i < self.squares.len()
            invariant
                i <= self.squares.len(),
                self.wf(),
                self@.first_king(color, i as int) == self@.king_pos(color),
            decreases self.squares.len() - i,
        {
            if let Some((piece_color, piece)) = self.squares[i] {
                if piece_color == color && piece == Piece::King {
                    return Some(self.pos(i));
                }
            }
            i = i + 1;
        }
        None
    }

    /// Whether the king of `color` is attacked.
    pub fn is_checked(&self, color: Color) -> (r: bool)
        requires
            self.wf(),
            self@.king_pos(color) is Some,
        ensures
            r == self@.is_checked(color),
        decreases 3int,
    {
        let king_pos = self.king_pos(color).unwrap();
        // check if the opponent can capture the king
        let o_color = color.next();
        let captures = self.takes(o_color, false);
        let mut i: usize = 0;
        while i < captures.len()
            invariant
                i <= captures.len(),
                self@.king_pos(color) == Some(king_pos),
                cands_view(captures@) == self@.pseudo_legal(
                    color.other(),
                    true,
                    self.squares.len() as int,
                ),
                forall|j: int|
                    0 <= j < i ==> !threatens((#[trigger] cands_view(captures@)[j]).1, king_pos),
            decreases captures.len() - i,
        {
            let actions = &captures[i].1;
            let mut k: usize = 0;
            while k < actions.len()
                invariant
                    k <= actions.len(),
                    i < captures.len(),
                    self@.king_pos(color) == Some(king_pos),
                    cands_view(captures@) == self@.pseudo_legal(
                        color.other(),
                        true,
                        self.squares.len() as int,
                    ),
                    actions@ == cands_view(captures@)[i as int].1,
                    forall|a: int| 0 <= a < k ==> !hits(#[trigger] actions@[a], king_pos),
                decreases actions.len() - k,
            {
                match actions[k] {
                    Action::Go(go_pos) => {
                        if go_pos == king_pos {
                            assert(hits(actions@[k as int], king_pos));
                            assert(threatens(cands_view(captures@)[i as int].1, king_pos));
                            assert(any_aims(cands_view(captures@), king_pos));
                            return true;
                        }
                    },
                    Action::Take(take_pos) => {
                        if take_pos == king_pos {
                            assert(hits(actions@[k as int], king_pos));
                            assert(threatens(cands_view(captures@)[i as int].1, king_pos));
                            assert(any_aims(cands_view(captures@), king_pos));
                            return true;
                        }
                    },
                    Action::Promotion(_) => {},
                }
                k = k + 1;
            }
            i = i + 1;
        }
        false
    }

    /// The moves of the list that leave the king of `color` unattacked once
    /// the piece at `pos` has played them.
    pub fn filter_safe_moves(&self, color: Color, pos: Pos, moves: Vec<Vec<Action>>) -> (kept: Vec<
        Vec<Action>,
    >)
        requires
            self.wf(),
            self@.is_own(pos, color),
            forall|i: int|
                0 <= i < moves.len() ==> self@.accepts(#[trigger] moves[i]@) && self@.play(
                    color,
                    pos,
                    moves[i]@,
                ).king_pos(color) is Some,
        ensures
            moves_view(kept@) == self@.safe_only(color, pos, moves_view(moves@)),
        decreases 4int,
    {
        let mut kept: Vec<Vec<Action>> = Vec::new();
        let mut i: usize = 0;
        while i < moves.len()
            invariant
                i <= moves.len(),
                self.wf(),
                self@.is_own(pos, color),
                forall|i: int|
                    0 <= i < moves.len() ==> self@.accepts(#[trigger] moves[i]@) && self@.play(
                        color,
                        pos,
                        moves[i]@,
                    ).king_pos(color) is Some,
                moves_view(kept@) == self@.safe_only(
                    color,
                    pos,
                    moves_view(moves@).take(i as int),
                ),
            decreases moves.len() - i,
        {
            proof {
                assert(moves_view(moves@).take(i + 1).drop_last() == moves_view(moves@).take(
                    i as int,
                ));
                assert(moves_view(moves@).take(i + 1).last() == moves[i as int]@);
            }
            let board = self.play(color, pos, &moves[i]);
            if !board.is_checked(color) {
                let ghost so_far = moves_view(kept@);
                kept.push(copy_actions(&moves[i]));
                assert(moves_view(kept@) == so_far.push(moves[i as int]@));
            }
            i = i + 1;
        }
        assert(moves_view(moves@).take(i as int) == moves_view(moves@));
        kept
    }

    /// The candidates of `color`: moves, or only captures.
    fn candidates(&self, color: Color, capture_only: bool, safe_moves: bool) -> (res: Vec<
        (Pos, Vec<Action>),
    >)
        requires
            self.wf(),
            safe_moves ==> self@.king_pos(color) is Some,
        ensures
            cands_view(res@) == self@.candidates(
                color,
                capture_only,
                safe_moves,
                self.squares.len() as int,
            ),
            all_offered(self@, color, cands_view(res@)),
        decreases
                (if safe_moves {
                    5int
                } else {
                    1int
                }),
    {
        let mut res: Vec<(Pos, Vec<Action>)> = Vec::new();
        let mut i: usize = 0;
        while i < self.squares.len()
            invariant
                i <= self.squares.len(),
                self.wf(),
                safe_moves ==> self@.king_pos(color) is Some,
                cands_view(res@) == self@.candidates(color, capture_only, safe_moves, i as int),
            decreases self.squares.len() - i,
        {
            if let Some((piece_color, piece)) = self.squares[i] {
                if piece_color == color {
                    let pos = self.pos(i);
                    assert(square_wf(self@.squares[i as int]));
                    let mut moves = if capture_only {
                        piece.takes(self, pos, color)
                    } else {
                        piece.moves(self, pos, color)
                    };
                    if safe_moves {
                        proof {
                            let offered = moves_view(moves@);
                            assert forall|j: int| 0 <= j < moves.len() implies self@.accepts(
                                #[trigger] moves[j]@,
                            ) && self@.play(color, pos, moves[j]@).king_pos(color) is Some by {
                                assert(shaped(self@, color, piece is Pawn, offered[j]));
                                lemma_own_king_stays(self@, color, pos, moves[j]@);
                            }
                        }
                        moves = self.filter_safe_moves(color, pos, moves);
                    }
                    let ghost before = cands_view(res@);
                    let mut k: usize = 0;
                    while k < moves.len()
                        invariant
                            k <= moves.len(),
                            cands_view(res@) == before + tagged(pos, moves_view(moves@)).take(
                                k as int,
                            ),
                        decreases moves.len() - k,
                    {
                        let ghost so_far = cands_view(res@);
                        res.push((pos, copy_actions(&moves[k])));
                        assert(cands_view(res@) == so_far.push((pos, moves[k as int]@)));
                        assert(tagged(pos, moves_view(moves@)).take(k + 1) == tagged(
                            pos,
                            moves_view(moves@),
                        ).take(k as int).push((pos, moves[k as int]@)));
                        k = k + 1;
                    }
                    proof {
                        let kept = tagged(pos, moves_view(moves@));
                        assert(kept.take(k as int) == kept);
                        assert(moves_view(moves@) == if safe_moves {
                            self@.safe_only(
                                color,
                                pos,
                                self@.offered_at(color, capture_only, i as int),
                            )
                        } else {
                            self@.offered_at(color, capture_only, i as int)
                        });
                    }
                }
            }
            i = i + 1;
        }
        proof {
            lemma_candidates_offered(
                self@,
                color,
                capture_only,
                safe_moves,
                self.squares.len() as int,
            );
        }
        res
    }

    /// All captures that `color` has, each with the coordinate of the piece
    /// that makes it; with `safe_moves`, only those that leave the king of
    /// `color` unattacked.
    pub fn takes(&self, color: Color, safe_moves: bool) -> (res: Vec<(Pos, Vec<Action>)>)
        requires
            self.wf(),
            safe_moves ==> self@.king_pos(color) is Some,
        ensures
            cands_view(res@) == self@.takes(color, safe_moves),
            all_offered(self@, color, cands_view(res@)),
        decreases
                (if safe_moves {
                    6int
                } else {
                    2int
                }),
    {
        self.candidates(color, true, safe_moves)
    }

    /// All moves that `color` has, each with the coordinate of the piece that
    /// makes it; with `safe_moves`, only those that leave the king of `color`
    /// unattacked.
    pub fn moves(&self, color: Color, safe_moves: bool) -> (res: Vec<(Pos, Vec<Action>)>)
        requires
            self.wf(),
            safe_moves ==> self@.king_pos(color) is Some,
        ensures
            cands_view(res@) == self@.moves(color, safe_moves),
            all_offered(self@, color, cands_view(res@)),
    {
        self.candidates(color, false, safe_moves)
    }

    /// Begins the turn of `color`.
    pub fn begin_turn(&mut self, color: Color)
        requires
            old(self).wf(),
        ensures
            final(self).wf(),
            final(self)@ == old(self)@.turn_begun(color),
    {
        let ghost before = self@;
        let mut i: usize = 0;
        while i < self.squares.len()
            invariant
                i <= self.squares.len(),
                before.wf(),
                self@.width == before.width,
                self@.height == before.height,
                self@.squares.len() == before.squares.len(),
                forall|k: int| 0 <= k < i ==> self@.squares[k] == begun(before.squares[k], color),
                forall|k: int|
                    i <= k < self@.squares.len() ==> self@.squares[k] == before.squares[k],
            decreases self.squares.len() - i,
        {
            if let Some((p_color, piece)) = self.squares[i] {
                if p_color == color {
                    self.squares.set(i, Some((p_color, piece.begin_turn())));
                }
            }
            i = i + 1;
        }
        proof {
            assert(self@.squares =~= before.turn_begun(color).squares);
            assert forall|k: int| 0 <= k < self@.squares.len() implies square_wf(
                #[trigger] self@.squares[k],
            ) by {
                assert(square_wf(before.squares[k]));
            }
        }
    }

    /// Records on the piece at `target` that it has come there from `start`.
    pub fn moved(&mut self, start: Pos, target: Pos)
        requires
            old(self).wf(),
            old(self)@.at(target) matches Some(Some(_)),
        ensures
            final(self).wf(),
            final(self)@ == old(self)@.put(
                target,
                Some(
                    (
                        old(self)@.at(target).unwrap().unwrap().0,
                        old(self)@.at(target).unwrap().unwrap().1.relocated(start, target),
                    ),
                ),
            ),
    {
        let (color, piece) = self.get(target).unwrap().unwrap();
        proof {
            lemma_index_bijection(self@);
            assert(square_wf(self@.squares[self@.index(target)]));
        }
        self.set(target, Some((color, piece.moved(start, target))));
    }

    /// The board after `color` has played the move `actions` with its piece
    /// at `pos`: the turn of `color` begins, then the actions take effect
    /// one after the other. The board itself is left as it is.
    pub fn play(&self, color: Color, pos: Pos, actions: &Vec<Action>) -> (res: Board)
        requires
            self.wf(),
            self@.is_own(pos, color),
            self@.accepts(actions@),
        ensures
            res.wf(),
            res@ == self@.play(color, pos, actions@),
    {
        let mut res = self.duplicate();
        res.begin_turn(color);
        let mut last_pos = pos;
        let square = *self.get(pos).unwrap();
        let ghost mover = square.unwrap();
        proof {
            lemma_index_bijection(self@);
            assert(square_wf(self@.squares[self@.index(pos)]));
            assert(actions@.skip(0) == actions@);
        }
        let mut k: usize = 0;
        while k < actions.len()
            invariant
                k <= actions.len(),
                res.wf(),
                res@.width == self@.width,
                res@.height == self@.height,
                self@.accepts(actions@),
                self@.in_bound(last_pos),
                square == Some(mover),
                mover.0 == color,
                mover.1.wf(),
                res@.apply(mover, last_pos, actions@.skip(k as int)) == self@.play(
                    color,
                    pos,
                    actions@,
                ),
            decreases actions.len() - k,
        {
            proof {
                assert(actions@.skip(k as int).first() == actions@[k as int]);
                assert(actions@.skip(k as int).drop_first() == actions@.skip(k + 1));
                lemma_index_bijection(res@);
            }
            let ghost prior = res@;
            match actions[k] {
                Action::Go(go_pos) => {
                    res.set(last_pos, None);
                    res.set(go_pos, square);
                    proof {
                        lemma_index_bijection(res@);
                    }
                    res.moved(last_pos, go_pos);
                    assert(res@.squares =~= prior.act(
                        mover,
                        last_pos,
                        actions@[k as int],
                    ).0.squares);
                    last_pos = go_pos;
                },
                Action::Take(take_pos) => res.set(take_pos, None),
                Action::Promotion(piece) => {
                    let (color, _) = square.unwrap();
                    res.set(last_pos, Some((color, piece)));
                },
            };
            k = k + 1;
        }
        res
    }
}

/// Filtering for safety only drops moves: what is left has the form that the
/// list had.
pub proof fn lemma_safe_only_shaped(
    g: Grid,
    color: Color,
    pos: Pos,
    pawn: bool,
    moves: Seq<Seq<Action>>,
)
    requires
        all_shaped(g, color, pawn, moves),
    ensures
        all_shaped(g, color, pawn, g.safe_only(color, pos, moves)),
    decreases moves.len(),
{
    if moves.len() > 0 {
        lemma_safe_only_shaped(g, color, pos, pawn, moves.drop_last());
        assert(shaped(g, color, pawn, moves.last()));
    }
}

/// The actions of a move keep a well-formed grid well formed and of the same
/// size, provided they name only squares of the board and well-formed pieces.
pub proof fn lemma_apply_wf(g: Grid, mover: (Color, Piece), last: Pos, actions: Seq<Action>)
    requires
        g.wf(),
        mover.1.wf(),
        g.in_bound(last),
        g.accepts(actions),
    ensures
        g.apply(mover, last, actions).wf(),
        g.apply(mover, last, actions).width == g.width,
        g.apply(mover, last, actions).height == g.height,
    decreases actions.len(),
{
    if actions.len() > 0 {
        lemma_index_bijection(g);
        let (next, stands) = g.act(mover, last, actions.first());
        assert(actions[0] == actions.first());
        assert(next.wf()) by {
            match actions.first() {
                Action::Go(target) => {
                    let cleared = g.put(last, None);
                    assert forall|i: int| 0 <= i < cleared.squares.len() implies square_wf(
                        #[trigger] cleared.squares[i],
                    ) by {
                        assert(square_wf(g.squares[i]));
                    }
                    assert forall|i: int| 0 <= i < next.squares.len() implies square_wf(
                        #[trigger] next.squares[i],
                    ) by {
                        assert(square_wf(cleared.squares[i]));
                    }
                },
                _ => {
                    assert forall|i: int| 0 <= i < next.squares.len() implies square_wf(
                        #[trigger] next.squares[i],
                    ) by {
                        assert(square_wf(g.squares[i]));
                    }
                },
            }
        }
        let rest = actions.drop_first();
        assert forall|k: int| 0 <= k < rest.len() implies match #[trigger] rest[k] {
            Action::Go(target) => next.in_bound(target),
            Action::Take(target) => next.in_bound(target),
            Action::Promotion(piece) => piece.wf(),
        } by {
            assert(rest[k] == actions[k + 1]);
        }
        lemma_apply_wf(next, mover, stands, rest);
    }
}

/// Beginning a turn keeps a well-formed grid well formed.
pub proof fn lemma_turn_begun_wf(g: Grid, color: Color)
    requires
        g.wf(),
    ensures
        g.turn_begun(color).wf(),
{
    let start = g.turn_begun(color);
    assert forall|k: int| 0 <= k < start.squares.len() implies square_wf(
        #[trigger] start.squares[k],
    ) by {
        assert(square_wf(g.squares[k]));
    }
}

/// Playing a move keeps a well-formed grid well formed and of the same size.
pub proof fn lemma_play_wf(g: Grid, color: Color, origin: Pos, actions: Seq<Action>)
    requires
        g.wf(),
        g.is_own(origin, color),
        g.accepts(actions),
    ensures
        g.play(color, origin, actions).wf(),
        g.play(color, origin, actions).width == g.width,
        g.play(color, origin, actions).height == g.height,
        g.play(color, origin, actions).squares.len() == g.squares.len(),
{
    lemma_index_bijection(g);
    lemma_turn_begun_wf(g, color);
    assert(square_wf(g.squares[g.index(origin)]));
    lemma_apply_wf(g.turn_begun(color), g.at(origin).unwrap().unwrap(), origin, actions);
}

/// Every candidate is a move that its piece is offered: it starts from a
/// piece of the side to move and has the generated form.
pub proof fn lemma_candidates_offered(
    g: Grid,
    color: Color,
    capture_only: bool,
    safe_moves: bool,
    n: int,
)
    requires
        g.wf(),
        n <= g.squares.len(),
    ensures
        all_offered(g, color, g.candidates(color, capture_only, safe_moves, n)),
    decreases n,
{
    if n > 0 {
        lemma_candidates_offered(g, color, capture_only, safe_moves, n - 1);
        lemma_index_bijection(g);
        let pos = g.pos_of(n - 1);
        let offered = g.offered_at(color, capture_only, n - 1);
        let kept = if safe_moves {
            g.safe_only(color, pos, offered)
        } else {
            offered
        };
        let earlier = g.candidates(color, capture_only, safe_moves, n - 1);
        let all = g.candidates(color, capture_only, safe_moves, n);
        assert(all == earlier + tagged(pos, kept));
        match g.squares[n - 1] {
            Some((owner, piece)) => {
                if owner == color {
                    lemma_offers_shaped(piece, g, pos, color);
                    lemma_safe_only_shaped(g, color, pos, piece is Pawn, offered);
                    assert forall|i: int| 0 <= i < all.len() implies g.offers(
                        color,
                        (#[trigger] all[i]).0,
                        all[i].1,
                    ) by {
                        if i >= earlier.len() {
                            assert(shaped(g, color, piece is Pawn, kept[i - earlier.len()]));
                        }
                    }
                }
            },
            None => {},
        }
    }
}

/// The king that `first_king` finds stands on the board, and it finds one
/// wherever there is one.
pub proof fn lemma_first_king(g: Grid, color: Color, from: int)
    requires
        g.wf(),
        0 <= from,
    ensures
        g.first_king(color, from) matches Some(pos) ==> g.in_bound(pos) && g.at(pos) == Some(
            Some((color, Piece::King)),
        ),
        forall|i: int|
            from <= i < g.squares.len() && g.squares[i] == Some((color, Piece::King))
                ==> g.first_king(color, from) is Some,
    decreases g.squares.len() - from,
{
    if from < g.squares.len() {
        lemma_index_bijection(g);
        lemma_first_king(g, color, from + 1);
    }
}

/// A move leaves alone every square that it does not name and does not start
/// from: such a square holds afterwards what it held as the turn began.
pub proof fn lemma_play_untouched(
    g: Grid,
    color: Color,
    origin: Pos,
    actions: Seq<Action>,
    pos: Pos,
)
    requires
        g.wf(),
        g.offers(color, origin, actions),
        g.in_bound(pos),
        pos != origin,
        !threatens(actions, pos),
    ensures
        g.play(color, origin, actions).squares[g.index(pos)] == begun(
            g.squares[g.index(pos)],
            color,
        ),
{
    lemma_index_bijection(g);
    let target = actions[0]->Go_0;
    reveal_with_fuel(Grid::apply, 4);
    assert(actions.drop_first().len() == actions.len() - 1);
    assert(!hits(actions[0], pos));
    assert(g.pos_of(g.index(pos)) == pos);
    assert(g.pos_of(g.index(target)) == target);
    assert(g.pos_of(g.index(origin)) == origin);
    if actions.len() >= 2 {
        assert(actions.drop_first()[0] == actions[1]);
        assert(actions.drop_first().drop_first().len() == actions.len() - 2);
        assert(actions.drop_last()[0] == actions[0]);
        assert(!hits(actions[1], pos));
        if actions[1] is Take {
            let passed = actions[1]->Take_0;
            assert(g.pos_of(g.index(passed)) == passed);
        }
    }
    if actions.len() >= 3 {
        assert(actions.drop_first().drop_first()[0] == actions[2]);
        assert(actions.drop_last()[1] == actions[1]);
    }
}

/// Joining two lists of candidates joins what they aim at.
pub proof fn lemma_aims_concat(
    first: Seq<(Pos, Seq<Action>)>,
    second: Seq<(Pos, Seq<Action>)>,
    target: Pos,
)
    ensures
        any_aims(first + second, target) <==> any_aims(first, target) || any_aims(second, target),
{
    let both = first + second;
    if any_aims(both, target) {
        let i = choose|i: int| 0 <= i < both.len() && threatens((#[trigger] both[i]).1, target);
        if i < first.len() {
            assert(threatens(first[i].1, target));
        } else {
            assert(threatens(second[i - first.len()].1, target));
        }
    }
    if any_aims(first, target) {
        let i = choose|i: int| 0 <= i < first.len() && threatens((#[trigger] first[i]).1, target);
        assert(threatens(both[i].1, target));
    }
    if any_aims(second, target) {
        let i = choose|i: int|
            0 <= i < second.len() && threatens((#[trigger] second[i]).1, target);
        assert(threatens(both[first.len() + i].1, target));
    }
}

/// A piece's candidates aim at what its moves aim at.
pub proof fn lemma_aims_tagged(pos: Pos, moves: Seq<Seq<Action>>, target: Pos)
    ensures
        any_aims(tagged(pos, moves), target) <==> any_threatens(moves, target),
{
    let cands = tagged(pos, moves);
    if any_aims(cands, target) {
        let i = choose|i: int| 0 <= i < cands.len() && threatens((#[trigger] cands[i]).1, target);
        assert(threatens(moves[i], target));
    }
    if any_threatens(moves, target) {
        let i = choose|i: int| 0 <= i < moves.len() && threatens(#[trigger] moves[i], target);
        assert(threatens(cands[i].1, target));
    }
}

/// What the safe moves of a list aim at, the list aims at.
pub proof fn lemma_safe_only_threat(
    g: Grid,
    color: Color,
    pos: Pos,
    moves: Seq<Seq<Action>>,
    target: Pos,
)
    ensures
        any_threatens(g.safe_only(color, pos, moves), target) ==> any_threatens(moves, target),
    decreases moves.len(),
{
    if moves.len() > 0 {
        let shorter = moves.drop_last();
        let kept = g.safe_only(color, pos, shorter);
        let all = g.safe_only(color, pos, moves);
        lemma_safe_only_threat(g, color, pos, shorter, target);
        if any_threatens(all, target) {
            let i = choose|i: int| 0 <= i < all.len() && threatens(#[trigger] all[i], target);
            if i < kept.len() {
                assert(threatens(kept[i], target));
                let j = choose|j: int|
                    0 <= j < shorter.len() && threatens(#[trigger] shorter[j], target);
                assert(threatens(moves[j], target));
            } else {
                assert(threatens(moves[moves.len() - 1], target));
            }
        }
    }
}

/// Whatever square a move of `color` names that is not empty, a capture of
/// `color` names too.
pub proof fn lemma_moves_aim_as_takes(g: Grid, color: Color, safe_moves: bool, n: int, target: Pos)
    requires
        !g.is_free(target),
        n <= g.squares.len(),
    ensures
        any_aims(g.candidates(color, false, safe_moves, n), target) ==> any_aims(
            g.pseudo_legal(color, true, n),
            target,
        ),
    decreases n,
{
    if n > 0 {
        lemma_moves_aim_as_takes(g, color, safe_moves, n - 1, target);
        let pos = g.pos_of(n - 1);
        let offered = g.offered_at(color, false, n - 1);
        let kept = if safe_moves {
            g.safe_only(color, pos, offered)
        } else {
            offered
        };
        let captures = g.offered_at(color, true, n - 1);
        lemma_aims_concat(g.candidates(color, false, safe_moves, n - 1), tagged(pos, kept), target);
        lemma_aims_concat(g.pseudo_legal(color, true, n - 1), tagged(pos, captures), target);
        lemma_aims_tagged(pos, kept, target);
        lemma_aims_tagged(pos, captures, target);
        lemma_safe_only_threat(g, color, pos, offered, target);
        match g.squares[n - 1] {
            Some((owner, piece)) => {
                if owner == color {
                    lemma_offers_threat(piece, g, pos, color, target);
                }
            },
            None => {},
        }
    }
}

/// A king that is not attacked cannot be captured: if the king of the side
/// that is not to move is on the board and unattacked, it is still on the
/// board after any move of the side to move.
pub proof fn lemma_unattacked_king_stays(g: Grid, color: Color, safe_moves: bool, i: int)
    requires
        g.wf(),
        g.king_pos(color.other()) is Some,
        !g.is_checked(color.other()),
        0 <= i < g.moves(color, safe_moves).len(),
    ensures
        g.play(color, g.moves(color, safe_moves)[i].0, g.moves(color, safe_moves)[i].1).king_pos(
            color.other(),
        ) is Some,
{
    let cands = g.moves(color, safe_moves);
    let cand = cands[i];
    let king = g.king_pos(color.other()).unwrap();
    let end = g.play(color, cand.0, cand.1);
    lemma_index_bijection(g);
    lemma_first_king(g, color.other(), 0);
    lemma_candidates_offered(g, color, false, safe_moves, g.squares.len() as int);
    assert(g.offers(color, cand.0, cand.1));
    if threatens(cand.1, king) {
        assert(any_aims(cands, king));
        lemma_moves_aim_as_takes(g, color, safe_moves, g.squares.len() as int, king);
        assert(false);
    }
    lemma_play_untouched(g, color, cand.0, cand.1, king);
    lemma_shaped_accepted(g, color, g.at(cand.0).unwrap().unwrap().1 is Pawn, cand.1);
    lemma_play_wf(g, color, cand.0, cand.1);
    assert(end.squares[g.index(king)] == Some((color.other(), Piece::King)));
    lemma_first_king(end, color.other(), 0);
}

/// The right to capture en passant lasts for one ply. Once a side has played
/// a move, the only pawn of that side that can be captured en passant is the
/// one it has just moved: a pawn of its own that had leaped a move earlier
/// can no longer be captured so.
pub proof fn lemma_en_passant_expires(g: Grid, color: Color, origin: Pos, actions: Seq<Action>)
    requires
        g.wf(),
        g.offers(color, origin, actions),
    ensures
        forall|pos: Pos| !#[trigger] leaped_foe_pawn(g.turn_begun(color), pos, color.other()),
        forall|pos: Pos| #[trigger]
            leaped_foe_pawn(g.play(color, origin, actions), pos, color.other()) ==> actions[0]
                == Action::Go(pos),
{
    lemma_index_bijection(g);
    let mover = g.at(origin).unwrap().unwrap();
    let start = g.turn_begun(color);
    let end = g.play(color, origin, actions);
    let target = actions[0]->Go_0;
    reveal_with_fuel(Grid::apply, 4);
    assert(actions.drop_first().len() == actions.len() - 1);
    if actions.len() >= 2 {
        assert(actions.drop_first()[0] == actions[1]);
        assert(actions.drop_first().drop_first().len() == actions.len() - 2);
        assert(actions.drop_last()[0] == actions[0]);
    }
    if actions.len() >= 3 {
        assert(actions.drop_first().drop_first()[0] == actions[2]);
        assert(actions.drop_last()[1] == actions[1]);
    }
    assert forall|pos: Pos| !#[trigger] leaped_foe_pawn(start, pos, color.other()) by {
        if g.in_bound(pos) {
            assert(start.squares[g.index(pos)] == begun(g.squares[g.index(pos)], color));
        }
    }
    assert forall|pos: Pos| #[trigger]
        leaped_foe_pawn(end, pos, color.other()) implies actions[0] == Action::Go(pos) by {
        assert(end.width == g.width && end.height == g.height);
        assert(g.in_bound(pos));
        if g.index(pos) != g.index(target) {
            assert(end.squares[g.index(pos)] == start.squares[g.index(pos)] || end.squares[g.index(
                pos,
            )] is None);
        } else {
            assert(g.pos_of(g.index(pos)) == pos);
            assert(g.pos_of(g.index(target)) == target);
        }
    }
}

/// A move of the generated form never removes the mover's own king: a side
/// that has a king still has one after the move.
pub proof fn lemma_own_king_stays(g: Grid, color: Color, origin: Pos, actions: Seq<Action>)
    requires
        g.wf(),
        g.offers(color, origin, actions),
        g.king_pos(color) is Some,
    ensures
        g.play(color, origin, actions).king_pos(color) is Some,
{
    lemma_index_bijection(g);
    lemma_first_king(g, color, 0);
    let mover = g.at(origin).unwrap().unwrap();
    let king = g.king_pos(color).unwrap();
    let start = g.turn_begun(color);
    let end = g.play(color, origin, actions);
    let target = actions[0]->Go_0;
    reveal_with_fuel(Grid::apply, 4);
    assert(actions.drop_first().len() == actions.len() - 1);
    if actions.len() >= 2 {
        assert(actions.drop_first()[0] == actions[1]);
        assert(actions.drop_first().drop_first().len() == actions.len() - 2);
        assert(actions.drop_last()[0] == actions[0]);
    }
    if actions.len() >= 3 {
        assert(actions.drop_first().drop_first()[0] == actions[2]);
        assert(actions.drop_last()[1] == actions[1]);
    }
    assert(end.wf()) by {
        assert(start.wf()) by {
            assert forall|k: int| 0 <= k < start.squares.len() implies square_wf(
                #[trigger] start.squares[k],
            ) by {
                assert(square_wf(g.squares[k]));
            }
        }
        assert(square_wf(g.squares[g.index(origin)]));
    }
    if mover.1 == Piece::King {
        assert(end.squares[g.index(target)] == Some((color, Piece::King)));
        lemma_first_king(end, color, 0);
    } else {
        assert(end.squares[g.index(king)] == Some((color, Piece::King)));
        lemma_first_king(end, color, 0);
    }
}

} // verus!
