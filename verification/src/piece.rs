//! Pieces, the actions a move is made of, and the moves each piece offers.

use crate::board::{Board, Grid};
use crate::pos::{all_dirs, diag_dirs, diags, line_dirs, lines, los, Pos};
use itertools::Itertools;
use vstd::prelude::*;

verus! {

/// The two sides.
#[derive(Clone, Copy, Debug, PartialEq, Eq, Structural)]
pub enum Color {
    White,
    Black,
}

impl Color {
    /// The opposite side.
    pub open spec fn other(self) -> Color {
        match self {
            Color::White => Color::Black,
            Color::Black => Color::White,
        }
    }

    /// The side that moves after this one.
    pub fn next(self) -> (r: Color)
        ensures
            r == self.other(),
    {
        match self {
            Color::White => Color::Black,
            Color::Black => Color::White,
        }
    }
}

/// What a pawn may still do with its two-square leap.
#[derive(Clone, Copy, PartialEq, Eq, Debug, Structural)]
pub enum PawnStatus {
    CanLeap,
    JustLeaped,
    CannotLeap,
}

/// A kind of piece. A pawn carries the direction it advances in and its
/// leap status.
#[derive(Clone, Copy, PartialEq, Eq, Debug, Structural)]
pub enum Piece {
    Pawn { orientation: Pos, status: PawnStatus },
    Knight,
    Bishop,
    Rook,
    Queen,
    King,
}

/// One step of a move: relocate the moving piece, clear a square, or replace
/// the moving piece by another kind.
#[derive(Clone, Copy, PartialEq, Eq, Debug, Structural)]
pub enum Action {
    Go(Pos),
    Take(Pos),
    Promotion(Piece),
}

/// What a square holds: nothing, or a piece of one side.
pub type Square = Option<(Color, Piece)>;

impl Piece {
    /// A pawn advances along one of the eight directions.
    pub open spec fn wf(self) -> bool {
        self matches Piece::Pawn { orientation, .. } ==> orientation.is_direction()
    }

    /// The piece as its owner's turn begins: a pawn that had just leaped can
    /// no longer be captured en passant.
    pub open spec fn turn_begun(self) -> Piece {
        match self {
            Piece::Pawn { orientation, status: PawnStatus::JustLeaped } => Piece::Pawn {
                orientation,
                status: PawnStatus::CannotLeap,
            },
            _ => self,
        }
    }

    /// The piece after it went from `start` to `target`: a pawn that advanced
    /// exactly two squares along its orientation has just leaped, any other
    /// pawn can no longer leap.
    pub open spec fn relocated(self, start: Pos, target: Pos) -> Piece {
        match self {
            Piece::Pawn { orientation, status } => if start.0 + 2 * orientation.0 == target.0
                && start.1 + 2 * orientation.1 == target.1 {
                Piece::Pawn { orientation, status: PawnStatus::JustLeaped }
            } else {
                Piece::Pawn { orientation, status: PawnStatus::CannotLeap }
            },
            _ => self,
        }
    }

    /// The piece as its owner's turn begins.
    pub fn begin_turn(self) -> (r: Piece)
        ensures
            r == self.turn_begun(),
    {
        match self {
            Piece::Pawn { orientation, status } => {
                let mut newstatus = status;
                if status == PawnStatus::JustLeaped {
                    newstatus = PawnStatus::CannotLeap;
                }
                Piece::Pawn { orientation, status: newstatus }
            },
            _ => self,
        }
    }

    /// The piece after it went from `start` to `target`.
    pub fn moved(self, start: Pos, target: Pos) -> (r: Piece)
        ensures
            r == self.relocated(start, target),
    {
        match self {
            Piece::Pawn { orientation, status: _ } => {
                let leap_x: i64 = start.0 as i64 + 2 * (orientation.0 as i64);
                let leap_y: i64 = start.1 as i64 + 2 * (orientation.1 as i64);
                if leap_x == target.0 as i64 && leap_y == target.1 as i64 {
                    Piece::Pawn { orientation, status: PawnStatus::JustLeaped }
                } else {
                    Piece::Pawn { orientation, status: PawnStatus::CannotLeap }
                }
            },
            _ => self,
        }
    }
}

/// A pawn's leap status only ever moves forward: once it has left `CanLeap`
/// it never returns to it, whatever happens to the pawn.
pub proof fn lemma_pawn_status_monotonic(piece: Piece, start: Pos, target: Pos)
    ensures
        piece.turn_begun() matches Piece::Pawn { status: PawnStatus::CanLeap, .. } ==> piece
            matches Piece::Pawn { status: PawnStatus::CanLeap, .. },
        !(piece.relocated(start, target) matches Piece::Pawn { status: PawnStatus::CanLeap, .. }),
        !(piece.turn_begun() matches Piece::Pawn { status: PawnStatus::JustLeaped, .. }),
        piece.wf() ==> piece.turn_begun().wf() && piece.relocated(start, target).wf(),
{
}

/// The action moves to `target` or clears it.
pub open spec fn hits(action: Action, target: Pos) -> bool {
    action == Action::Go(target) || action == Action::Take(target)
}

/// The move has an action that moves to `target` or clears it.
pub open spec fn threatens(actions: Seq<Action>, target: Pos) -> bool {
    exists|k: int| 0 <= k < actions.len() && hits(#[trigger] actions[k], target)
}

/// One of the moves has an action that moves to `target` or clears it.
pub open spec fn any_threatens(moves: Seq<Seq<Action>>, target: Pos) -> bool {
    exists|i: int| 0 <= i < moves.len() && threatens(#[trigger] moves[i], target)
}

/// The moves of a list, each as a sequence of actions.
pub open spec fn moves_view(moves: Seq<Vec<Action>>) -> Seq<Seq<Action>> {
    Seq::new(moves.len(), |i: int| moves[i]@)
}

/// The list that holds the single move "go to `target`".
pub open spec fn go(target: Pos) -> Seq<Seq<Action>> {
    seq![seq![Action::Go(target)]]
}

/// The first action of a generated move: the moving piece goes to a square of
/// the board that holds no piece of its own side.
pub open spec fn is_landing(g: Grid, color: Color, action: Action) -> bool {
    action matches Action::Go(target) && g.in_bound(target) && !g.is_own(target, color)
}

/// An en passant removal: it clears a square that holds an enemy piece and is
/// not the square the mover went to.
pub open spec fn is_removal(g: Grid, color: Color, landing: Action, action: Action) -> bool {
    action matches Action::Take(passed) && g.is_foe(passed, color) && landing != Action::Go(
        passed,
    )
}

/// The only promotions on offer.
pub open spec fn is_crowning(action: Action) -> bool {
    action == Action::Promotion(Piece::Queen) || action == Action::Promotion(Piece::Knight)
}

/// A move without promotion: a landing, possibly followed by a removal.
pub open spec fn plain(g: Grid, color: Color, actions: Seq<Action>) -> bool {
    &&& 1 <= actions.len() <= 2
    &&& is_landing(g, color, actions[0])
    &&& actions.len() == 2 ==> is_removal(g, color, actions[0], actions[1])
}

/// The form of every move that the generators offer: a plain move, which for
/// a pawn may be followed by a promotion to queen or knight.
pub open spec fn shaped(g: Grid, color: Color, pawn: bool, actions: Seq<Action>) -> bool {
    ||| plain(g, color, actions)
    ||| (pawn && actions.len() >= 2 && plain(g, color, actions.drop_last()) && is_crowning(
        actions.last(),
    ))
}

/// Every move of the list has the generated form.
pub open spec fn all_shaped(g: Grid, color: Color, pawn: bool, moves: Seq<Seq<Action>>) -> bool {
    forall|i: int| 0 <= i < moves.len() ==> shaped(g, color, pawn, #[trigger] moves[i])
}

/// Every move of the list is plain.
pub open spec fn all_plain(g: Grid, color: Color, moves: Seq<Seq<Action>>) -> bool {
    forall|i: int| 0 <= i < moves.len() ==> plain(g, color, #[trigger] moves[i])
}

/// The single-step move from `pos` by `offset`, where the piece may land
/// there: on an enemy piece, or, unless only captures are asked for, on an
/// empty square.
pub open spec fn hop(g: Grid, pos: Pos, color: Color, offset: Pos, capture_only: bool) -> Seq<
    Seq<Action>,
> {
    let target = pos.plus(offset);
    if g.is_foe(target, color) || (!capture_only && g.is_free(target)) {
        go(target)
    } else {
        Seq::empty()
    }
}

/// The single-step moves from `pos`, one offset after the other.
pub open spec fn hops(
    g: Grid,
    pos: Pos,
    color: Color,
    offsets: Seq<Pos>,
    capture_only: bool,
) -> Seq<Seq<Action>>
    decreases offsets.len(),
{
    if offsets.len() == 0 {
        Seq::empty()
    } else {
        hops(g, pos, color, offsets.drop_last(), capture_only) + hop(
            g,
            pos,
            color,
            offsets.last(),
            capture_only,
        )
    }
}

/// How many steps from `from` in direction `dir` stay on the board, plus one.
pub open spec fn room(g: Grid, from: Pos, dir: Pos) -> int {
    if dir.0 > 0 {
        g.width - from.0
    } else if dir.0 < 0 {
        from.0 + 1
    } else if dir.1 > 0 {
        g.height - from.1
    } else {
        from.1 + 1
    }
}

/// The moves along the ray that leaves `from` in direction `dir`: every empty
/// square until the ray is blocked (unless only captures are asked for), and
/// the blocking square if an enemy piece stands on it.
pub open spec fn ray(g: Grid, from: Pos, dir: Pos, color: Color, capture_only: bool) -> Seq<
    Seq<Action>,
>
    decreases room(g, from, dir),
{
    let next = from.plus(dir);
    if !dir.is_direction() || !from.can_add(dir) || !g.in_bound(next) {
        Seq::empty()
    } else if g.is_free(next) {
        (if capture_only {
            Seq::empty()
        } else {
            go(next)
        }) + ray(g, next, dir, color, capture_only)
    } else if g.is_foe(next, color) {
        go(next)
    } else {
        Seq::empty()
    }
}

/// The moves along the rays from `pos`, one direction after the other.
pub open spec fn rays(
    g: Grid,
    pos: Pos,
    color: Color,
    dirs: Seq<Pos>,
    capture_only: bool,
) -> Seq<Seq<Action>>
    decreases dirs.len(),
{
    if dirs.len() == 0 {
        Seq::empty()
    } else {
        rays(g, pos, color, dirs.drop_last(), capture_only) + ray(
            g,
            pos,
            dirs.last(),
            color,
            capture_only,
        )
    }
}

/// The pairs (a, b) with a from `firsts` and b from `seconds`, all the pairs
/// of one a before those of the next.
pub open spec fn pairs_of(firsts: Seq<i32>, seconds: Seq<i32>) -> Seq<(i32, i32)> {
    Seq::new(
        firsts.len() * seconds.len(),
        |k: int| (firsts[k / (seconds.len() as int)], seconds[k % (seconds.len() as int)]),
    )
}

/// The eight knight jumps, in the order in which they are tried.
pub open spec fn knight_offsets() -> Seq<Pos> {
    seq![
        Pos(-2i32, -1i32),
        Pos(-1i32, -2i32),
        Pos(-2i32, 1),
        Pos(1, -2i32),
        Pos(2, -1i32),
        Pos(-1i32, 2),
        Pos(2, 1),
        Pos(1, 2),
    ]
}

/// A pawn's advances: one step onto an empty square, and from there a second
/// one if the pawn can still leap and that square is empty too.
pub open spec fn pawn_steps(g: Grid, pos: Pos, orientation: Pos, status: PawnStatus) -> Seq<
    Seq<Action>,
> {
    let forward = pos.plus(orientation);
    let leap = pos.plus(orientation.times(2));
    if g.is_free(forward) {
        if status == PawnStatus::CanLeap && g.is_free(leap) {
            go(forward) + go(leap)
        } else {
            go(forward)
        }
    } else {
        Seq::empty()
    }
}

/// `pos` holds an enemy pawn that leaped on the last ply.
pub open spec fn leaped_foe_pawn(g: Grid, pos: Pos, color: Color) -> bool {
    g.at(pos) matches Some(Some((other, Piece::Pawn { status: PawnStatus::JustLeaped, .. })))
        && other != color
}

/// A pawn's capture towards `side`: onto an enemy piece, or en passant onto
/// an empty square when the square behind it holds an enemy pawn that has
/// just leaped.
pub open spec fn pawn_capture(
    g: Grid,
    pos: Pos,
    color: Color,
    orientation: Pos,
    side: Pos,
) -> Seq<Seq<Action>> {
    let target = pos.plus(side);
    let passed = target.plus(orientation.times(-1));
    if g.is_foe(target, color) {
        go(target)
    } else if g.is_free(target) && leaped_foe_pawn(g, passed, color) {
        seq![seq![Action::Go(target), Action::Take(passed)]]
    } else {
        Seq::empty()
    }
}

/// A pawn's captures, before promotion.
pub open spec fn pawn_captures(g: Grid, pos: Pos, color: Color, orientation: Pos) -> Seq<
    Seq<Action>,
> {
    pawn_capture(g, pos, color, orientation, orientation.side_steps()[0]) + pawn_capture(
        g,
        pos,
        color,
        orientation,
        orientation.side_steps()[1],
    )
}

/// Where a piece that starts at `pos` stands after the actions: the target of
/// the last `Go`, or `pos` if there is none.
pub open spec fn destination(pos: Pos, actions: Seq<Action>) -> Pos
    decreases actions.len(),
{
    if actions.len() == 0 {
        pos
    } else {
        match actions.last() {
            Action::Go(target) => target,
            _ => destination(pos, actions.drop_last()),
        }
    }
}

/// A pawn's move reaches the last rank when one more step along the pawn's
/// orientation would leave the board.
pub open spec fn reaches_last_rank(
    g: Grid,
    pos: Pos,
    orientation: Pos,
    actions: Seq<Action>,
) -> bool {
    g.at(destination(pos, actions).plus(orientation)) is None
}

/// A pawn's move with its promotions: a move that reaches the last rank
/// becomes two, one ending in a promotion to queen and one in a promotion to
/// knight; any other move stays as it is.
pub open spec fn promoted(g: Grid, pos: Pos, orientation: Pos, actions: Seq<Action>) -> Seq<
    Seq<Action>,
> {
    if reaches_last_rank(g, pos, orientation, actions) {
        seq![
            actions.push(Action::Promotion(Piece::Queen)),
            actions.push(Action::Promotion(Piece::Knight)),
        ]
    } else {
        seq![actions]
    }
}

/// The moves of a list with their promotions, in the order of the list.
pub open spec fn promotions(g: Grid, pos: Pos, orientation: Pos, moves: Seq<Seq<Action>>) -> Seq<
    Seq<Action>,
>
    decreases moves.len(),
{
    if moves.len() == 0 {
        Seq::empty()
    } else {
        promotions(g, pos, orientation, moves.drop_last()) + promoted(
            g,
            pos,
            orientation,
            moves.last(),
        )
    }
}

/// The captures a pawn offers.
pub open spec fn pawn_takes_of(g: Grid, pos: Pos, color: Color, orientation: Pos) -> Seq<
    Seq<Action>,
> {
    promotions(g, pos, orientation, pawn_captures(g, pos, color, orientation))
}

/// The moves a pawn offers: its advances, then its captures.
pub open spec fn pawn_moves_of(
    g: Grid,
    pos: Pos,
    color: Color,
    orientation: Pos,
    status: PawnStatus,
) -> Seq<Seq<Action>> {
    promotions(g, pos, orientation, pawn_steps(g, pos, orientation, status)) + pawn_takes_of(
        g,
        pos,
        color,
        orientation,
    )
}

impl Piece {
    /// The moves that a piece of this kind and of `color` offers from `pos`,
    /// without regard to the safety of its king.
    pub open spec fn moves_of(self, g: Grid, pos: Pos, color: Color) -> Seq<Seq<Action>> {
        match self {
            Piece::Pawn { orientation, status } => pawn_moves_of(
                g,
                pos,
                color,
                orientation,
                status,
            ),
            Piece::Knight => hops(g, pos, color, knight_offsets(), false),
            Piece::Bishop => rays(g, pos, color, diag_dirs(), false),
            Piece::Rook => rays(g, pos, color, line_dirs(), false),
            Piece::Queen => rays(g, pos, color, all_dirs(), false),
            Piece::King => hops(g, pos, color, all_dirs(), false),
        }
    }

    /// The captures among them.
    pub open spec fn takes_of(self, g: Grid, pos: Pos, color: Color) -> Seq<Seq<Action>> {
        match self {
            Piece::Pawn { orientation, status } => pawn_takes_of(g, pos, color, orientation),
            Piece::Knight => hops(g, pos, color, knight_offsets(), true),
            Piece::Bishop => rays(g, pos, color, diag_dirs(), true),
            Piece::Rook => rays(g, pos, color, line_dirs(), true),
            Piece::Queen => rays(g, pos, color, all_dirs(), true),
            Piece::King => hops(g, pos, color, all_dirs(), true),
        }
    }
}

/// A coordinate on a well-formed grid leaves room for two more steps in
/// either component.
pub proof fn lemma_in_bound_small(g: Grid, pos: Pos)
    requires
        g.wf(),
        g.in_bound(pos),
    ensures
        0 <= pos.0 <= i32::MAX - 3,
        0 <= pos.1 <= i32::MAX - 3,
{
    assert(pos.0 < g.width * g.height && pos.1 < g.width * g.height) by (nonlinear_arith)
        requires
            0 <= pos.0 < g.width,
            0 <= pos.1 < g.height,
    ;
}

/// Single steps are plain moves.
pub proof fn lemma_hops_plain(
    g: Grid,
    pos: Pos,
    color: Color,
    offsets: Seq<Pos>,
    capture_only: bool,
)
    ensures
        all_plain(g, color, hops(g, pos, color, offsets, capture_only)),
    decreases offsets.len(),
{
    if offsets.len() > 0 {
        lemma_hops_plain(g, pos, color, offsets.drop_last(), capture_only);
    }
}

/// The moves along a ray are plain moves.
pub proof fn lemma_ray_plain(g: Grid, from: Pos, dir: Pos, color: Color, capture_only: bool)
    ensures
        all_plain(g, color, ray(g, from, dir, color, capture_only)),
    decreases room(g, from, dir),
{
    let next = from.plus(dir);
    if dir.is_direction() && from.can_add(dir) && g.in_bound(next) && g.is_free(next) {
        lemma_ray_plain(g, next, dir, color, capture_only);
    }
}

/// The moves along rays are plain moves.
pub proof fn lemma_rays_plain(g: Grid, pos: Pos, color: Color, dirs: Seq<Pos>, capture_only: bool)
    ensures
        all_plain(g, color, rays(g, pos, color, dirs, capture_only)),
    decreases dirs.len(),
{
    if dirs.len() > 0 {
        lemma_rays_plain(g, pos, color, dirs.drop_last(), capture_only);
        lemma_ray_plain(g, pos, dirs.last(), color, capture_only);
    }
}

/// Whatever a piece offers has the generated form: a landing on a square
/// that holds no piece of its own side; for a pawn possibly an en passant
/// removal of an enemy piece, and possibly a promotion to queen or knight at
/// the end.
pub proof fn lemma_offers_shaped(piece: Piece, g: Grid, pos: Pos, color: Color)
    ensures
        all_shaped(g, color, piece is Pawn, piece.moves_of(g, pos, color)),
        all_shaped(g, color, piece is Pawn, piece.takes_of(g, pos, color)),
{
    match piece {
        Piece::Pawn { orientation, status } => {
            let steps = pawn_steps(g, pos, orientation, status);
            let captures = pawn_captures(g, pos, color, orientation);
            assert(all_plain(g, color, steps));
            assert(all_plain(g, color, captures));
            lemma_promotions_shaped(g, pos, orientation, color, steps);
            lemma_promotions_shaped(g, pos, orientation, color, captures);
        },
        Piece::Knight => {
            lemma_hops_plain(g, pos, color, knight_offsets(), false);
            lemma_hops_plain(g, pos, color, knight_offsets(), true);
        },
        Piece::Bishop => {
            lemma_rays_plain(g, pos, color, diag_dirs(), false);
            lemma_rays_plain(g, pos, color, diag_dirs(), true);
        },
        Piece::Rook => {
            lemma_rays_plain(g, pos, color, line_dirs(), false);
            lemma_rays_plain(g, pos, color, line_dirs(), true);
        },
        Piece::Queen => {
            lemma_rays_plain(g, pos, color, all_dirs(), false);
            lemma_rays_plain(g, pos, color, all_dirs(), true);
        },
        Piece::King => {
            lemma_hops_plain(g, pos, color, all_dirs(), false);
            lemma_hops_plain(g, pos, color, all_dirs(), true);
        },
    }
}

/// A move of the generated form names only squares of the board and
/// well-formed pieces.
pub proof fn lemma_shaped_accepted(g: Grid, color: Color, pawn: bool, actions: Seq<Action>)
    requires
        shaped(g, color, pawn, actions),
    ensures
        g.accepts(actions),
{
    if !plain(g, color, actions) {
        let body = actions.drop_last();
        assert(plain(g, color, body));
        assert forall|k: int| 0 <= k < actions.len() implies match #[trigger] actions[k] {
            Action::Go(target) => g.in_bound(target),
            Action::Take(target) => g.in_bound(target),
            Action::Promotion(piece) => piece.wf(),
        } by {
            if k < body.len() {
                assert(actions[k] == body[k]);
            }
        }
    }
}

/// Promotion keeps the generated form: from plain moves of a pawn it makes
/// moves of the form that a pawn offers.
pub proof fn lemma_promotions_shaped(
    g: Grid,
    pos: Pos,
    orientation: Pos,
    color: Color,
    moves: Seq<Seq<Action>>,
)
    requires
        all_plain(g, color, moves),
    ensures
        all_shaped(g, color, true, promotions(g, pos, orientation, moves)),
    decreases moves.len(),
{
    if moves.len() > 0 {
        let m = moves.last();
        lemma_promotions_shaped(g, pos, orientation, color, moves.drop_last());
        assert(plain(g, color, m));
        assert(m.push(Action::Promotion(Piece::Queen)).drop_last() == m);
        assert(m.push(Action::Promotion(Piece::Knight)).drop_last() == m);
    }
}

/// A pawn's move that reaches the last rank is offered in exactly two
/// variants, which differ only in their last action: a promotion to queen in
/// the first, to knight in the second. Any other move is offered once, as it
/// is.
pub proof fn lemma_promotion_variants(g: Grid, pos: Pos, orientation: Pos, actions: Seq<Action>)
    ensures
        promotions(g, pos, orientation, seq![actions]) == promoted(g, pos, orientation, actions),
        reaches_last_rank(g, pos, orientation, actions) ==> {
            let variants = promoted(g, pos, orientation, actions);
            &&& variants.len() == 2
            &&& variants[0].drop_last() == actions
            &&& variants[1].drop_last() == actions
            &&& variants[0].last() == Action::Promotion(Piece::Queen)
            &&& variants[1].last() == Action::Promotion(Piece::Knight)
        },
        !reaches_last_rank(g, pos, orientation, actions) ==> promoted(g, pos, orientation, actions)
            == seq![actions],
{
    assert(seq![actions].drop_last() == Seq::<Seq<Action>>::empty());
    assert(promotions(g, pos, orientation, Seq::<Seq<Action>>::empty()) == Seq::<
        Seq<Action>,
    >::empty());
    assert(actions.push(Action::Promotion(Piece::Queen)).drop_last() == actions);
    assert(actions.push(Action::Promotion(Piece::Knight)).drop_last() == actions);
}

/// Promotion treats each move of a list on its own: the promotions of two
/// lists joined are the promotions of the first followed by those of the
/// second.
pub proof fn lemma_promotions_concat(
    g: Grid,
    pos: Pos,
    orientation: Pos,
    first: Seq<Seq<Action>>,
    second: Seq<Seq<Action>>,
)
    ensures
        promotions(g, pos, orientation, first + second) == promotions(g, pos, orientation, first)
            + promotions(g, pos, orientation, second),
    decreases second.len(),
{
    if second.len() == 0 {
        assert(first + second == first);
    } else {
        assert((first + second).drop_last() == first + second.drop_last());
        lemma_promotions_concat(g, pos, orientation, first, second.drop_last());
    }
}

/// Joining two lists of moves joins what they aim at.
pub proof fn lemma_threat_concat(first: Seq<Seq<Action>>, second: Seq<Seq<Action>>, target: Pos)
    ensures
        any_threatens(first + second, target) <==> any_threatens(first, target) || any_threatens(
            second,
            target,
        ),
{
    let both = first + second;
    if any_threatens(both, target) {
        let i = choose|i: int| 0 <= i < both.len() && threatens(#[trigger] both[i], target);
        if i < first.len() {
            assert(threatens(first[i], target));
        } else {
            assert(threatens(second[i - first.len()], target));
        }
    }
    if any_threatens(first, target) {
        let i = choose|i: int| 0 <= i < first.len() && threatens(#[trigger] first[i], target);
        assert(threatens(both[i], target));
    }
    if any_threatens(second, target) {
        let i = choose|i: int| 0 <= i < second.len() && threatens(#[trigger] second[i], target);
        assert(threatens(both[first.len() + i], target));
    }
}

/// The move "go to `target`" aims at `target` and at nothing else.
pub proof fn lemma_threat_go(target: Pos, aim: Pos)
    ensures
        any_threatens(go(target), aim) <==> target == aim,
        !any_threatens(Seq::<Seq<Action>>::empty(), aim),
{
    let moves = go(target);
    if any_threatens(moves, aim) {
        let i = choose|i: int| 0 <= i < moves.len() && threatens(#[trigger] moves[i], aim);
        let k = choose|k: int| 0 <= k < moves[i].len() && hits(#[trigger] moves[i][k], aim);
    }
    if target == aim {
        assert(hits(moves[0][0], aim));
        assert(threatens(moves[0], aim));
    }
}

/// A single step onto a square that is not empty is a capture.
pub proof fn lemma_hops_threat(g: Grid, pos: Pos, color: Color, offsets: Seq<Pos>, aim: Pos)
    requires
        !g.is_free(aim),
    ensures
        any_threatens(hops(g, pos, color, offsets, false), aim) ==> any_threatens(
            hops(g, pos, color, offsets, true),
            aim,
        ),
    decreases offsets.len(),
{
    if offsets.len() > 0 {
        let shorter = offsets.drop_last();
        lemma_hops_threat(g, pos, color, shorter, aim);
        lemma_threat_concat(
            hops(g, pos, color, shorter, false),
            hop(g, pos, color, offsets.last(), false),
            aim,
        );
        lemma_threat_concat(
            hops(g, pos, color, shorter, true),
            hop(g, pos, color, offsets.last(), true),
            aim,
        );
        lemma_threat_go(pos.plus(offsets.last()), aim);
    } else {
        lemma_threat_go(pos, aim);
    }
}

/// A move along a ray onto a square that is not empty is a capture.
pub proof fn lemma_ray_threat(g: Grid, from: Pos, dir: Pos, color: Color, aim: Pos)
    requires
        !g.is_free(aim),
    ensures
        any_threatens(ray(g, from, dir, color, false), aim) ==> any_threatens(
            ray(g, from, dir, color, true),
            aim,
        ),
    decreases room(g, from, dir),
{
    let next = from.plus(dir);
    lemma_threat_go(next, aim);
    if dir.is_direction() && from.can_add(dir) && g.in_bound(next) && g.is_free(next) {
        lemma_ray_threat(g, next, dir, color, aim);
        lemma_threat_concat(go(next), ray(g, next, dir, color, false), aim);
        lemma_threat_concat(Seq::empty(), ray(g, next, dir, color, true), aim);
    }
}

/// A move along rays onto a square that is not empty is a capture.
pub proof fn lemma_rays_threat(g: Grid, pos: Pos, color: Color, dirs: Seq<Pos>, aim: Pos)
    requires
        !g.is_free(aim),
    ensures
        any_threatens(rays(g, pos, color, dirs, false), aim) ==> any_threatens(
            rays(g, pos, color, dirs, true),
            aim,
        ),
    decreases dirs.len(),
{
    if dirs.len() > 0 {
        let shorter = dirs.drop_last();
        lemma_rays_threat(g, pos, color, shorter, aim);
        lemma_ray_threat(g, pos, dirs.last(), color, aim);
        lemma_threat_concat(
            rays(g, pos, color, shorter, false),
            ray(g, pos, dirs.last(), color, false),
            aim,
        );
        lemma_threat_concat(
            rays(g, pos, color, shorter, true),
            ray(g, pos, dirs.last(), color, true),
            aim,
        );
    } else {
        lemma_threat_go(pos, aim);
    }
}

/// Promotion adds no square to those that a list of moves aims at.
pub proof fn lemma_promotions_threat(
    g: Grid,
    pos: Pos,
    orientation: Pos,
    moves: Seq<Seq<Action>>,
    aim: Pos,
)
    ensures
        any_threatens(promotions(g, pos, orientation, moves), aim) ==> any_threatens(moves, aim),
    decreases moves.len(),
{
    if moves.len() > 0 {
        let shorter = moves.drop_last();
        let last = moves.last();
        let variants = promoted(g, pos, orientation, last);
        lemma_promotions_threat(g, pos, orientation, shorter, aim);
        lemma_threat_concat(promotions(g, pos, orientation, shorter), variants, aim);
        if any_threatens(promotions(g, pos, orientation, shorter), aim) {
            let j = choose|j: int| 0 <= j < shorter.len() && threatens(#[trigger] shorter[j], aim);
            assert(threatens(moves[j], aim));
        }
        if any_threatens(variants, aim) {
            let i = choose|i: int|
                0 <= i < variants.len() && threatens(#[trigger] variants[i], aim);
            let k = choose|k: int|
                0 <= k < variants[i].len() && hits(#[trigger] variants[i][k], aim);
            assert(k < last.len());
            assert(hits(last[k], aim));
            assert(threatens(moves[moves.len() - 1], aim));
        }
    } else {
        lemma_threat_go(pos, aim);
    }
}

/// Whatever square a move of a piece names that is not empty, a capture of
/// the piece names too.
pub proof fn lemma_offers_threat(piece: Piece, g: Grid, pos: Pos, color: Color, aim: Pos)
    requires
        !g.is_free(aim),
    ensures
        any_threatens(piece.moves_of(g, pos, color), aim) ==> any_threatens(
            piece.takes_of(g, pos, color),
            aim,
        ),
{
    match piece {
        Piece::Pawn { orientation, status } => {
            let steps = pawn_steps(g, pos, orientation, status);
            let advances = promotions(g, pos, orientation, steps);
            lemma_threat_concat(advances, pawn_takes_of(g, pos, color, orientation), aim);
            lemma_promotions_threat(g, pos, orientation, steps, aim);
            lemma_threat_go(pos.plus(orientation), aim);
            lemma_threat_go(pos.plus(orientation.times(2)), aim);
            lemma_threat_concat(
                go(pos.plus(orientation)),
                go(pos.plus(orientation.times(2))),
                aim,
            );
        },
        Piece::Knight => {
            lemma_hops_threat(g, pos, color, knight_offsets(), aim);
        },
        Piece::Bishop => {
            lemma_rays_threat(g, pos, color, diag_dirs(), aim);
        },
        Piece::Rook => {
            lemma_rays_threat(g, pos, color, line_dirs(), aim);
        },
        Piece::Queen => {
            lemma_rays_threat(g, pos, color, all_dirs(), aim);
        },
        Piece::King => {
            lemma_hops_threat(g, pos, color, all_dirs(), aim);
        },
    }
}

/// A pawn next to an enemy pawn that has just leaped is offered the en passant
/// capture: it goes to the empty square that the enemy pawn passed over, its
/// own capture square on that side, and takes the pawn from the square beside
/// it. Where the capture does not end on the last rank, this two-action move
/// is among the pawn's captures and among its moves as it is.
pub proof fn lemma_en_passant_offered(
    g: Grid,
    pos: Pos,
    color: Color,
    orientation: Pos,
    status: PawnStatus,
    k: int,
)
    requires
        0 <= k < 2,
        g.is_free(pos.plus(orientation.side_steps()[k])),
        leaped_foe_pawn(
            g,
            pos.plus(orientation.side_steps()[k]).plus(orientation.times(-1)),
            color,
        ),
    ensures
        ({
            let target = pos.plus(orientation.side_steps()[k]);
            let passed = target.plus(orientation.times(-1));
            let capture = seq![Action::Go(target), Action::Take(passed)];
            let pawn = Piece::Pawn { orientation, status };
            &&& pawn_capture(g, pos, color, orientation, orientation.side_steps()[k]) == seq![
                capture,
            ]
            &&& !reaches_last_rank(g, pos, orientation, capture) ==> pawn.takes_of(
                g,
                pos,
                color,
            ).contains(capture) && pawn.moves_of(g, pos, color).contains(capture)
        }),
{
    let target = pos.plus(orientation.side_steps()[k]);
    let passed = target.plus(orientation.times(-1));
    let capture = seq![Action::Go(target), Action::Take(passed)];
    let first = pawn_capture(g, pos, color, orientation, orientation.side_steps()[0]);
    let second = pawn_capture(g, pos, color, orientation, orientation.side_steps()[1]);
    let advances = promotions(g, pos, orientation, pawn_steps(g, pos, orientation, status));
    let takes = pawn_takes_of(g, pos, color, orientation);
    if !reaches_last_rank(g, pos, orientation, capture) {
        lemma_promotions_concat(g, pos, orientation, first, second);
        lemma_promotion_variants(g, pos, orientation, capture);
        if k == 0 {
            assert(first == seq![capture]);
            assert(takes[0] == capture);
        } else {
            assert(second == seq![capture]);
            let before = promotions(g, pos, orientation, first).len() as int;
            assert(takes[before] == capture);
        }
        let at = choose|i: int| 0 <= i < takes.len() && takes[i] == capture;
        assert((advances + takes)[advances.len() + at] == capture);
    }
}

/// Copies a move.
pub fn copy_actions(actions: &Vec<Action>) -> (copy: Vec<Action>)
    ensures
        copy@ == actions@,
{
    let mut copy: Vec<Action> = Vec::new();
    let mut k: usize = 0;
    while k < actions.len()
        invariant
            k <= actions.len(),
            copy@ == actions@.take(k as int),
        decreases actions.len() - k,
    {
        copy.push(actions[k]);
        k = k + 1;
    }
    copy
}

/// Adds the move "go to `target`" to a list.
fn push_go(moves: &mut Vec<Vec<Action>>, target: Pos)
    ensures
        moves_view(final(moves)@) == moves_view(old(moves)@) + go(target),
{
    let mut actions: Vec<Action> = Vec::new();
    actions.push(Action::Go(target));
    moves.push(actions);
    assert(moves_view(moves@) =~= moves_view(old(moves)@) + go(target));
}

/// Adds a move to a list.
fn push_move(moves: &mut Vec<Vec<Action>>, actions: Vec<Action>)
    ensures
        moves_view(final(moves)@) == moves_view(old(moves)@).push(actions@),
{
    moves.push(actions);
    assert(moves_view(moves@) =~= moves_view(old(moves)@).push(actions@));
}

/// Where a piece that starts at `pos` stands after the actions.
fn destination_of(board: &Board, pos: Pos, actions: &Vec<Action>) -> (last_pos: Pos)
    requires
        board@.in_bound(pos),
        board@.accepts(actions@),
    ensures
        last_pos == destination(pos, actions@),
        board@.in_bound(last_pos),
{
    let mut last_pos = pos;
    let mut k: usize = 0;
    while k < actions.len()
        invariant
            k <= actions.len(),
            board@.in_bound(last_pos),
            board@.accepts(actions@),
            last_pos == destination(pos, actions@.take(k as int)),
        decreases actions.len() - k,
    {
        assert(actions@.take(k + 1).drop_last() == actions@.take(k as int));
        if let Action::Go(go_pos) = actions[k] {
            last_pos = go_pos;
        }
        k = k + 1;
    }
    assert(actions@.take(k as int) == actions@);
    last_pos
}

fn pawn_promotion(board: &Board, pos: Pos, orientation: Pos, moves: Vec<Vec<Action>>) -> (res:
    Vec<Vec<Action>>)
    requires
        board.wf(),
        board@.in_bound(pos),
        orientation.is_direction(),
        forall|i: int| 0 <= i < moves.len() ==> board@.accepts(#[trigger] moves[i]@),
    ensures
        moves_view(res@) == promotions(board@, pos, orientation, moves_view(moves@)),
{
    let mut res_prom: Vec<Vec<Action>> = Vec::new();
    let mut i: usize = 0;
    while i < moves.len()
        invariant
            i <= moves.len(),
            board.wf(),
            board@.in_bound(pos),
            orientation.is_direction(),
            forall|i: int| 0 <= i < moves.len() ==> board@.accepts(#[trigger] moves[i]@),
            moves_view(res_prom@) == promotions(
                board@,
                pos,
                orientation,
                moves_view(moves@).take(i as int),
            ),
        decreases moves.len() - i,
    {
        let actions = &moves[i];
        let last_pos = destination_of(board, pos, actions);
        proof {
            lemma_in_bound_small(board@, last_pos);
            assert(moves_view(moves@).take(i + 1).drop_last() == moves_view(moves@).take(
                i as int,
            ));
            assert(moves_view(moves@).take(i + 1).last() == actions@);
        }
        if board.get(last_pos + orientation).is_none() {
            let mut action_q = copy_actions(actions);
            action_q.push(Action::Promotion(Piece::Queen));
            let mut action_n = copy_actions(actions);
            action_n.push(Action::Promotion(Piece::Knight));
            push_move(&mut res_prom, action_q);
            push_move(&mut res_prom, action_n);
        } else {
            push_move(&mut res_prom, copy_actions(actions));
        }
        i = i + 1;
    }
    assert(moves_view(moves@).take(i as int) == moves_view(moves@));
    res_prom
}

/// Adds to `res` the capture that a pawn at `pos` has towards `diag_dir`.
fn pawn_capture_at(
    board: &Board,
    pos: Pos,
    color: Color,
    orientation: Pos,
    diag_dir: Pos,
    res: &mut Vec<Vec<Action>>,
)
    requires
        board.wf(),
        board@.in_bound(pos),
        orientation.is_direction(),
        diag_dir.is_direction(),
    ensures
        moves_view(final(res)@) == moves_view(old(res)@) + pawn_capture(
            board@,
            pos,
            color,
            orientation,
            diag_dir,
        ),
{
    proof {
        lemma_in_bound_small(board@, pos);
    }
    let diag_pos = diag_dir + pos;
    let diag = board.get(diag_pos);
    // if it's a square
    if let Some(square) = diag {
        // if there's a piece on a taking square
        if let Some((other_color, _)) = square {
            // if it's an opponent
            if color != *other_color {
                push_go(res, diag_pos);
            }
        } else {
            // the square is empty
            proof {
                lemma_in_bound_small(board@, diag_pos);
            }
            let en_passant_pos = diag_pos + orientation * -1;
            // if there's a piece in en passant pos
            if let Some(Some((other_color, piece))) = board.get(en_passant_pos) {
                // if it's an opponent
                if color != *other_color {
                    // if it's a pawn
                    if let Piece::Pawn { orientation: _, status } = piece {
                        // if it just leaped forward
                        if *status == PawnStatus::JustLeaped {
                            let mut actions: Vec<Action> = Vec::new();
                            actions.push(Action::Go(diag_pos));
                            actions.push(Action::Take(en_passant_pos));
                            assert(actions@ == seq![
                                Action::Go(diag_pos),
                                Action::Take(en_passant_pos),
                            ]);
                            push_move(res, actions);
                        }
                    }
                }
            }
        }
    }
    assert(moves_view(res@) =~= moves_view(old(res)@) + pawn_capture(
        board@,
        pos,
        color,
        orientation,
        diag_dir,
    ));
}

fn pawn_takes(board: &Board, pos: Pos, color: Color, orientation: Pos) -> (res: Vec<Vec<Action>>)
    requires
        board.wf(),
        board@.in_bound(pos),
        orientation.is_direction(),
    ensures
        moves_view(res@) == pawn_takes_of(board@, pos, color, orientation),
{
    let mut res: Vec<Vec<Action>> = Vec::new();
    // Taking moves
    let sides = orientation.neighbors();
    pawn_capture_at(board, pos, color, orientation, sides[0], &mut res);
    pawn_capture_at(board, pos, color, orientation, sides[1], &mut res);
    proof {
        let captures = pawn_captures(board@, pos, color, orientation);
        assert(moves_view(res@) =~= captures);
        assert(all_plain(board@, color, captures));
        assert forall|i: int| 0 <= i < res.len() implies board@.accepts(#[trigger] res[i]@) by {
            assert(plain(board@, color, captures[i]));
        }
    }
    pawn_promotion(board, pos, orientation, res)
}

fn pawn_moves(board: &Board, pos: Pos, color: Color, orientation: Pos, status: PawnStatus) -> (res:
    Vec<Vec<Action>>)
    requires
        board.wf(),
        board@.in_bound(pos),
        orientation.is_direction(),
    ensures
        moves_view(res@) == pawn_moves_of(board@, pos, color, orientation, status),
{
    let mut moves: Vec<Vec<Action>> = Vec::new();
    proof {
        lemma_in_bound_small(board@, pos);
    }
    // Non-Taking moves
    let forward_pos = orientation + pos;
    let leap_pos = orientation * 2 + pos;
    // if there is a free cell forward
    if let Some(None) = board.get(forward_pos) {
        push_go(&mut moves, forward_pos);
        // if we can leap
        if status == PawnStatus::CanLeap {
            // and the square is available
            if let Some(None) = board.get(leap_pos) {
                push_go(&mut moves, leap_pos);
            }
        }
    }
    proof {
        let steps = pawn_steps(board@, pos, orientation, status);
        assert(moves_view(moves@) =~= steps);
        assert(all_plain(board@, color, steps));
        assert forall|i: int| 0 <= i < moves.len() implies board@.accepts(
            #[trigger] moves[i]@,
        ) by {
            assert(plain(board@, color, steps[i]));
        }
    }
    let mut moves = pawn_promotion(board, pos, orientation, moves);
    let takes = pawn_takes(board, pos, color, orientation);
    let ghost advances = moves_view(moves@);
    let mut k: usize = 0;
    while k < takes.len()
        invariant
            k <= takes.len(),
            moves_view(moves@) == advances + moves_view(takes@).take(k as int),
        decreases takes.len() - k,
    {
        push_move(&mut moves, copy_actions(&takes[k]));
        k = k + 1;
    }
    assert(moves_view(takes@).take(k as int) == moves_view(takes@));
    moves
}

/// Calls `Itertools::cartesian_product` of the itertools crate and collects
/// what it yields. Taken on trust: it yields every pair (a, b) with a from
/// `firsts` and b from `seconds` once, for each a in turn the pairs with
/// every b in turn.
#[verifier::external_body]
fn cartesian_product(firsts: Vec<i32>, seconds: Vec<i32>) -> (pairs: Vec<(i32, i32)>)
    requires
        firsts.len() * seconds.len() <= usize::MAX,
    ensures
        pairs@ == pairs_of(firsts@, seconds@),
{
    firsts.into_iter().cartesian_product(seconds).collect()
}

/// The eight knight jumps.
fn knight_jumps() -> (jumps: Vec<Pos>)
    ensures
        jumps@ == knight_offsets(),
{
    let pairs = cartesian_product(vec![-2, 2], vec![-1, 1]);
    assert(pairs@.len() == 4);
    let mut jumps: Vec<Pos> = Vec::new();
    let mut k: usize = 0;
    while k < pairs.len()
        invariant
            k <= pairs.len(),
            jumps.len() == 2 * k,
            forall|j: int|
                0 <= j < k ==> jumps[2 * j] == Pos(pairs[j].0, pairs[j].1) && jumps[2 * j + 1]
                    == Pos(pairs[j].1, pairs[j].0),
        decreases pairs.len() - k,
    {
        let (long, short) = pairs[k];
        jumps.push(Pos(long, short));
        jumps.push(Pos(short, long));
        k = k + 1;
    }
    proof {
        assert(pairs[0] == (-2i32, -1i32));
        assert(pairs[1] == (-2i32, 1i32));
        assert(pairs[2] == (2i32, -1i32));
        assert(pairs[3] == (2i32, 1i32));
        assert(jumps[2 * 0int] == Pos(-2i32, -1i32));
        assert(jumps[2 * 1int] == Pos(-2i32, 1i32));
        assert(jumps[2 * 2int] == Pos(2i32, -1i32));
        assert(jumps[2 * 3int] == Pos(2i32, 1i32));
        assert(jumps@ =~= knight_offsets());
    }
    jumps
}

/// The single-step moves from `pos` by the given offsets.
fn hop_moves(board: &Board, pos: Pos, color: Color, offsets: &[Pos], capture_only: bool) -> (moves:
    Vec<Vec<Action>>)
    requires
        board.wf(),
        board@.in_bound(pos),
        forall|k: int|
            0 <= k < offsets@.len() ==> -2 <= (#[trigger] offsets@[k]).0 <= 2 && -2
                <= offsets@[k].1 <= 2,
    ensures
        moves_view(moves@) == hops(board@, pos, color, offsets@, capture_only),
{
    let mut moves: Vec<Vec<Action>> = Vec::new();
    let mut k: usize = 0;
    proof {
        lemma_in_bound_small(board@, pos);
    }
    while k < offsets.len()
        invariant
            k <= offsets@.len(),
            board.wf(),
            board@.in_bound(pos),
            0 <= pos.0 <= i32::MAX - 3,
            0 <= pos.1 <= i32::MAX - 3,
            forall|k: int|
                0 <= k < offsets@.len() ==> -2 <= (#[trigger] offsets@[k]).0 <= 2 && -2
                    <= offsets@[k].1 <= 2,
            moves_view(moves@) == hops(board@, pos, color, offsets@.take(k as int), capture_only),
            decreases offsets@.len() - k,
    {
        assert(offsets@.take(k + 1).drop_last() == offsets@.take(k as int));
        let take_pos = offsets[k] + pos;
        if let Some(square) = board.get(take_pos) {
            if let Some((other_color, _)) = square {
                if color != *other_color {
                    push_go(&mut moves, take_pos);
                }
            } else if !capture_only {
                push_go(&mut moves, take_pos);
            }
        }
        k = k + 1;
    }
    assert(offsets@.take(k as int) == offsets@);
    moves
}

fn knight_takes(board: &Board, pos: Pos, color: Color) -> (moves: Vec<Vec<Action>>)
    requires
        board.wf(),
        board@.in_bound(pos),
    ensures
        moves_view(moves@) == hops(board@, pos, color, knight_offsets(), true),
{
    let jumps = knight_jumps();
    hop_moves(board, pos, color, jumps.as_slice(), true)
}

fn knight_moves(board: &Board, pos: Pos, color: Color) -> (moves: Vec<Vec<Action>>)
    requires
        board.wf(),
        board@.in_bound(pos),
    ensures
        moves_view(moves@) == hops(board@, pos, color, knight_offsets(), false),
{
    let jumps = knight_jumps();
    hop_moves(board, pos, color, jumps.as_slice(), false)
}

/// The moves along the rays from `pos` in the given directions.
fn slide(board: &Board, pos: Pos, color: Color, dirs: &[Pos], capture_only: bool) -> (moves: Vec<
    Vec<Action>,
>)
    requires
        board.wf(),
        board@.in_bound(pos),
        forall|k: int| 0 <= k < dirs@.len() ==> (#[trigger] dirs@[k]).is_direction(),
    ensures
        moves_view(moves@) == rays(board@, pos, color, dirs@, capture_only),
{
    let mut moves: Vec<Vec<Action>> = Vec::new();
    let mut k: usize = 0;
    while k < dirs.len()
        invariant
            k <= dirs@.len(),
            board.wf(),
            board@.in_bound(pos),
            forall|k: int| 0 <= k < dirs@.len() ==> (#[trigger] dirs@[k]).is_direction(),
            moves_view(moves@) == rays(board@, pos, color, dirs@.take(k as int), capture_only),
            decreases dirs@.len() - k,
    {
        assert(dirs@.take(k + 1).drop_last() == dirs@.take(k as int));
        let dir = dirs[k];
        let ghost before = moves_view(moves@);
        let mut curr_pos = pos;
        loop
            invariant_except_break
                moves_view(moves@) + ray(board@, curr_pos, dir, color, capture_only) == before
                    + ray(board@, pos, dir, color, capture_only),
            invariant
                board.wf(),
                board@.in_bound(curr_pos),
                dir.is_direction(),
                    ensures
                moves_view(moves@) == before + ray(board@, pos, dir, color, capture_only),
            decreases room(board@, curr_pos, dir),
        {
            proof {
                lemma_in_bound_small(board@, curr_pos);
            }
            let ghost so_far = moves_view(moves@);
            let next_pos = curr_pos + dir;
            let line = board.get(next_pos);
            if let Some(square) = line {
                if let Some((other_color, _)) = square {
                    // it's a square with a piece
                    if color != *other_color {
                        // it's a square with an opponent
                        push_go(&mut moves, next_pos);
                    }
                    assert(moves_view(moves@) == so_far + ray(
                        board@,
                        curr_pos,
                        dir,
                        color,
                        capture_only,
                    ));
                    break ;
                } else {
                    // it's a free square
                    if !capture_only {
                        push_go(&mut moves, next_pos);
                    }
                    assert(moves_view(moves@) + ray(board@, next_pos, dir, color, capture_only)
                        == so_far + ray(board@, curr_pos, dir, color, capture_only));
                    curr_pos = next_pos;
                }
            } else {
                // it's out of the board
                assert(ray(board@, curr_pos, dir, color, capture_only) == Seq::<
                    Seq<Action>,
                >::empty());
                assert(moves_view(moves@) == so_far + ray(
                    board@,
                    curr_pos,
                    dir,
                    color,
                    capture_only,
                ));
                break ;
            }
        }
        k = k + 1;
    }
    assert(dirs@.take(k as int) == dirs@);
    moves
}

fn los_takes(board: &Board, pos: Pos, color: Color, dirs: &[Pos]) -> (moves: Vec<Vec<Action>>)
    requires
        board.wf(),
        board@.in_bound(pos),
        forall|k: int| 0 <= k < dirs@.len() ==> (#[trigger] dirs@[k]).is_direction(),
    ensures
        moves_view(moves@) == rays(board@, pos, color, dirs@, true),
{
    slide(board, pos, color, dirs, true)
}

fn los_moves(board: &Board, pos: Pos, color: Color, dirs: &[Pos]) -> (moves: Vec<Vec<Action>>)
    requires
        board.wf(),
        board@.in_bound(pos),
        forall|k: int| 0 <= k < dirs@.len() ==> (#[trigger] dirs@[k]).is_direction(),
    ensures
        moves_view(moves@) == rays(board@, pos, color, dirs@, false),
{
    slide(board, pos, color, dirs, false)
}

fn king_takes(board: &Board, pos: Pos, color: Color) -> (moves: Vec<Vec<Action>>)
    requires
        board.wf(),
        board@.in_bound(pos),
    ensures
        moves_view(moves@) == hops(board@, pos, color, all_dirs(), true),
{
    let dirs = los();
    hop_moves(board, pos, color, &dirs, true)
}

fn king_moves(board: &Board, pos: Pos, color: Color) -> (moves: Vec<Vec<Action>>)
    requires
        board.wf(),
        board@.in_bound(pos),
    ensures
        moves_view(moves@) == hops(board@, pos, color, all_dirs(), false),
{
    // There is no castling: pieces are placed before the game starts.
    let dirs = los();
    hop_moves(board, pos, color, &dirs, false)
}

impl Piece {
    /// The moves this piece offers from `pos` as a piece of `color`, captures
    /// included, without regard to the safety of its king.
    pub fn moves(self, board: &Board, pos: Pos, color: Color) -> (moves: Vec<Vec<Action>>)
        requires
            board.wf(),
            board@.in_bound(pos),
            self.wf(),
        ensures
            moves_view(moves@) == self.moves_of(board@, pos, color),
            all_shaped(board@, color, self is Pawn, moves_view(moves@)),
    {
        proof {
            lemma_offers_shaped(self, board@, pos, color);
        }
        match self {
            Piece::Pawn { orientation, status } => pawn_moves(
                board,
                pos,
                color,
                orientation,
                status,
            ),
            Piece::Knight => knight_moves(board, pos, color),
            Piece::Bishop => los_moves(board, pos, color, &diags()),
            Piece::Rook => los_moves(board, pos, color, &lines()),
            Piece::Queen => los_moves(board, pos, color, &los()),
            Piece::King => king_moves(board, pos, color),
        }
    }

    /// The captures this piece offers from `pos` as a piece of `color`.
    pub fn takes(self, board: &Board, pos: Pos, color: Color) -> (moves: Vec<Vec<Action>>)
        requires
            board.wf(),
            board@.in_bound(pos),
            self.wf(),
        ensures
            moves_view(moves@) == self.takes_of(board@, pos, color),
            all_shaped(board@, color, self is Pawn, moves_view(moves@)),
    {
        proof {
            lemma_offers_shaped(self, board@, pos, color);
        }
        match self {
            Piece::Pawn { orientation, status: _ } => pawn_takes(board, pos, color, orientation),
            Piece::Knight => knight_takes(board, pos, color),
            Piece::Bishop => los_takes(board, pos, color, &diags()),
            Piece::Rook => los_takes(board, pos, color, &lines()),
            Piece::Queen => los_takes(board, pos, color, &los()),
            Piece::King => king_takes(board, pos, color),
        }
    }
}

} // verus!
