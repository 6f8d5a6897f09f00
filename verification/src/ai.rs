//! The automated opponent: a depth-limited negamax search with alpha-beta
//! pruning and a quiescence extension, over scores counted in hundredths of a
//! pawn.

use crate::board::{
    all_offered, cands_view, lemma_candidates_offered, lemma_own_king_stays, lemma_play_wf,
    lemma_unattacked_king_stays, Board, Grid,
};
use crate::order::{arranged, is_permutation, keys_view, lemma_ranking, order_view, rank, ranking};
use crate::piece::{copy_actions, lemma_shaped_accepted, Action, Color, Piece, Square};
use crate::pos::Pos;
use rand::rngs::ThreadRng;
use rand::seq::SliceRandom;
use vstd::prelude::*;

verus! {

/// The score of a won position, and the upper end of every search window.
/// Its negation is the score of a lost one.
pub const INFINITE: i128 = 0x7fff_ffff_ffff_ffff_ffff_ffff_ffff_ffff;

/// The depth at which the quiescence extension ends.
pub const MAX_DEPTH: i32 = -6;

/// The material value of a piece, in hundredths of a pawn.
pub open spec fn value_of(piece: Piece) -> int {
    match piece {
        Piece::Pawn { .. } => 100,
        Piece::Knight => 300,
        Piece::Bishop => 350,
        Piece::Rook => 500,
        Piece::Queen => 900,
        Piece::King => 100_000,
    }
}

/// What a square counts for: the value of a white piece, the negated value
/// of a black one.
pub open spec fn square_value(square: Square) -> int {
    match square {
        Some((Color::White, piece)) => value_of(piece),
        Some((Color::Black, piece)) => -value_of(piece),
        None => 0,
    }
}

/// The material balance of the squares, from White's side.
pub open spec fn material(squares: Seq<Square>) -> int
    decreases squares.len(),
{
    if squares.len() == 0 {
        0
    } else {
        material(squares.drop_last()) + square_value(squares.last())
    }
}

/// The material balance of the grid, from the side of `color`.
pub open spec fn standing(g: Grid, color: Color) -> int {
    if color == Color::White {
        material(g.squares)
    } else {
        -material(g.squares)
    }
}

/// What one action wins for `color`: the value of an enemy piece on the
/// square it goes to or clears (the negated value of an own piece), or the
/// value of the piece it promotes to.
pub open spec fn gain_of(g: Grid, color: Color, action: Action) -> int {
    match action {
        Action::Go(target) => captured(g, color, target),
        Action::Take(target) => captured(g, color, target),
        Action::Promotion(piece) => value_of(piece),
    }
}

/// The value for `color` of removing what stands on `target`.
pub open spec fn captured(g: Grid, color: Color, target: Pos) -> int {
    match g.at(target) {
        Some(Some((owner, piece))) => if owner == color {
            -value_of(piece)
        } else {
            value_of(piece)
        },
        _ => 0,
    }
}

/// What the actions win for `color`, all together.
pub open spec fn gains(g: Grid, color: Color, actions: Seq<Action>) -> int
    decreases actions.len(),
{
    if actions.len() == 0 {
        0
    } else {
        gains(g, color, actions.drop_last()) + gain_of(g, color, actions.last())
    }
}

/// The estimate by which moves are ordered: the material the move wins, less
/// nine tenths of the moving piece's own value where it wins any, as if the
/// piece were then lost nine times out of ten.
pub open spec fn move_worth(g: Grid, origin: Pos, actions: Seq<Action>) -> int {
    let (color, piece) = g.at(origin).unwrap().unwrap();
    let won = gains(g, color, actions);
    if won > 0 {
        won - value_of(piece) * 9 / 10
    } else {
        won
    }
}

/// The larger of two scores.
pub open spec fn higher(a: int, b: int) -> int {
    if a >= b {
        a
    } else {
        b
    }
}

/// The value of the position for `color`, the side to move, searched `depth`
/// plies deep. At `MAX_DEPTH` and below it is the material balance. From there
/// up to depth 0 the side to move chooses between standing pat on the
/// material balance and its best capture. Above depth 0 it is the value of
/// its best move, and minus `INFINITE` if it has none. Moves are followed
/// without regard to the safety of the mover's king.
pub open spec fn search_value(g: Grid, depth: int, color: Color) -> int
    decreases depth - MAX_DEPTH, 1int, 0int,
{
    if depth <= MAX_DEPTH {
        standing(g, color)
    } else if depth <= 0 {
        higher(standing(g, color), best_reply(g, depth, color, g.takes(color, false)))
    } else {
        best_reply(g, depth, color, g.moves(color, false))
    }
}

/// The value for `color` of the best of the candidates: the highest negated
/// value that the other side has after one of them.
pub open spec fn best_reply(
    g: Grid,
    depth: int,
    color: Color,
    cands: Seq<(Pos, Seq<Action>)>,
) -> int
    decreases depth - MAX_DEPTH, 0int, cands.len(),
{
    if cands.len() == 0 || depth <= MAX_DEPTH {
        -INFINITE
    } else {
        higher(
            best_reply(g, depth, color, cands.drop_last()),
            -search_value(
                g.play(color, cands.last().0, cands.last().1),
                depth - 1,
                color.other(),
            ),
        )
    }
}

/// The value for `color` of one candidate.
pub open spec fn reply_value(g: Grid, depth: int, color: Color, cand: (Pos, Seq<Action>)) -> int {
    -search_value(g.play(color, cand.0, cand.1), depth - 1, color.other())
}

/// How far the search of a position has come: the best reply found so far,
/// the lower end of the window raised to it, and whether the search has been
/// cut off because the lower end has reached the upper one.
pub struct Sweep {
    pub best: int,
    pub raised: int,
    pub cut: bool,
}

/// What the search of a position reports when it looks `depth` plies deep
/// within the window from `alpha` to `beta`. At `MAX_DEPTH` and below that is
/// the material balance. Else the candidates are tried in the order of their
/// estimates, captures only up to depth 0. If the search is cut off, it
/// reports the raised lower end of the window; else the best reply, and up to
/// depth 0 the material balance where that is higher.
pub open spec fn found_value(g: Grid, depth: int, alpha: int, beta: int, color: Color) -> int
    decreases depth - MAX_DEPTH, 1int, 0int,
{
    if depth <= MAX_DEPTH {
        standing(g, color)
    } else {
        let tried = tried_order(
            g,
            if depth <= 0 {
                g.takes(color, false)
            } else {
                g.moves(color, false)
            },
        );
        let end = sweep(g, depth, alpha, beta, color, tried, tried.len() as int);
        if end.cut {
            end.raised
        } else if depth <= 0 {
            higher(end.best, standing(g, color))
        } else {
            end.best
        }
    }
}

/// How far the search has come when it has tried the first `n` candidates.
/// Each candidate is searched within the window turned round, from minus
/// `beta` to minus the lower end as raised so far; once the lower end has
/// reached `beta`, no further candidate is tried.
pub open spec fn sweep(
    g: Grid,
    depth: int,
    alpha: int,
    beta: int,
    color: Color,
    tried: Seq<(Pos, Seq<Action>)>,
    n: int,
) -> Sweep
    decreases depth - MAX_DEPTH, 0int, n,
{
    if n <= 0 || depth <= MAX_DEPTH {
        Sweep { best: -INFINITE, raised: alpha, cut: false }
    } else {
        let before = sweep(g, depth, alpha, beta, color, tried, n - 1);
        if before.cut {
            before
        } else {
            let reply = -found_value(
                g.play(color, tried[n - 1].0, tried[n - 1].1),
                depth - 1,
                -beta,
                -before.raised,
                color.other(),
            );
            let best = higher(before.best, reply);
            let raised = higher(before.raised, best);
            Sweep { best, raised, cut: raised >= beta }
        }
    }
}

/// What a search within the window from `alpha` to `beta` has found of a
/// position's value: the value itself where it lies inside the window, and
/// else a bound on the same side of the window as the value.
pub open spec fn brackets(value: int, alpha: int, beta: int, found: int) -> bool {
    &&& value <= alpha ==> found <= alpha
    &&& alpha < value < beta ==> found == value
    &&& value >= beta ==> found >= beta
}

/// The largest material balance a grid of this size can have.
pub open spec fn limit(g: Grid) -> int {
    100_000 * (g.squares.len() as int)
}

/// A score of a position on `g`: a material balance, or plus or minus
/// `INFINITE`.
pub open spec fn is_score(g: Grid, score: int) -> bool {
    score == INFINITE || score == -INFINITE || -limit(g) <= score <= limit(g)
}

/// The estimates of the candidates, one for each.
pub open spec fn worths(g: Grid, cands: Seq<(Pos, Seq<Action>)>) -> Seq<int> {
    Seq::new(cands.len(), |k: int| move_worth(g, cands[k].0, cands[k].1))
}

/// The candidates in the order in which they are tried: the highest estimate
/// first, candidates of equal estimate in the order in which they were
/// generated.
pub open spec fn tried_order(g: Grid, cands: Seq<(Pos, Seq<Action>)>) -> Seq<(Pos, Seq<Action>)> {
    arranged(cands, ranking(worths(g, cands)))
}

/// The mobility bonus: a hundredth of a pawn for each move that the mover
/// has more than the other side, a pawn at most.
pub open spec fn mobility(own: int, theirs: int) -> int {
    if own - theirs < 100 {
        own - theirs
    } else {
        100
    }
}

/// The score that the search reports for a move of `color`. Where the other
/// side has no legal move afterwards, it is `INFINITE` if that side's king is
/// attacked and 0 if it is not. Else it is the negated value of the position
/// for the other side, searched `depth - 1` plies deep, plus the mobility
/// bonus (an infinite value stays as it is). Both counts that go into the
/// bonus are of legal moves: moves that leave the king of the side that makes
/// them unattacked.
pub open spec fn root_score(g: Grid, color: Color, depth: int, cand: (Pos, Seq<Action>)) -> int {
    let after = g.play(color, cand.0, cand.1);
    let raw = -search_value(after, depth - 1, color.other());
    let own = after.moves(color, true).len() as int;
    let theirs = after.moves(color.other(), true).len() as int;
    if theirs == 0 {
        if after.is_checked(color.other()) {
            INFINITE as int
        } else {
            0
        }
    } else if raw == INFINITE || raw == -INFINITE {
        raw
    } else {
        raw + mobility(own, theirs)
    }
}

/// The legal moves of `color` in the order in which they are tried, each with
/// its score.
pub open spec fn scored(g: Grid, color: Color, depth: int) -> Seq<(int, Pos, Seq<Action>)> {
    let tried = tried_order(g, g.moves(color, true));
    Seq::new(tried.len(), |k: int| (root_score(g, color, depth, tried[k]), tried[k].0, tried[k].1))
}

/// The first components of the triples.
pub open spec fn scores(list: Seq<(int, Pos, Seq<Action>)>) -> Seq<int> {
    Seq::new(list.len(), |k: int| list[k].0)
}

/// The legal moves of `color` with their scores, the highest score first;
/// moves of equal score in the order in which they were tried.
pub open spec fn ranked(g: Grid, color: Color, depth: int) -> Seq<(int, Pos, Seq<Action>)> {
    arranged(scored(g, color, depth), ranking(scores(scored(g, color, depth))))
}

/// The scored candidates of a list, each as a score, a coordinate and a
/// sequence of actions.
pub open spec fn scored_view(list: Seq<(i128, Pos, Vec<Action>)>) -> Seq<(int, Pos, Seq<Action>)> {
    Seq::new(list.len(), |k: int| (list[k].0 as int, list[k].1, list[k].2@))
}

/// A search that has been cut off tries no further candidate.
pub proof fn lemma_sweep_cut(
    g: Grid,
    depth: int,
    alpha: int,
    beta: int,
    color: Color,
    tried: Seq<(Pos, Seq<Action>)>,
    n: int,
    m: int,
)
    requires
        n <= m,
        sweep(g, depth, alpha, beta, color, tried, n).cut,
    ensures
        sweep(g, depth, alpha, beta, color, tried, m) == sweep(
            g,
            depth,
            alpha,
            beta,
            color,
            tried,
            n,
        ),
    decreases m - n,
{
    if n < m {
        lemma_sweep_cut(g, depth, alpha, beta, color, tried, n, m - 1);
    }
}

/// The material balance stays within the limit of its grid.
pub proof fn lemma_material_bound(squares: Seq<Square>)
    ensures
        -100_000 * squares.len() <= material(squares) <= 100_000 * squares.len(),
    decreases squares.len(),
{
    if squares.len() > 0 {
        lemma_material_bound(squares.drop_last());
    }
}

/// The best reply is at least as good as every candidate, and it is the value
/// of one of them unless there is none.
pub proof fn lemma_best_reply_bounds(
    g: Grid,
    depth: int,
    color: Color,
    cands: Seq<(Pos, Seq<Action>)>,
)
    requires
        depth > MAX_DEPTH,
    ensures
        forall|i: int|
            0 <= i < cands.len() ==> best_reply(g, depth, color, cands) >= reply_value(
                g,
                depth,
                color,
                #[trigger] cands[i],
            ),
        best_reply(g, depth, color, cands) >= -INFINITE,
        best_reply(g, depth, color, cands) == -INFINITE || exists|i: int|
            0 <= i < cands.len() && best_reply(g, depth, color, cands) == reply_value(
                g,
                depth,
                color,
                #[trigger] cands[i],
            ),
    decreases cands.len(),
{
    if cands.len() > 0 {
        let shorter = cands.drop_last();
        lemma_best_reply_bounds(g, depth, color, shorter);
        let best = best_reply(g, depth, color, cands);
        let last = reply_value(g, depth, color, cands.last());
        assert(best == higher(best_reply(g, depth, color, shorter), last));
        assert forall|i: int| 0 <= i < cands.len() implies best >= reply_value(
            g,
            depth,
            color,
            #[trigger] cands[i],
        ) by {
            if i < shorter.len() {
                assert(shorter[i] == cands[i]);
            }
        }
        if best == last {
            assert(best == reply_value(g, depth, color, cands[cands.len() - 1]));
        } else if best != -INFINITE {
            let i = choose|i: int|
                0 <= i < shorter.len() && best_reply(g, depth, color, shorter) == reply_value(
                    g,
                    depth,
                    color,
                    #[trigger] shorter[i],
                );
            assert(shorter[i] == cands[i]);
            assert(best == reply_value(g, depth, color, cands[i]));
        }
    }
}

/// The best reply does not depend on the order in which the candidates are
/// tried.
pub proof fn lemma_best_reply_arranged(
    g: Grid,
    depth: int,
    color: Color,
    cands: Seq<(Pos, Seq<Action>)>,
    order: Seq<int>,
)
    requires
        depth > MAX_DEPTH,
        is_permutation(order, cands.len() as int),
    ensures
        best_reply(g, depth, color, arranged(cands, order)) == best_reply(g, depth, color, cands),
{
    let tried = arranged(cands, order);
    let one = best_reply(g, depth, color, cands);
    let other = best_reply(g, depth, color, tried);
    lemma_best_reply_bounds(g, depth, color, cands);
    lemma_best_reply_bounds(g, depth, color, tried);
    if one != -INFINITE {
        let i = choose|i: int|
            0 <= i < cands.len() && one == reply_value(g, depth, color, #[trigger] cands[i]);
        assert(order.contains(i));
        let k = choose|k: int| 0 <= k < order.len() && order[k] == i;
        assert(tried[k] == cands[i]);
    }
    assert(other >= one);
    if other != -INFINITE {
        let k = choose|k: int|
            0 <= k < tried.len() && other == reply_value(g, depth, color, #[trigger] tried[k]);
        assert(tried[k] == cands[order[k]]);
    }
    assert(one >= other);
}

/// The value of a position on a well-formed grid is a score of that grid.
pub proof fn lemma_search_value_range(g: Grid, depth: int, color: Color)
    requires
        g.wf(),
    ensures
        is_score(g, search_value(g, depth, color)),
    decreases depth - MAX_DEPTH, 1int, 0int,
{
    lemma_material_bound(g.squares);
    if depth > MAX_DEPTH {
        let cands = if depth <= 0 {
            g.takes(color, false)
        } else {
            g.moves(color, false)
        };
        lemma_candidates_offered(g, color, depth <= 0, false, g.squares.len() as int);
        lemma_best_reply_range(g, depth, color, cands);
    }
}

/// The value of the best of the candidates that a well-formed grid offers is a
/// score of that grid.
pub proof fn lemma_best_reply_range(
    g: Grid,
    depth: int,
    color: Color,
    cands: Seq<(Pos, Seq<Action>)>,
)
    requires
        g.wf(),
        all_offered(g, color, cands),
    ensures
        is_score(g, best_reply(g, depth, color, cands)),
    decreases depth - MAX_DEPTH, 0int, cands.len(),
{
    if cands.len() > 0 && depth > MAX_DEPTH {
        let shorter = cands.drop_last();
        assert forall|i: int| 0 <= i < shorter.len() implies g.offers(
            color,
            (#[trigger] shorter[i]).0,
            shorter[i].1,
        ) by {
            assert(shorter[i] == cands[i]);
        }
        lemma_best_reply_range(g, depth, color, shorter);
        let cand = cands.last();
        assert(cand == cands[cands.len() - 1]);
        assert(g.offers(color, cand.0, cand.1));
        lemma_shaped_accepted(g, color, g.at(cand.0).unwrap().unwrap().1 is Pawn, cand.1);
        lemma_play_wf(g, color, cand.0, cand.1);
        lemma_search_value_range(g.play(color, cand.0, cand.1), depth - 1, color.other());
    }
}

/// The material value of a piece, in hundredths of a pawn: pawn 100, knight
/// 300, bishop 350, rook 500, queen 900, king 100 000.
pub fn piece_value(piece: Piece) -> (value: i128)
    ensures
        value == value_of(piece),
{
    match piece {
        Piece::Pawn { orientation: _, status: _ } => 100,
        Piece::Knight => 300,
        Piece::Bishop => 350,
        Piece::Rook => 500,
        Piece::Queen => 900,
        Piece::King => 100_000,
    }
}

/// What removing the piece on `target`, if there is one, is worth to `color`.
fn capture_value(board: &Board, color: Color, target: Pos) -> (value: i128)
    requires
        board.wf(),
    ensures
        value == captured(board@, color, target),
        -100_000 <= value <= 100_000,
{
    if let Some(Some((o_color, o_piece))) = board.get(target) {
        if *o_color == color {
            -piece_value(*o_piece)
        } else {
            piece_value(*o_piece)
        }
    } else {
        0
    }
}

/// The estimate by which the moves of the piece at `pos` are ordered: the
/// material value of the move, assuming that a piece which wins any material
/// is then lost nine times out of ten.
pub fn move_value(board: &Board, pos: Pos, actions: &Vec<Action>) -> (value: i128)
    requires
        board.wf(),
        board@.at(pos) matches Some(Some(_)),
    ensures
        value == move_worth(board@, pos, actions@),
{
    let (color, piece) = board.get(pos).unwrap().unwrap();
    let mut value: i128 = 0;
    let mut k: usize = 0;
    while k < actions.len()
        invariant
            k <= actions.len(),
            board.wf(),
            value == gains(board@, color, actions@.take(k as int)),
            -100_000 * k <= value <= 100_000 * k,
        decreases actions.len() - k,
    {
        assert(actions@.take(k + 1).drop_last() == actions@.take(k as int));
        match actions[k] {
            Action::Go(go_pos) => {
                value = value + capture_value(board, color, go_pos);
            },
            Action::Take(take_pos) => {
                value = value + capture_value(board, color, take_pos);
            },
            Action::Promotion(n_piece) => {
                value = value + piece_value(n_piece);
            },
        }
        k = k + 1;
    }
    assert(actions@.take(k as int) == actions@);
    if value > 0 {
        value = value - piece_value(piece) * 9 / 10;
    }
    value
}

/// The material balance of the board, from White's side.
pub fn mat_score(board: &Board) -> (value: i128)
    ensures
        value == material(board@.squares),
        -limit(board@) <= value <= limit(board@),
{
    let mut value: i128 = 0;
    let mut i: usize = 0;
    while i < board.squares.len()
        invariant
            i <= board.squares.len(),
            value == material(board@.squares.take(i as int)),
            -100_000 * i <= value <= 100_000 * i,
        decreases board.squares.len() - i,
    {
        assert(board@.squares.take(i + 1).drop_last() == board@.squares.take(i as int));
        if let Some((color, piece)) = board.squares[i] {
            if color == Color::White {
                value = value + piece_value(piece);
            } else {
                value = value - piece_value(piece);
            }
        }
        i = i + 1;
    }
    assert(board@.squares.take(i as int) == board@.squares);
    value
}

/// The material balance of the board, from the side of `color`.
fn standing_of(board: &Board, color: Color) -> (value: i128)
    ensures
        value == standing(board@, color),
        -limit(board@) <= value <= limit(board@),
{
    let balance = mat_score(board);
    assert(board@.squares.len() == board.squares.len());
    if color == Color::White {
        balance
    } else {
        -balance
    }
}

/// The candidates in the order in which they are tried: sorted by their
/// estimate, the highest first, candidates of equal estimate as they came.
fn order_moves(board: &Board, moves: Vec<(Pos, Vec<Action>)>) -> (tried: Vec<(Pos, Vec<Action>)>)
    requires
        board.wf(),
        forall|i: int|
            0 <= i < moves.len() ==> board@.at((#[trigger] moves[i]).0) matches Some(Some(_)),
    ensures
        cands_view(tried@) == tried_order(board@, cands_view(moves@)),
{
    let mut keys: Vec<i128> = Vec::new();
    let mut i: usize = 0;
    while i < moves.len()
        invariant
            i <= moves.len(),
            board.wf(),
            forall|i: int|
                0 <= i < moves.len() ==> board@.at((#[trigger] moves[i]).0) matches Some(Some(_)),
            keys_view(keys@) == worths(board@, cands_view(moves@)).take(i as int),
        decreases moves.len() - i,
    {
        let ghost so_far = keys_view(keys@);
        let key = move_value(board, moves[i].0, &moves[i].1);
        keys.push(key);
        assert(keys_view(keys@) == so_far.push(key as int));
        assert(worths(board@, cands_view(moves@)).take(i + 1) == worths(
            board@,
            cands_view(moves@),
        ).take(i as int).push(key as int));
        i = i + 1;
    }
    assert(worths(board@, cands_view(moves@)).take(i as int) == worths(board@, cands_view(moves@)));
    let order = rank(&keys);
    proof {
        lemma_ranking(keys_view(keys@));
    }
    let mut tried: Vec<(Pos, Vec<Action>)> = Vec::new();
    let mut k: usize = 0;
    while k < order.len()
        invariant
            k <= order.len(),
            order@.len() == moves@.len(),
            is_permutation(order_view(order@), moves@.len() as int),
            cands_view(tried@) == arranged(cands_view(moves@), order_view(order@)).take(k as int),
        decreases order.len() - k,
    {
        let ghost so_far = cands_view(tried@);
        assert(0 <= order_view(order@)[k as int] < moves@.len());
        let from: usize = order[k];
        tried.push((moves[from].0, copy_actions(&moves[from].1)));
        assert(cands_view(tried@) == so_far.push((moves[from as int].0, moves[from as int].1@)));
        assert(arranged(cands_view(moves@), order_view(order@)).take(k + 1) == arranged(
            cands_view(moves@),
            order_view(order@),
        ).take(k as int).push((moves[from as int].0, moves[from as int].1@)));
        k = k + 1;
    }
    assert(arranged(cands_view(moves@), order_view(order@)).take(k as int) == arranged(
        cands_view(moves@),
        order_view(order@),
    ));
    tried
}

/// Searches the position for `color`, the side to move, `depth` plies deep
/// within the window from `alpha` to `beta`. Candidates are tried in the order
/// of their estimates, and the search of a position ends as soon as one of
/// them reaches `beta`.
pub fn search_from(
    board: &Board,
    depth: i32,
    alpha: i128,
    beta: i128,
    color: Color,
) -> (found: i128)
    requires
        board.wf(),
        -INFINITE <= alpha < beta <= INFINITE,
    ensures
        -INFINITE <= found <= INFINITE,
        found == found_value(board@, depth as int, alpha as int, beta as int, color),
        brackets(
            search_value(board@, depth as int, color),
            alpha as int,
            beta as int,
            found as int,
        ),
    decreases depth - MAX_DEPTH,
{
    if depth <= MAX_DEPTH {
        proof {
            lemma_material_bound(board@.squares);
        }
        return standing_of(board, color);
    }
    let moves = if depth <= 0 {
        // out of depth: only explore taking moves
        board.takes(color, false)
    } else {
        board.moves(color, false)
    };
    let ghost g = board@;
    let ghost cands = cands_view(moves@);
    let ghost total = best_reply(g, depth as int, color, cands);
    proof {
        assert forall|i: int| 0 <= i < moves.len() implies board@.at(
            (#[trigger] moves[i]).0,
        ) matches Some(Some(_)) by {
            assert(g.offers(color, cands[i].0, cands[i].1));
        }
    }
    // sort the moves with the move_value heuristic
    let moves = order_moves(board, moves);
    let ghost tried = cands_view(moves@);
    proof {
        let order = ranking(worths(g, cands));
        lemma_ranking(worths(g, cands));
        lemma_best_reply_arranged(g, depth as int, color, cands, order);
        assert forall|i: int| 0 <= i < tried.len() implies g.offers(
            color,
            (#[trigger] tried[i]).0,
            tried[i].1,
        ) by {
            assert(tried[i] == cands[order[i]]);
        }
        assert(tried.take(0).len() == 0);
    }
    let mut raised = alpha;
    let mut best_score: i128 = -INFINITE;
    let mut i: usize = 0;
    while i < moves.len()
        invariant
            i <= moves.len(),
            board.wf(),
            g == board@,
            tried == cands_view(moves@),
            all_offered(g, color, tried),
            depth > MAX_DEPTH,
            -INFINITE <= alpha <= raised < beta <= INFINITE,
            -INFINITE <= best_score <= INFINITE,
            raised == higher(alpha as int, best_score as int),
            tried == tried_order(
                g,
                if depth <= 0 {
                    g.takes(color, false)
                } else {
                    g.moves(color, false)
                },
            ),
            sweep(g, depth as int, alpha as int, beta as int, color, tried, i as int) == (Sweep {
                best: best_score as int,
                raised: raised as int,
                cut: false,
            }),
            best_reply(g, depth as int, color, tried) == total,
            search_value(g, depth as int, color) >= total,
            best_reply(g, depth as int, color, tried.take(i as int)) < beta,
            best_reply(g, depth as int, color, tried.take(i as int)) > alpha ==> best_score
                == best_reply(g, depth as int, color, tried.take(i as int)),
            best_reply(g, depth as int, color, tried.take(i as int)) <= alpha ==> best_score
                <= alpha,
        decreases moves.len() - i,
    {
        proof {
            assert(g.offers(color, tried[i as int].0, tried[i as int].1));
            lemma_shaped_accepted(
                g,
                color,
                g.at(tried[i as int].0).unwrap().unwrap().1 is Pawn,
                tried[i as int].1,
            );
            assert(tried.take(i + 1).drop_last() == tried.take(i as int));
            assert(tried.take(i + 1).last() == tried[i as int]);
        }
        let child = board.play(color, moves[i].0, &moves[i].1);
        let answer = search_from(&child, depth - 1, -beta, -raised, color.next());
        let reply = -answer;
        let ghost this = reply_value(g, depth as int, color, tried[i as int]);
        proof {
            assert(child@ == g.play(color, tried[i as int].0, tried[i as int].1));
            assert(brackets(-this, -beta, -raised, answer as int));
            assert(best_reply(g, depth as int, color, tried.take(i + 1)) == higher(
                best_reply(g, depth as int, color, tried.take(i as int)),
                this,
            ));
        }
        if reply > best_score {
            best_score = reply;
        }
        if best_score > raised {
            raised = best_score;
        }
        if raised >= beta {
            proof {
                lemma_best_reply_bounds(g, depth as int, color, tried);
                assert(total >= reply_value(g, depth as int, color, tried[i as int]));
                assert(this >= beta);
                assert(search_value(g, depth as int, color) >= beta);
                lemma_sweep_cut(
                    g,
                    depth as int,
                    alpha as int,
                    beta as int,
                    color,
                    tried,
                    i + 1,
                    tried.len() as int,
                );
            }
            return raised;
        }
        i = i + 1;
    }
    assert(tried.take(i as int) == tried);
    if depth <= 0 {
        // out of depth: the score can't be worse than the current board evaluation
        let stand = standing_of(board, color);
        proof {
            lemma_material_bound(board@.squares);
        }
        if stand > best_score {
            stand
        } else {
            best_score
        }
    } else {
        best_score
    }
}

/// The position can be searched for `color`: the depth is one that the search
/// can count down from, `color` has a king, and no legal move of `color`
/// captures the king of the other side.
pub open spec fn searchable(g: Grid, color: Color, depth: int) -> bool {
    &&& depth <= i32::MAX
    &&& g.king_pos(color) is Some
    &&& forall|i: int|
        0 <= i < g.moves(color, true).len() ==> g.play(
            color,
            (#[trigger] g.moves(color, true)[i]).0,
            g.moves(color, true)[i].1,
        ).king_pos(color.other()) is Some
}

/// A position in which both sides have their king and the side that is not
/// to move is not in check can be searched.
pub proof fn lemma_searchable(g: Grid, color: Color, depth: int)
    requires
        g.wf(),
        depth <= i32::MAX,
        g.king_pos(color) is Some,
        g.king_pos(color.other()) is Some,
        !g.is_checked(color.other()),
    ensures
        searchable(g, color, depth),
{
    assert forall|i: int| 0 <= i < g.moves(color, true).len() implies g.play(
        color,
        (#[trigger] g.moves(color, true)[i]).0,
        g.moves(color, true)[i].1,
    ).king_pos(color.other()) is Some by {
        lemma_unattacked_king_stays(g, color, true, i);
    }
}

/// The search reports as many moves as the side to move has legal ones: none
/// if and only if it has none.
pub proof fn lemma_ranked_len(g: Grid, color: Color, depth: int)
    ensures
        ranked(g, color, depth).len() == g.moves(color, true).len(),
        scored(g, color, depth).len() == g.moves(color, true).len(),
        ranked(g, color, depth).len() == 0 <==> g.moves(color, true).len() == 0,
{
    lemma_ranking(worths(g, g.moves(color, true)));
    lemma_ranking(scores(scored(g, color, depth)));
}

/// The legal moves of `color`, each with its score, the best first. The score
/// of a move is the negated value of the position after it for the other
/// side, searched `depth - 1` plies deep, plus a bonus for mobility; a move
/// that leaves the other side without a legal move scores `INFINITE` if it
/// gives check and 0 if it does not. The list is empty if and only if `color`
/// has no legal move.
pub fn negamax(board: &Board, color: Color, depth: u32) -> (res: Vec<(i128, Pos, Vec<Action>)>)
    requires
        board.wf(),
        searchable(board@, color, depth as int),
    ensures
        scored_view(res@) == ranked(board@, color, depth as int),
        res@.len() == board@.moves(color, true).len(),
{
    let moves = board.moves(color, true);
    let ghost g = board@;
    let ghost legal = cands_view(moves@);
    proof {
        assert forall|i: int| 0 <= i < moves.len() implies board@.at(
            (#[trigger] moves[i]).0,
        ) matches Some(Some(_)) by {
            assert(g.offers(color, legal[i].0, legal[i].1));
        }
    }
    // sort the moves with the move_value heuristic
    let moves = order_moves(board, moves);
    let ghost tried = cands_view(moves@);
    proof {
        let order = ranking(worths(g, legal));
        lemma_ranking(worths(g, legal));
        assert forall|i: int| 0 <= i < tried.len() implies g.offers(
            color,
            (#[trigger] tried[i]).0,
            tried[i].1,
        ) && g.play(color, tried[i].0, tried[i].1).king_pos(color.other()) is Some by {
            assert(tried[i] == legal[order[i]]);
        }
    }
    let below: i32 = depth as i32 - 1;
    let mut res: Vec<(i128, Pos, Vec<Action>)> = Vec::new();
    let mut i: usize = 0;
    while i < moves.len()
        invariant
            i <= moves.len(),
            board.wf(),
            g == board@,
            below == depth - 1,
            tried == cands_view(moves@),
            tried == tried_order(g, g.moves(color, true)),
            g.king_pos(color) is Some,
            forall|i: int|
                0 <= i < tried.len() ==> g.offers(color, (#[trigger] tried[i]).0, tried[i].1)
                    && g.play(color, tried[i].0, tried[i].1).king_pos(color.other()) is Some,
            scored_view(res@) == scored(g, color, depth as int).take(i as int),
        decreases moves.len() - i,
    {
        let pos = moves[i].0;
        let actions = copy_actions(&moves[i].1);
        proof {
            assert(g.offers(color, tried[i as int].0, tried[i as int].1));
            lemma_shaped_accepted(g, color, g.at(pos).unwrap().unwrap().1 is Pawn, actions@);
            lemma_own_king_stays(g, color, pos, actions@);
        }
        let curr_board = board.play(color, pos, &actions);
        let answer = search_from(&curr_board, below, -INFINITE, INFINITE, color.next());
        proof {
            lemma_search_value_range(curr_board@, below as int, color.other());
        }
        let mut score = -answer;
        // the auxiliary score counts the moves that both players have in the next position
        let own_moves = curr_board.moves(color, true).len();
        let op_moves = curr_board.moves(color.next(), true).len();
        if op_moves == 0 {
            // if the opponent has no legal move it is either a draw or a win
            if curr_board.is_checked(color.next()) {
                score = INFINITE;
            } else {
                score = 0;
            }
        } else if score != INFINITE && score != -INFINITE {
            // the score is raised if the position has more moves for the player and
            // less for the opponent; the raise cannot exceed the value of a pawn
            let edge: i128 = own_moves as i128 - op_moves as i128;
            score = score + if edge < 100 {
                edge
            } else {
                100
            };
        }
        assert(score == root_score(g, color, depth as int, tried[i as int]));
        let ghost so_far = scored_view(res@);
        res.push((score, pos, actions));
        proof {
            assert(scored_view(res@) == so_far.push((score as int, pos, actions@)));
            assert(scored(g, color, depth as int).take(i + 1) == scored(
                g,
                color,
                depth as int,
            ).take(i as int).push((score as int, pos, actions@)));
        }
        i = i + 1;
    }
    proof {
        assert(scored(g, color, depth as int).take(i as int) == scored(g, color, depth as int));
        lemma_ranked_len(g, color, depth as int);
    }
    let mut keys: Vec<i128> = Vec::new();
    let mut k: usize = 0;
    while k < res.len()
        invariant
            k <= res.len(),
            keys_view(keys@) == scores(scored_view(res@)).take(k as int),
        decreases res.len() - k,
    {
        let ghost so_far = keys_view(keys@);
        keys.push(res[k].0);
        assert(keys_view(keys@) == so_far.push(res[k as int].0 as int));
        assert(scores(scored_view(res@)).take(k + 1) == scores(scored_view(res@)).take(
            k as int,
        ).push(res[k as int].0 as int));
        k = k + 1;
    }
    assert(scores(scored_view(res@)).take(k as int) == scores(scored_view(res@)));
    let order = rank(&keys);
    proof {
        lemma_ranking(keys_view(keys@));
    }
    let mut sorted: Vec<(i128, Pos, Vec<Action>)> = Vec::new();
    let mut k: usize = 0;
    while k < order.len()
        invariant
            k <= order.len(),
            order@.len() == res@.len(),
            is_permutation(order_view(order@), res@.len() as int),
            scored_view(sorted@) == arranged(scored_view(res@), order_view(order@)).take(k as int),
        decreases order.len() - k,
    {
        let ghost so_far = scored_view(sorted@);
        assert(0 <= order_view(order@)[k as int] < res@.len());
        let from: usize = order[k];
        sorted.push((res[from].0, res[from].1, copy_actions(&res[from].2)));
        assert(scored_view(sorted@) == so_far.push(scored_view(res@)[from as int]));
        assert(arranged(scored_view(res@), order_view(order@)).take(k + 1) == arranged(
            scored_view(res@),
            order_view(order@),
        ).take(k as int).push(scored_view(res@)[from as int]));
        k = k + 1;
    }
    assert(arranged(scored_view(res@), order_view(order@)).take(k as int) == arranged(
        scored_view(res@),
        order_view(order@),
    ));
    sorted
}

/// The legal moves of `color` with their scores, the best first, as `negamax`
/// gives them, where the position can be searched; `None` where it cannot.
pub fn ranked_moves(board: &Board, color: Color, depth: u32) -> (res: Option<
    Vec<(i128, Pos, Vec<Action>)>,
>)
    requires
        board.wf(),
    ensures
        res is Some <==> searchable(board@, color, depth as int),
        res matches Some(list) ==> scored_view(list@) == ranked(board@, color, depth as int),
{
    if depth > 0x7fff_ffff || board.king_pos(color).is_none() {
        return None;
    }
    let moves = board.moves(color, true);
    let ghost legal = cands_view(moves@);
    let mut i: usize = 0;
    while i < moves.len()
        invariant
            i <= moves.len(),
            board.wf(),
            legal == cands_view(moves@),
            legal == board@.moves(color, true),
            all_offered(board@, color, legal),
            forall|j: int|
                0 <= j < i ==> board@.play(color, (#[trigger] legal[j]).0, legal[j].1).king_pos(
                    color.other(),
                ) is Some,
        decreases moves.len() - i,
    {
        proof {
            assert(board@.offers(color, legal[i as int].0, legal[i as int].1));
            lemma_shaped_accepted(
                board@,
                color,
                board@.at(legal[i as int].0).unwrap().unwrap().1 is Pawn,
                legal[i as int].1,
            );
        }
        let after = board.play(color, moves[i].0, &moves[i].1);
        if after.king_pos(color.next()).is_none() {
            return None;
        }
        i = i + 1;
    }
    Some(negamax(board, color, depth))
}

/// The candidates, each with the score 0.
pub open spec fn unscored(cands: Seq<(Pos, Seq<Action>)>) -> Seq<(int, Pos, Seq<Action>)> {
    Seq::new(cands.len(), |k: int| (0int, cands[k].0, cands[k].1))
}

/// `ThreadRng` of the rand crate, the handle to the random number generator
/// of a thread. Nothing is known of what it holds.
#[verifier::external_type_specification]
#[verifier::external_body]
pub struct ExThreadRng(rand::rngs::ThreadRng);

/// Calls `rand::thread_rng`, which hands out the random number generator of
/// the current thread. Nothing is claimed of the result.
#[verifier::external_body]
fn thread_rng() -> (rng: ThreadRng) {
    rand::thread_rng()
}

/// Calls `SliceRandom::shuffle` of the rand crate on the items. Taken on
/// trust: it only swaps items, so that whatever the generator yields, the
/// items afterwards are the items before in some order.
#[verifier::external_body]
fn shuffle<T>(items: &mut Vec<T>, rng: &mut ThreadRng)
    ensures
        exists|order: Seq<int>|
            is_permutation(order, old(items)@.len() as int) && final(items)@ == arranged(
                old(items)@,
                order,
            ),
{
    items.shuffle(rng);
}

/// The legal moves of `color` in a random order, each with the score 0.
pub fn random_move(board: &Board, color: Color) -> (res: Vec<(i128, Pos, Vec<Action>)>)
    requires
        board.wf(),
        board@.king_pos(color) is Some,
    ensures
        exists|order: Seq<int>|
            is_permutation(order, board@.moves(color, true).len() as int) && scored_view(res@)
                == arranged(unscored(board@.moves(color, true)), order),
{
    let moves = board.moves(color, true);
    let mut res: Vec<(i128, Pos, Vec<Action>)> = Vec::new();
    let mut i: usize = 0;
    while i < moves.len()
        invariant
            i <= moves.len(),
            scored_view(res@) == unscored(cands_view(moves@)).take(i as int),
        decreases moves.len() - i,
    {
        let ghost so_far = scored_view(res@);
        res.push((0, moves[i].0, copy_actions(&moves[i].1)));
        assert(scored_view(res@) == so_far.push((0int, moves[i as int].0, moves[i as int].1@)));
        assert(unscored(cands_view(moves@)).take(i + 1) == unscored(cands_view(moves@)).take(
            i as int,
        ).push((0int, moves[i as int].0, moves[i as int].1@)));
        i = i + 1;
    }
    assert(unscored(cands_view(moves@)).take(i as int) == unscored(cands_view(moves@)));
    let ghost listed = res@;
    let mut rng = thread_rng();
    shuffle(&mut res, &mut rng);
    proof {
        let order = choose|order: Seq<int>|
            is_permutation(order, listed.len() as int) && res@ == arranged(listed, order);
        assert(scored_view(res@) == arranged(unscored(board@.moves(color, true)), order));
    }
    res
}

} // verus!
