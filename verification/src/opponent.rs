//! How the automated opponent uses the search: how deep it looks, which of
//! the ranked moves it chooses among, and when it takes a move back.

use crate::ai::{scored_view, INFINITE};
use crate::piece::{copy_actions, Action};
use crate::pos::Pos;
use vstd::prelude::*;

verus! {

/// How deep the opponent searches when the player has pieces of the given
/// value left: the less is left, the deeper.
pub open spec fn depth_for(remaining: int) -> int {
    if remaining < 500 {
        4
    } else if remaining < 1000 {
        2
    } else {
        1
    }
}

/// The lowest score that is still close to the best one: three pawns below
/// it. Nothing but `INFINITE` is close to `INFINITE`.
pub open spec fn close_to(best: int) -> int {
    if best == INFINITE {
        best
    } else if best - 300 < i128::MIN {
        i128::MIN as int
    } else {
        best - 300
    }
}

/// Those of the first `n` scored moves whose score is close to `best`.
pub open spec fn close_ones(list: Seq<(int, Pos, Seq<Action>)>, best: int, n: int) -> Seq<
    (int, Pos, Seq<Action>),
>
    decreases n,
{
    if n <= 0 {
        Seq::empty()
    } else if list[n - 1].0 >= close_to(best) {
        close_ones(list, best, n - 1).push(list[n - 1])
    } else {
        close_ones(list, best, n - 1)
    }
}

/// The moves the opponent chooses among: of the first three of a ranked list,
/// those whose score is close to that of the first.
pub open spec fn shortlisted(list: Seq<(int, Pos, Seq<Action>)>) -> Seq<(int, Pos, Seq<Action>)> {
    close_ones(
        list,
        list[0].0,
        if list.len() < 3 {
            list.len() as int
        } else {
            3
        },
    )
}

/// The opponent takes its move back: it is the second opponent, it has a
/// move to fall back on, the score has dropped by more than two pawns since
/// its last move, and it is below two pawns.
pub open spec fn undoes(opponent: int, cached: int, last_eval: Option<i128>, score: int) -> bool {
    &&& opponent == 1
    &&& cached > 0
    &&& last_eval matches Some(before) && before - score > 200 && score < 200
}

/// The best move is always among those chosen from.
pub proof fn lemma_shortlist_has_best(list: Seq<(int, Pos, Seq<Action>)>)
    requires
        list.len() > 0,
        i128::MIN <= list[0].0 <= i128::MAX,
    ensures
        shortlisted(list).len() >= 1,
        shortlisted(list).len() <= 3,
        shortlisted(list)[0] == list[0],
{
    reveal_with_fuel(close_ones, 4);
}

/// How deep to search when the player has pieces of the given value left.
pub fn search_depth(remaining: i128) -> (depth: u32)
    ensures
        depth == depth_for(remaining as int),
{
    if remaining < 500 {
        4
    } else if remaining < 1000 {
        2
    } else {
        1
    }
}

/// Of the first three moves of a ranked list, those whose score is within
/// three pawns of the first.
pub fn shortlist(moves: &Vec<(i128, Pos, Vec<Action>)>) -> (chosen: Vec<(i128, Pos, Vec<Action>)>)
    requires
        moves.len() > 0,
    ensures
        scored_view(chosen@) == shortlisted(scored_view(moves@)),
        1 <= chosen.len() <= 3,
{
    let best_score = moves[0].0;
    let floor: i128 = if best_score == INFINITE {
        best_score
    } else if best_score < i128::MIN + 300 {
        i128::MIN
    } else {
        best_score - 300
    };
    let first: usize = if moves.len() < 3 {
        moves.len()
    } else {
        3
    };
    let mut chosen: Vec<(i128, Pos, Vec<Action>)> = Vec::new();
    let mut k: usize = 0;
    while k < first
        invariant
            k <= first <= moves.len(),
            first <= 3,
            floor == close_to(best_score as int),
            scored_view(chosen@) == close_ones(scored_view(moves@), best_score as int, k as int),
        decreases first - k,
    {
        if moves[k].0 >= floor {
            let ghost so_far = scored_view(chosen@);
            chosen.push((moves[k].0, moves[k].1, copy_actions(&moves[k].2)));
            assert(scored_view(chosen@) == so_far.push(scored_view(moves@)[k as int]));
        }
        k = k + 1;
    }
    proof {
        lemma_shortlist_has_best(scored_view(moves@));
    }
    chosen
}

/// Whether the opponent takes its move back, given which opponent it is, how
/// many moves it has to fall back on, the score of its last move if there was
/// one, and the score now.
pub fn should_undo(opponent: usize, cached: usize, last_eval: Option<i128>, score: i128) -> (undo:
    bool)
    ensures
        undo == undoes(opponent as int, cached as int, last_eval, score as int),
{
    if opponent == 1 && cached > 0 {
        if let Some(before) = last_eval {
            return before >= i128::MIN + 201 && score <= before - 201 && score < 200;
        }
    }
    false
}

} // verus!
