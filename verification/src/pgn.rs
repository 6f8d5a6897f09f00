//! Moves as text.

use crate::piece::{Action, Piece};
use crate::pos::Pos;
use vstd::prelude::*;
use vstd::string::*;

verus! {

/// The letter that stands for a piece.
pub open spec fn piece_letter(piece: Piece) -> Seq<char> {
    match piece {
        Piece::Pawn { .. } => seq!['p'],
        Piece::Knight => seq!['N'],
        Piece::Bishop => seq!['B'],
        Piece::Rook => seq!['R'],
        Piece::Queen => seq!['Q'],
        Piece::King => seq!['K'],
    }
}

/// The letters of the files, from file 0 on.
pub open spec fn file_letters() -> Seq<char> {
    seq!['a', 'b', 'c', 'd', 'e', 'f', 'g', 'h']
}

/// The decimal digits.
pub open spec fn digit_chars() -> Seq<char> {
    seq!['0', '1', '2', '3', '4', '5', '6', '7', '8', '9']
}

/// The decimal digits of a natural number, without leading zeros.
pub open spec fn digits(n: nat) -> Seq<char>
    decreases n,
{
    if n < 10 {
        seq![digit_chars()[n as int]]
    } else {
        digits(n / 10).push(digit_chars()[(n % 10) as int])
    }
}

/// An integer in decimal, with a minus sign if it is negative.
pub open spec fn decimal(n: int) -> Seq<char> {
    if n < 0 {
        seq!['-'] + digits((-n) as nat)
    } else {
        digits(n as nat)
    }
}

/// A coordinate as text: the letter of its file, then its rank as a number,
/// counted from 0.
pub open spec fn pos_text(pos: Pos) -> Seq<char> {
    seq![file_letters()[pos.0 as int]] + decimal(pos.1 as int)
}

/// What an action of a piece that started at `origin` adds to the text of its
/// move: for a `Go` the origin and the target, for a promotion `=` and the
/// letter of the new piece, for a `Take` nothing.
pub open spec fn action_text(origin: Pos, action: Action) -> Seq<char> {
    match action {
        Action::Go(target) => pos_text(origin) + pos_text(target),
        Action::Take(_) => Seq::empty(),
        Action::Promotion(piece) => seq!['='] + piece_letter(piece),
    }
}

/// The text of a move: the texts of its actions, one after the other.
pub open spec fn move_text(origin: Pos, actions: Seq<Action>) -> Seq<char>
    decreases actions.len(),
{
    if actions.len() == 0 {
        Seq::empty()
    } else {
        move_text(origin, actions.drop_last()) + action_text(origin, actions.last())
    }
}

/// The move can be written: the file of the origin and that of every square
/// it goes to have a letter.
pub open spec fn writable(origin: Pos, actions: Seq<Action>) -> bool {
    forall|k: int|
        0 <= k < actions.len() ==> (#[trigger] actions[k] matches Action::Go(target) ==> 0
            <= origin.0 < 8 && 0 <= target.0 < 8)
}

/// The digits of a number hold no `=`.
pub proof fn lemma_digits_plain(n: nat)
    ensures
        digits(n).len() >= 1,
        forall|i: int| 0 <= i < digits(n).len() ==> '0' <= #[trigger] digits(n)[i] <= '9',
    decreases n,
{
    if n >= 10 {
        lemma_digits_plain(n / 10);
    }
}

/// The text of a plain step, a single `Go`, is the text of the origin
/// followed by the text of the target, and no `=` occurs in it.
pub proof fn lemma_step_text(origin: Pos, target: Pos)
    requires
        0 <= origin.0 < 8,
        0 <= target.0 < 8,
    ensures
        move_text(origin, seq![Action::Go(target)]) == pos_text(origin) + pos_text(target),
        !move_text(origin, seq![Action::Go(target)]).contains('='),
{
    let actions = seq![Action::Go(target)];
    let text = move_text(origin, actions);
    assert(actions.drop_last() == Seq::<Action>::empty());
    assert(move_text(origin, actions.drop_last()) == Seq::<char>::empty());
    assert(text == pos_text(origin) + pos_text(target));
    lemma_pos_text_plain(origin);
    lemma_pos_text_plain(target);
    assert forall|i: int| 0 <= i < text.len() implies text[i] != '=' by {
        if i < pos_text(origin).len() {
            assert(text[i] == pos_text(origin)[i]);
        } else {
            assert(text[i] == pos_text(target)[i - pos_text(origin).len()]);
        }
    }
}

/// No `=` occurs in the text of a coordinate whose file has a letter.
pub proof fn lemma_pos_text_plain(pos: Pos)
    requires
        0 <= pos.0 < 8,
    ensures
        forall|i: int| 0 <= i < pos_text(pos).len() ==> #[trigger] pos_text(pos)[i] != '=',
{
    let n = pos.1 as int;
    if n < 0 {
        lemma_digits_plain((-n) as nat);
    } else {
        lemma_digits_plain(n as nat);
    }
    let text = pos_text(pos);
    assert forall|i: int| 0 <= i < text.len() implies #[trigger] text[i] != '=' by {
        if i >= 1 {
            assert(text[i] == decimal(n)[i - 1]);
            if n < 0 && i >= 2 {
                assert(decimal(n)[i - 1] == digits((-n) as nat)[i - 2]);
            }
        }
    }
}

/// The letter that stands for a piece.
pub fn piece2pgn(piece: Piece) -> (letter: &'static str)
    ensures
        letter@ == piece_letter(piece),
{
    proof {
        reveal_strlit("p");
        reveal_strlit("N");
        reveal_strlit("B");
        reveal_strlit("R");
        reveal_strlit("Q");
        reveal_strlit("K");
    }
    let letter = match piece {
        Piece::Pawn { orientation: _, status: _ } => "p",
        Piece::Knight => "N",
        Piece::Bishop => "B",
        Piece::Rook => "R",
        Piece::Queen => "Q",
        Piece::King => "K",
    };
    assert(letter@ =~= piece_letter(piece));
    letter
}

/// The letter of a file.
fn file2pgn(file: i32) -> (letter: &'static str)
    requires
        0 <= file < 8,
    ensures
        letter@ == seq![file_letters()[file as int]],
{
    proof {
        reveal_strlit("a");
        reveal_strlit("b");
        reveal_strlit("c");
        reveal_strlit("d");
        reveal_strlit("e");
        reveal_strlit("f");
        reveal_strlit("g");
        reveal_strlit("h");
    }
    let letter = match file {
        0 => "a",
        1 => "b",
        2 => "c",
        3 => "d",
        4 => "e",
        5 => "f",
        6 => "g",
        _ => "h",
    };
    assert(letter@ =~= seq![file_letters()[file as int]]);
    letter
}

/// A decimal digit.
fn digit2pgn(digit: u32) -> (text: &'static str)
    requires
        digit < 10,
    ensures
        text@ == seq![digit_chars()[digit as int]],
{
    proof {
        reveal_strlit("0");
        reveal_strlit("1");
        reveal_strlit("2");
        reveal_strlit("3");
        reveal_strlit("4");
        reveal_strlit("5");
        reveal_strlit("6");
        reveal_strlit("7");
        reveal_strlit("8");
        reveal_strlit("9");
    }
    let text = match digit {
        0 => "0",
        1 => "1",
        2 => "2",
        3 => "3",
        4 => "4",
        5 => "5",
        6 => "6",
        7 => "7",
        8 => "8",
        _ => "9",
    };
    assert(text@ =~= seq![digit_chars()[digit as int]]);
    text
}

/// Appends the decimal digits of `n`.
fn push_digits(text: &mut String, n: u32)
    ensures
        final(text)@ == old(text)@ + digits(n as nat),
    decreases n,
{
    if n >= 10 {
        push_digits(text, n / 10);
    }
    text.append(digit2pgn(n % 10));
}

/// A coordinate as text: the letter of its file, then its rank as a number.
pub fn pos2pgn(pos: Pos) -> (text: String)
    requires
        0 <= pos.0 < 8,
    ensures
        text@ == pos_text(pos),
{
    let mut text = String::new();
    text.append(file2pgn(pos.0));
    if pos.1 < 0 {
        proof {
            reveal_strlit("-");
        }
        text.append("-");
        push_digits(&mut text, (-(pos.1 as i64)) as u32);
    } else {
        push_digits(&mut text, pos.1 as u32);
    }
    assert(text@ =~= pos_text(pos));
    text
}

/// The text of a move of the piece that started at `pos`.
pub fn move2pgn(pos: Pos, actions: &Vec<Action>) -> (text: String)
    requires
        writable(pos, actions@),
    ensures
        text@ == move_text(pos, actions@),
{
    let mut res = String::new();
    let mut k: usize = 0;
    while k < actions.len()
        invariant
            k <= actions.len(),
            writable(pos, actions@),
            res@ == move_text(pos, actions@.take(k as int)),
        decreases actions.len() - k,
    {
        assert(actions@.take(k + 1).drop_last() == actions@.take(k as int));
        let ghost so_far = res@;
        match actions[k] {
            Action::Go(go_pos) => {
                res.append(pos2pgn(pos).as_str());
                res.append(pos2pgn(go_pos).as_str());
            },
            Action::Promotion(piece) => {
                proof {
                    reveal_strlit("=");
                }
                res.append("=");
                res.append(piece2pgn(piece));
            },
            Action::Take(_) => {},
        }
        assert(res@ =~= so_far + action_text(pos, actions@[k as int]));
        k = k + 1;
    }
    assert(actions@.take(k as int) == actions@);
    res
}

} // verus!
