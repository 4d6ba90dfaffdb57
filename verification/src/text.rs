//! Rendering of numbers and positions for messages and for the text of a
//! board.

use crate::board::Position;
use vstd::prelude::*;

verus! {

/// The character of a decimal digit.
pub open spec fn digit_char(d: int) -> char {
    if d == 0 {
        '0'
    } else if d == 1 {
        '1'
    } else if d == 2 {
        '2'
    } else if d == 3 {
        '3'
    } else if d == 4 {
        '4'
    } else if d == 5 {
        '5'
    } else if d == 6 {
        '6'
    } else if d == 7 {
        '7'
    } else if d == 8 {
        '8'
    } else {
        '9'
    }
}

/// The decimal text of a number, without leading zeros.
pub open spec fn number_text(n: usize) -> Seq<char>
    decreases n,
{
    if n < 10 {
        seq![digit_char(n as int)]
    } else {
        number_text(n / 10) + seq![digit_char(n as int % 10)]
    }
}

/// The text of a position: `(row, column)`.
pub open spec fn position_text(pos: Position) -> Seq<char> {
    "("@ + number_text(pos.row()) + ", "@ + number_text(pos.col()) + ")"@
}

/// The texts of the positions, with `, ` between each two of them.
pub open spec fn joined_text(positions: Seq<Position>) -> Seq<char>
    decreases positions.len(),
{
    if positions.len() == 0 {
        Seq::empty()
    } else if positions.len() == 1 {
        position_text(positions[0])
    } else {
        joined_text(positions.drop_last()) + ", "@ + position_text(positions.last())
    }
}

/// The text that stands for a list of positions in a message:
/// `[(1, 1), (1, 2)]`.
pub open spec fn positions_text(positions: Seq<Position>) -> Seq<char> {
    "["@ + joined_text(positions) + "]"@
}

/// Appends the character of the digit `d` to the text.
fn append_digit(text: &mut String, d: usize)
    requires
        d < 10,
    ensures
        final(text)@ == old(text)@ + seq![digit_char(d as int)],
{
    proof {
        reveal_strlit("0");
        reveal_strlit("1");
        reveal_strlit("2");
        reveal_strlit("3");
        reveal_strlit("4");
        reveal_strlit("5");
        reveal_strlit("6");
        reveal_strlit("7");
        reveal_strlit("8");
        reveal_strlit("9");
    }
    let digit = if d == 0 {
        "0"
    } else if d == 1 {
        "1"
    } else if d == 2 {
        "2"
    } else if d == 3 {
        "3"
    } else if d == 4 {
        "4"
    } else if d == 5 {
        "5"
    } else if d == 6 {
        "6"
    } else if d == 7 {
        "7"
    } else if d == 8 {
        "8"
    } else {
        "9"
    };
    assert(digit@ =~= seq![digit_char(d as int)]);
    text.append(digit);
}

/// Appends the decimal text of `n` to the text.
pub fn append_number(text: &mut String, n: usize)
    ensures
        final(text)@ == old(text)@ + number_text(n),
    decreases n,
{
    if n < 10 {
        append_digit(text, n);
    } else {
        append_number(text, n / 10);
        append_digit(text, n % 10);
        assert(old(text)@ + number_text(n / 10) + seq![digit_char(n as int % 10)] =~= old(text)@ + number_text(n));
    }
}

/// The decimal text of a number.
pub fn render_number(n: usize) -> (text: String)
    ensures
        text@ == number_text(n),
{
    let mut text = String::new();
    append_number(&mut text, n);
    assert(Seq::<char>::empty() + number_text(n) =~= number_text(n));
    text
}

/// The text that stands for a list of positions in a message.
pub fn render_positions(positions: &Vec<Position>) -> (text: String)
    ensures
        text@ == positions_text(positions@),
{
    let mut text = String::from_str("[");
    let mut i: usize = 0;
    assert(positions@.subrange(0, 0) =~= Seq::<Position>::empty());
    assert("["@ + Seq::<char>::empty() =~= "["@);
    while i < positions.len()
        invariant
            i <= positions@.len(),
            text@ == "["@ + joined_text(positions@.subrange(0, i as int)),
        decreases positions@.len() - i,
    {
        let ghost before = text@;
        let ghost seen = positions@.subrange(0, i as int);
        let ghost next = positions@.subrange(0, i + 1);
        proof {
            assert(next.drop_last() =~= seen);
            assert(next.last() == positions@[i as int]);
            if i == 0 {
                assert(next[0] == positions@[0]);
                assert(joined_text(seen) =~= Seq::<char>::empty());
            }
        }
        if i > 0 {
            text.append(", ");
        }
        text.append("(");
        append_number(&mut text, positions[i].row());
        text.append(", ");
        append_number(&mut text, positions[i].col());
        text.append(")");
        proof {
            let p = positions@[i as int];
            if i == 0 {
                assert(text@ =~= "["@ + position_text(p));
            } else {
                assert(text@ =~= "["@ + (joined_text(seen) + ", "@ + position_text(p)));
            }
        }
        i += 1;
    }
    assert(positions@.subrange(0, positions@.len() as int) =~= positions@);
    text.append("]");
    text
}

} // verus!
