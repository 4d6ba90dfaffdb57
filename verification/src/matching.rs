//! Pattern matching and the reading of numbers and words, for the lines
//! that a player types.

use crate::text::{digit_char, number_text};
use regex::Regex;
use vstd::prelude::*;
use vstd::string::StrSliceExecFns;

verus! {

/// The groups of the first match of a pattern in a text: `None` where the
/// text has no match or the pattern is no pattern.
pub uninterp spec fn first_match(pattern: Seq<char>, input: Seq<char>) -> Option<Seq<Seq<char>>>;

/// The groups of every match of a pattern in a text, from left to right:
/// `None` where the pattern is no pattern.
pub uninterp spec fn every_match(pattern: Seq<char>, input: Seq<char>) -> Option<Seq<Seq<Seq<char>>>>;

/// Whether a character is white space, as `char::is_whitespace` has it.
pub uninterp spec fn white(c: char) -> bool;

/// The texts of a list of strings.
pub open spec fn texts_of(list: Seq<String>) -> Seq<Seq<char>> {
    Seq::new(list.len(), |i: int| list[i]@)
}

/// The texts of a list of lists of strings.
pub open spec fn texts_of_all(lists: Seq<Vec<String>>) -> Seq<Seq<Seq<char>>> {
    Seq::new(lists.len(), |i: int| texts_of(lists[i]@))
}

/// The texts of the groups of a match, if there is one.
pub open spec fn group_texts(groups: Option<Vec<String>>) -> Option<Seq<Seq<char>>> {
    match groups {
        Some(list) => Some(texts_of(list@)),
        None => None,
    }
}

/// The texts of the groups of a list of matches, if there is one.
pub open spec fn match_texts(matches: Option<Vec<Vec<String>>>) -> Option<Seq<Seq<Seq<char>>>> {
    match matches {
        Some(lists) => Some(texts_of_all(lists@)),
        None => None,
    }
}

/// Compiles the pattern with `Regex::new` and looks for its first match in
/// the text with `Regex::captures`; hands back the groups of the match from
/// the first group on, an empty text for a group that took no part.
/// Trusted: that the outcome depends on the pattern and the text alone,
/// which is what the name `first_match` stands for.
#[verifier::external_body]
pub(crate) fn match_first(pattern: &str, input: &str) -> (groups: Option<Vec<String>>)
    ensures
        group_texts(groups) == first_match(pattern@, input@),
{
    let regex = Regex::new(pattern).ok()?;
    let found = regex.captures(input)?;
    Some(found.iter().skip(1).map(|group| group.map_or(String::new(), |m| m.as_str().to_string())).collect())
}

/// Compiles the pattern with `Regex::new` and walks the matches in the text
/// with `Regex::captures_iter`; hands back the groups of each match from
/// the first group on, an empty text for a group that took no part.
/// Trusted: that the outcome depends on the pattern and the text alone,
/// which is what the name `every_match` stands for.
#[verifier::external_body]
pub(crate) fn match_every(pattern: &str, input: &str) -> (matches: Option<Vec<Vec<String>>>)
    ensures
        match_texts(matches) == every_match(pattern@, input@),
{
    let regex = Regex::new(pattern).ok()?;
    Some(
        regex.captures_iter(input).map(
            |found| found.iter().skip(1).map(|group| group.map_or(String::new(), |m| m.as_str().to_string())).collect(),
        ).collect(),
    )
}

/// Asks `char::is_whitespace` whether a character is white space.
/// Trusted: that the answer depends on the character alone, which is what
/// the name `white` stands for.
#[verifier::external_body]
pub(crate) fn is_white(c: char) -> (yes: bool)
    ensures
        yes == white(c),
{
    c.is_whitespace()
}

/// How many characters of white space the line starts with.
pub open spec fn leading(line: Seq<char>) -> int
    decreases line.len(),
{
    if line.len() > 0 && white(line[0]) {
        1 + leading(line.drop_first())
    } else {
        0
    }
}

/// How many characters of white space the line ends with.
pub open spec fn trailing(line: Seq<char>) -> int
    decreases line.len(),
{
    if line.len() > 0 && white(line.last()) {
        1 + trailing(line.drop_last())
    } else {
        0
    }
}

/// A line without the white space at its ends.
pub open spec fn trimmed(line: Seq<char>) -> Seq<char> {
    if leading(line) >= line.len() {
        Seq::empty()
    } else {
        line.subrange(leading(line), line.len() - trailing(line))
    }
}

/// The words of the line from character `i` on, when the scan of the line
/// stands there: inside a word that began at `start`, or between words
/// with `start` negative. A word ends before a character of white space
/// or with the line.
pub open spec fn scan_words(line: Seq<char>, i: int, start: int) -> Seq<Seq<char>>
    decreases line.len() - i,
{
    if i >= line.len() {
        if start >= 0 {
            seq![line.subrange(start, line.len() as int)]
        } else {
            Seq::empty()
        }
    } else if white(line[i]) {
        if start >= 0 {
            seq![line.subrange(start, i)] + scan_words(line, i + 1, -1)
        } else {
            scan_words(line, i + 1, -1)
        }
    } else {
        scan_words(
            line,
            i + 1,
            if start >= 0 {
                start
            } else {
                i
            },
        )
    }
}

/// The words of a line: its parts between runs of white space.
pub open spec fn words_of(line: Seq<char>) -> Seq<Seq<char>> {
    scan_words(line, 0, -1)
}

/// A line starts with `count` characters of white space when these are
/// white and the next one, if there is one, is not.
pub proof fn lemma_leading(line: Seq<char>, count: int)
    requires
        0 <= count <= line.len(),
        forall|k: int| 0 <= k < count ==> white(#[trigger] line[k]),
        count < line.len() ==> !white(line[count]),
    ensures
        leading(line) == count,
    decreases line.len(),
{
    if count > 0 {
        let rest = line.drop_first();
        assert forall|k: int| 0 <= k < count - 1 implies white(#[trigger] rest[k]) by {
            assert(rest[k] == line[k + 1]);
        }
        if count < line.len() {
            assert(rest[count - 1] == line[count]);
        }
        lemma_leading(rest, count - 1);
    }
}

/// A line ends with `count` characters of white space when these are
/// white and the one before them, if there is one, is not.
pub proof fn lemma_trailing(line: Seq<char>, count: int)
    requires
        0 <= count <= line.len(),
        forall|k: int| line.len() - count <= k < line.len() ==> white(#[trigger] line[k]),
        count < line.len() ==> !white(line[line.len() - count - 1]),
    ensures
        trailing(line) == count,
    decreases line.len(),
{
    if count > 0 {
        let rest = line.drop_last();
        assert forall|k: int| rest.len() - (count - 1) <= k < rest.len() implies white(#[trigger] rest[k]) by {
            assert(rest[k] == line[k]);
        }
        if count < line.len() {
            assert(rest[rest.len() - (count - 1) - 1] == line[line.len() - count - 1]);
        }
        lemma_trailing(rest, count - 1);
    }
}

/// A line without the white space at its ends.
pub fn trim_line(line: &str) -> (text: String)
    ensures
        text@ == trimmed(line@),
{
    let len = line.unicode_len();
    let mut from: usize = 0;
    while from < len && is_white(line.get_char(from))
        invariant
            from <= len,
            len == line@.len(),
            forall|k: int| 0 <= k < from ==> white(#[trigger] line@[k]),
        decreases len - from,
    {
        from += 1;
    }
    proof {
        lemma_leading(line@, from as int);
    }
    if from == len {
        return String::new();
    }
    let mut to: usize = len;
    while to > from && is_white(line.get_char(to - 1))
        invariant
            from < len,
            from <= to <= len,
            len == line@.len(),
            !white(line@[from as int]),
            forall|k: int| to <= k < len ==> white(#[trigger] line@[k]),
        decreases to,
    {
        to -= 1;
    }
    proof {
        lemma_trailing(line@, len - to);
    }
    String::from_str(line.substring_char(from, to))
}

/// The words of a line: its parts between runs of white space.
pub fn split_words(line: &str) -> (words: Vec<String>)
    ensures
        texts_of(words@) == words_of(line@),
{
    let len = line.unicode_len();
    let mut words: Vec<String> = Vec::new();
    let mut inside = false;
    let mut start: usize = 0;
    let mut i: usize = 0;
    assert(texts_of(words@) =~= Seq::<Seq<char>>::empty());
    assert(Seq::<Seq<char>>::empty() + scan_words(line@, 0, -1) =~= scan_words(line@, 0, -1));
    while i < len
        invariant
            i <= len,
            len == line@.len(),
            inside ==> start < i,
            texts_of(words@) + scan_words(line@, i as int, if inside { start as int } else { -1 }) == words_of(line@),
        decreases len - i,
    {
        let ghost before = texts_of(words@);
        if is_white(line.get_char(i)) {
            if inside {
                let word = String::from_str(line.substring_char(start, i));
                words.push(word);
                proof {
                    assert(texts_of(words@) =~= before.push(line@.subrange(start as int, i as int)));
                    assert(before + (seq![line@.subrange(start as int, i as int)] + scan_words(line@, i + 1, -1))
                        =~= before.push(line@.subrange(start as int, i as int)) + scan_words(line@, i + 1, -1));
                }
                inside = false;
            }
        } else if !inside {
            inside = true;
            start = i;
        }
        i += 1;
    }
    if inside {
        let ghost before = texts_of(words@);
        let word = String::from_str(line.substring_char(start, len));
        words.push(word);
        assert(texts_of(words@) =~= before.push(line@.subrange(start as int, len as int)));
        assert(before + seq![line@.subrange(start as int, len as int)] =~= before.push(
            line@.subrange(start as int, len as int),
        ));
    } else {
        assert(texts_of(words@) + Seq::<Seq<char>>::empty() =~= texts_of(words@));
    }
    words
}

/// The value of a decimal digit: none for any other character.
pub open spec fn digit_of(c: char) -> Option<int> {
    if '0' <= c <= '9' {
        Some(c as int - '0' as int)
    } else {
        None
    }
}

/// The number that a run of decimal digits spells, 0 for the empty run:
/// none where a character of the run is no digit.
pub open spec fn digits_value(digits: Seq<char>) -> Option<int>
    decreases digits.len(),
{
    if digits.len() == 0 {
        Some(0)
    } else {
        match (digits_value(digits.drop_last()), digit_of(digits.last())) {
            (Some(value), Some(digit)) => Some(10 * value + digit),
            _ => None,
        }
    }
}

/// The text without a plus sign at its start.
pub open spec fn unsigned(text: Seq<char>) -> Seq<char> {
    if text.len() > 0 && text[0] == '+' {
        text.drop_first()
    } else {
        text
    }
}

/// The number that a text spells in decimal: one or more digits, after a
/// plus sign or without one. None where the text is of another form, or
/// spells more than the machine can hold.
pub open spec fn number_of(text: Seq<char>) -> Option<usize> {
    let digits = unsigned(text);
    if digits.len() == 0 {
        None
    } else {
        match digits_value(digits) {
            Some(value) => if value <= usize::MAX {
                Some(value as usize)
            } else {
                None
            },
            None => None,
        }
    }
}

/// A run of digits spells no less than any run that it starts with, and
/// spells nothing where such a run spells nothing.
pub proof fn lemma_digits_grow(digits: Seq<char>, upto: int)
    requires
        0 <= upto <= digits.len(),
    ensures
        digits_value(digits.subrange(0, upto)) is None ==> digits_value(digits) is None,
        digits_value(digits) matches Some(value) ==> 0 <= digits_value(digits.subrange(0, upto)).unwrap() <= value,
    decreases digits.len() - upto,
{
    if upto == digits.len() {
        assert(digits.subrange(0, upto) =~= digits);
        lemma_digits_not_negative(digits);
    } else {
        lemma_digits_grow(digits.drop_last(), upto);
        assert(digits.drop_last().subrange(0, upto) =~= digits.subrange(0, upto));
        lemma_digits_not_negative(digits.drop_last());
    }
}

/// What a run of digits spells is not negative.
pub proof fn lemma_digits_not_negative(digits: Seq<char>)
    ensures
        digits_value(digits) matches Some(value) ==> value >= 0,
    decreases digits.len(),
{
    if digits.len() > 0 {
        lemma_digits_not_negative(digits.drop_last());
    }
}

/// The decimal text of a number spells that number.
pub proof fn lemma_number_round_trip(n: usize)
    ensures
        number_text(n).len() > 0,
        number_text(n)[0] != '+',
        digits_value(number_text(n)) == Some(n as int),
        number_of(number_text(n)) == Some(n),
    decreases n,
{
    let text = number_text(n);
    if n < 10 {
        assert(text.drop_last() =~= Seq::<char>::empty());
        assert(digits_value(text.drop_last()) == Some(0int));
        assert(text.last() == digit_char(n as int));
        assert(digit_of(digit_char(n as int)) == Some(n as int));
    } else {
        lemma_number_round_trip((n / 10) as usize);
        let front = number_text((n / 10) as usize);
        assert(text.drop_last() =~= front);
        assert(text.last() == digit_char(n as int % 10));
        assert(digit_of(digit_char(n as int % 10)) == Some(n as int % 10));
        assert(text[0] == front[0]);
    }
    assert(unsigned(text) == text);
}

/// The number that a text spells in decimal.
pub fn read_number(text: &str) -> (number: Option<usize>)
    ensures
        number == number_of(text@),
{
    let len = text.unicode_len();
    let mut i: usize = 0;
    if len > 0 && text.get_char(0) == '+' {
        i = 1;
    }
    let start = i;
    let ghost digits = unsigned(text@);
    if i == len {
        return None;
    }
    let mut value: usize = 0;
    assert(digits.subrange(0, 0) =~= Seq::<char>::empty());
    while i < len
        invariant
            start <= i <= len,
            len == text@.len(),
            digits == unsigned(text@),
            digits.len() == len - start,
            forall|k: int| 0 <= k < digits.len() ==> digits[k] == text@[k + start],
            digits_value(digits.subrange(0, i - start)) == Some(value as int),
        decreases len - i,
    {
        let c = text.get_char(i);
        proof {
            let next = digits.subrange(0, i - start + 1);
            assert(next.drop_last() =~= digits.subrange(0, i - start));
            assert(next.last() == c);
            lemma_digits_grow(digits, i - start + 1);
        }
        if c < '0' || c > '9' {
            return None;
        }
        let digit: usize = (c as u32 - '0' as u32) as usize;
        let tens = match value.checked_mul(10) {
            Some(tens) => tens,
            None => {
                return None;
            },
        };
        value = match tens.checked_add(digit) {
            Some(sum) => sum,
            None => {
                return None;
            },
        };
        i += 1;
    }
    assert(digits.subrange(0, digits.len() as int) =~= digits);
    Some(value)
}

} // verus!
