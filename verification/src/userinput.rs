//! What a typed line means: a rule in the notation of the game, or a
//! command of play.

use crate::board::Position;
use crate::matching::{
    every_match, first_match, match_every, match_first, number_of, read_number, split_words, texts_of, texts_of_all,
    trim_line, trimmed, words_of,
};
use crate::rules::{PermutationRule, RelationRule, Rule, RuleModel, SumRule};
use vstd::prelude::*;

verus! {

/// The pattern of a position list: each `row,column` pair in it.
pub open spec fn pair_pattern() -> Seq<char> {
    "(\\d+),(\\d+)"@
}

/// The pattern of a permutation rule: `PERMUTATION [` positions `]`.
pub open spec fn permutation_pattern() -> Seq<char> {
    "^PERMUTATION \\[([^\\]]+)\\]$"@
}

/// The pattern of a sum rule: `SUM [` positions `] ` target.
pub open spec fn sum_pattern() -> Seq<char> {
    "^SUM \\[([^\\]]+)\\] (\\d+)$"@
}

/// The pattern of a relation rule: `SMALLER ` position ` ` position.
pub open spec fn relation_pattern() -> Seq<char> {
    "^SMALLER (\\d+),(\\d+) (\\d+),(\\d+)$"@
}

/// The position that two texts spell, row first: none where either spells
/// no number or the numbers name no cell.
pub open spec fn position_spelled(row: Seq<char>, col: Seq<char>) -> Option<Position> {
    match (number_of(row), number_of(col)) {
        (Some(r), Some(c)) => if Position::addressable(r, c) {
            Some(Position::spec_at(r, c))
        } else {
            None
        },
        _ => None,
    }
}

/// The positions that the first `upto` pairs spell: none where a pair does
/// not have two parts or spells no position.
pub open spec fn positions_spelled(pairs: Seq<Seq<Seq<char>>>, upto: int) -> Option<Seq<Position>>
    decreases upto,
{
    if upto <= 0 {
        Some(Seq::empty())
    } else {
        match positions_spelled(pairs, upto - 1) {
            Some(front) => if pairs[upto - 1].len() == 2 {
                match position_spelled(pairs[upto - 1][0], pairs[upto - 1][1]) {
                    Some(p) => Some(front.push(p)),
                    None => None,
                }
            } else {
                None
            },
            None => None,
        }
    }
}

/// The positions that a text lists: every `row,column` pair in it, in
/// order; none where a pair names no cell.
pub open spec fn positions_in(input: Seq<char>) -> Option<Seq<Position>> {
    match every_match(pair_pattern(), input) {
        Some(pairs) => positions_spelled(pairs, pairs.len() as int),
        None => None,
    }
}

/// The permutation rule that a text spells, with the given stable index.
pub open spec fn permutation_in(input: Seq<char>, index: usize) -> Option<RuleModel> {
    match first_match(permutation_pattern(), input) {
        Some(groups) => if groups.len() == 1 {
            match positions_in(groups[0]) {
                Some(positions) => Some(RuleModel::Permutation { positions, index }),
                None => None,
            }
        } else {
            None
        },
        None => None,
    }
}

/// The sum rule that a text spells, with the given stable index.
pub open spec fn sum_in(input: Seq<char>, index: usize) -> Option<RuleModel> {
    match first_match(sum_pattern(), input) {
        Some(groups) => if groups.len() == 2 {
            match (positions_in(groups[0]), number_of(groups[1])) {
                (Some(positions), Some(target)) => Some(RuleModel::Sum { positions, target, index }),
                _ => None,
            }
        } else {
            None
        },
        None => None,
    }
}

/// The relation rule that a text spells, with the given stable index.
pub open spec fn relation_in(input: Seq<char>, index: usize) -> Option<RuleModel> {
    match first_match(relation_pattern(), input) {
        Some(groups) => if groups.len() == 4 {
            match (position_spelled(groups[0], groups[1]), position_spelled(groups[2], groups[3])) {
                (Some(first), Some(second)) => Some(RuleModel::Relation { positions: seq![first, second], index }),
                _ => None,
            }
        } else {
            None
        },
        None => None,
    }
}

/// The position that two texts spell, row first.
pub fn parse_position(row: &str, col: &str) -> (pos: Option<Position>)
    ensures
        pos == position_spelled(row@, col@),
{
    let r = match read_number(row) {
        Some(r) => r,
        None => {
            return None;
        },
    };
    let c = match read_number(col) {
        Some(c) => c,
        None => {
            return None;
        },
    };
    Position::new(r, c)
}

/// The positions that a list of pairs of texts spells.
pub fn positions_from_pairs(pairs: &Vec<Vec<String>>) -> (positions: Option<Vec<Position>>)
    ensures
        match positions {
            Some(list) => positions_spelled(texts_of_all(pairs@), pairs@.len() as int) == Some(list@),
            None => positions_spelled(texts_of_all(pairs@), pairs@.len() as int) is None,
        },
{
    let ghost all = texts_of_all(pairs@);
    let mut positions: Vec<Position> = Vec::new();
    let mut i: usize = 0;
    while i < pairs.len()
        invariant
            i <= pairs@.len(),
            all == texts_of_all(pairs@),
            positions_spelled(all, i as int) == Some(positions@),
        decreases pairs@.len() - i,
    {
        let pair = &pairs[i];
        assert(all[i as int] == texts_of(pair@));
        if pair.len() != 2 {
            assert(positions_spelled(all, i + 1) is None);
            proof {
                lemma_spelled_none(all, i + 1, pairs@.len() as int);
            }
            return None;
        }
        match parse_position(pair[0].as_str(), pair[1].as_str()) {
            Some(p) => {
                positions.push(p);
            },
            None => {
                assert(positions_spelled(all, i + 1) is None);
                proof {
                    lemma_spelled_none(all, i + 1, pairs@.len() as int);
                }
                return None;
            },
        }
        i += 1;
    }
    Some(positions)
}

/// Once a pair spells no position, no longer list of pairs spells any.
proof fn lemma_spelled_none(pairs: Seq<Seq<Seq<char>>>, from: int, upto: int)
    requires
        0 < from <= upto,
        positions_spelled(pairs, from) is None,
    ensures
        positions_spelled(pairs, upto) is None,
    decreases upto - from,
{
    if from < upto {
        lemma_spelled_none(pairs, from, upto - 1);
    }
}

/// The positions that a text lists: every `row,column` pair in it, in
/// order. A pair that names no cell spoils the whole list.
pub fn parse_positions(input: &str) -> (positions: Option<Vec<Position>>)
    ensures
        match positions {
            Some(list) => positions_in(input@) == Some(list@),
            None => positions_in(input@) is None,
        },
{
    proof {
        reveal_strlit("(\\d+),(\\d+)");
    }
    match match_every("(\\d+),(\\d+)", input) {
        Some(pairs) => positions_from_pairs(&pairs),
        None => None,
    }
}

/// The permutation rule that a text of the form `PERMUTATION [1,1 2,2]`
/// spells, with the given stable index.
pub fn parse_permutation_rule(input: &str, index: usize) -> (rule: Option<PermutationRule>)
    ensures
        match rule {
            Some(r) => permutation_in(input@, index) == Some(r@),
            None => permutation_in(input@, index) is None,
        },
{
    let groups = match match_first("^PERMUTATION \\[([^\\]]+)\\]$", input) {
        Some(groups) => groups,
        None => {
            return None;
        },
    };
    if groups.len() != 1 {
        return None;
    }
    match parse_positions(groups[0].as_str()) {
        Some(positions) => Some(PermutationRule::new(positions, index)),
        None => None,
    }
}

/// The sum rule that a text of the form `SUM [1,1 1,2] 7` spells, with
/// the given stable index.
pub fn parse_sum_rule(input: &str, index: usize) -> (rule: Option<SumRule>)
    ensures
        match rule {
            Some(r) => sum_in(input@, index) == Some(r@),
            None => sum_in(input@, index) is None,
        },
{
    let groups = match match_first("^SUM \\[([^\\]]+)\\] (\\d+)$", input) {
        Some(groups) => groups,
        None => {
            return None;
        },
    };
    if groups.len() != 2 {
        return None;
    }
    let positions = match parse_positions(groups[0].as_str()) {
        Some(positions) => positions,
        None => {
            return None;
        },
    };
    match read_number(groups[1].as_str()) {
        Some(sum) => Some(SumRule::new(positions, sum, index)),
        None => None,
    }
}

/// The relation rule that a text of the form `SMALLER 1,1 1,2` spells,
/// with the given stable index: the first cell is to hold less than the
/// second.
pub fn parse_relation_rule(input: &str, index: usize) -> (rule: Option<RelationRule>)
    ensures
        match rule {
            Some(r) => relation_in(input@, index) == Some(r@),
            None => relation_in(input@, index) is None,
        },
{
    let groups = match match_first("^SMALLER (\\d+),(\\d+) (\\d+),(\\d+)$", input) {
        Some(groups) => groups,
        None => {
            return None;
        },
    };
    if groups.len() != 4 {
        return None;
    }
    let first = match parse_position(groups[0].as_str(), groups[1].as_str()) {
        Some(p) => p,
        None => {
            return None;
        },
    };
    let second = match parse_position(groups[2].as_str(), groups[3].as_str()) {
        Some(p) => p,
        None => {
            return None;
        },
    };
    let mut rule = RelationRule::new(index);
    rule.add_position(first);
    rule.add_position(second);
    assert(rule@.positions() =~= seq![first, second]);
    Some(rule)
}

/// What a line typed at the rule prompt asks for.
#[derive(Debug)]
pub enum RuleInput {
    /// `p`: no more rules, start to play.
    Play,
    /// `h`: show the notation.
    Help,
    /// A rule in the notation.
    Entered(Rule),
    /// Anything else.
    Invalid,
}

impl RuleInput {
    /// The number that tells the prompt how to go on: 0 to start playing,
    /// 1 to ask again, 2 to take the rule and ask for the next.
    pub fn code(&self) -> (code: usize)
        ensures
            code == match self {
                RuleInput::Play => 0usize,
                RuleInput::Help => 1usize,
                RuleInput::Entered(_) => 2usize,
                RuleInput::Invalid => 1usize,
            },
    {
        match self {
            RuleInput::Play => 0,
            RuleInput::Help => 1,
            RuleInput::Entered(_) => 2,
            RuleInput::Invalid => 1,
        }
    }
}

/// The rule that a text spells, with the given stable index: a permutation
/// rule if it spells one, else a sum rule, else a relation rule.
pub open spec fn rule_in(input: Seq<char>, index: usize) -> Option<RuleModel> {
    if permutation_in(input, index) is Some {
        permutation_in(input, index)
    } else if sum_in(input, index) is Some {
        sum_in(input, index)
    } else {
        relation_in(input, index)
    }
}

/// Whether `answer` is what the line asks for at the rule prompt. The line
/// is read without the white space at its ends.
pub open spec fn answers_rule_line(answer: RuleInput, line: Seq<char>, index: usize) -> bool {
    let text = trimmed(line);
    if text == "p"@ {
        answer is Play
    } else if text == "h"@ {
        answer is Help
    } else {
        match rule_in(text, index) {
            Some(model) => answer matches RuleInput::Entered(rule) && rule@ == model,
            None => answer is Invalid,
        }
    }
}

/// What a line typed at the rule prompt asks for. A rule that the line
/// spells gets the stable index `index`.
pub fn interpret_rule(line: &str, index: usize) -> (answer: RuleInput)
    ensures
        answers_rule_line(answer, line@, index),
{
    let text = trim_line(line);
    if text == String::from_str("p") {
        return RuleInput::Play;
    }
    if text == String::from_str("h") {
        return RuleInput::Help;
    }
    match parse_permutation_rule(text.as_str(), index) {
        Some(rule) => {
            return RuleInput::Entered(Rule::Permutation(rule));
        },
        None => {},
    }
    match parse_sum_rule(text.as_str(), index) {
        Some(rule) => {
            return RuleInput::Entered(Rule::Sum(rule));
        },
        None => {},
    }
    match parse_relation_rule(text.as_str(), index) {
        Some(rule) => RuleInput::Entered(Rule::Relation(rule)),
        None => RuleInput::Invalid,
    }
}

/// Why a line is no command.
#[derive(Clone, Copy, Debug, PartialEq, Eq, Structural)]
pub enum Mistake {
    /// The line has no word.
    Empty,
    /// A move needs a row, a column and a value.
    MoveShape,
    /// The row and the column of a move name no cell.
    MoveCell,
    /// The value of a move is no number.
    MoveValue,
    /// A save needs a file name.
    SaveShape,
    /// The first word is no command.
    Unknown,
}

/// A command of play.
#[derive(Debug)]
pub enum Command {
    /// `m row column value`: write the value to the cell.
    Move(Position, usize),
    /// `s filename`: save the game.
    Save(String),
    /// `f`: let the solver finish the game.
    Finish,
    /// `q`: leave.
    Quit,
    /// No command.
    Invalid(Mistake),
}

/// What a command is, apart from how it is stored.
pub enum CommandModel {
    Move(Position, usize),
    Save(Seq<char>),
    Finish,
    Quit,
    Invalid(Mistake),
}

impl View for Command {
    type V = CommandModel;

    open spec fn view(&self) -> CommandModel {
        match self {
            Command::Move(pos, value) => CommandModel::Move(*pos, *value),
            Command::Save(name) => CommandModel::Save(name@),
            Command::Finish => CommandModel::Finish,
            Command::Quit => CommandModel::Quit,
            Command::Invalid(mistake) => CommandModel::Invalid(*mistake),
        }
    }
}

/// The command that a list of words spells. The first word decides:
/// `m` with a row, a column and a value is a move, `s` with a file name a
/// save, `f` finishes and `q` quits, whatever follows them.
pub open spec fn command_of(words: Seq<Seq<char>>) -> CommandModel {
    if words.len() == 0 {
        CommandModel::Invalid(Mistake::Empty)
    } else if words[0] == "m"@ {
        if words.len() != 4 {
            CommandModel::Invalid(Mistake::MoveShape)
        } else {
            match position_spelled(words[1], words[2]) {
                None => CommandModel::Invalid(Mistake::MoveCell),
                Some(pos) => match number_of(words[3]) {
                    None => CommandModel::Invalid(Mistake::MoveValue),
                    Some(value) => CommandModel::Move(pos, value),
                },
            }
        }
    } else if words[0] == "s"@ {
        if words.len() != 2 {
            CommandModel::Invalid(Mistake::SaveShape)
        } else {
            CommandModel::Save(words[1])
        }
    } else if words[0] == "f"@ {
        CommandModel::Finish
    } else if words[0] == "q"@ {
        CommandModel::Quit
    } else {
        CommandModel::Invalid(Mistake::Unknown)
    }
}

/// The command that a list of words spells.
pub fn command_from_words(words: &Vec<String>) -> (command: Command)
    ensures
        command@ == command_of(texts_of(words@)),
{
    if words.len() == 0 {
        return Command::Invalid(Mistake::Empty);
    }
    let ghost all = texts_of(words@);
    assert(all[0] == words@[0]@);
    if words[0] == String::from_str("m") {
        if words.len() != 4 {
            return Command::Invalid(Mistake::MoveShape);
        }
        assert(all[1] == words@[1]@ && all[2] == words@[2]@ && all[3] == words@[3]@);
        let pos = match parse_position(words[1].as_str(), words[2].as_str()) {
            Some(pos) => pos,
            None => {
                return Command::Invalid(Mistake::MoveCell);
            },
        };
        match read_number(words[3].as_str()) {
            Some(value) => Command::Move(pos, value),
            None => Command::Invalid(Mistake::MoveValue),
        }
    } else if words[0] == String::from_str("s") {
        if words.len() != 2 {
            return Command::Invalid(Mistake::SaveShape);
        }
        assert(all[1] == words@[1]@);
        Command::Save(words[1].clone())
    } else if words[0] == String::from_str("f") {
        Command::Finish
    } else if words[0] == String::from_str("q") {
        Command::Quit
    } else {
        Command::Invalid(Mistake::Unknown)
    }
}

/// The command that a typed line spells: that of its words, the line read
/// without the white space at its ends.
pub fn interpret_command(line: &str) -> (command: Command)
    ensures
        command@ == command_of(words_of(trimmed(line@))),
{
    let text = trim_line(line);
    let words = split_words(text.as_str());
    command_from_words(&words)
}

} // verus!
