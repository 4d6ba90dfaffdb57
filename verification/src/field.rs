//! One cell of the grid as the window shows it: its value, the text on it
//! and its colour.

use crate::board::N;
use crate::text::{append_number, number_text, render_number};
use vstd::prelude::*;

verus! {

/// The value that, sent to a field, leaves its value as it is and only
/// refreshes its text.
pub const KEEP: usize = N + 1;

/// A field of the window's grid.
#[derive(Debug)]
pub struct Field {
    pub value: usize,
    pub display_value: String,
    pub color: usize,
    pub index: usize,
}

/// What a field can be told.
#[derive(Debug, PartialEq, Eq)]
pub enum FieldMsg {
    /// Take this colour.
    ChangeColor(usize),
    /// The field was clicked.
    ChangeValue,
    /// Show these candidates, if the field is empty.
    SetHints(Vec<usize>),
    /// Take this value and show it.
    SetValue(usize),
}

/// What a field reports to the window.
#[derive(Clone, Copy, Debug, PartialEq, Eq, Structural)]
pub enum FieldOutput {
    /// The field with this index was clicked.
    FieldClicked(usize),
}

/// What a field is, apart from how its text is stored.
pub struct FieldModel {
    pub value: usize,
    pub display: Seq<char>,
    pub color: usize,
    pub index: usize,
}

/// What a message to a field is, apart from how its list is stored.
pub enum FieldMsgModel {
    ChangeColor(usize),
    ChangeValue,
    SetHints(Seq<usize>),
    SetValue(usize),
}

impl View for FieldMsg {
    type V = FieldMsgModel;

    open spec fn view(&self) -> FieldMsgModel {
        match self {
            FieldMsg::ChangeColor(color) => FieldMsgModel::ChangeColor(*color),
            FieldMsg::ChangeValue => FieldMsgModel::ChangeValue,
            FieldMsg::SetHints(hints) => FieldMsgModel::SetHints(hints@),
            FieldMsg::SetValue(value) => FieldMsgModel::SetValue(*value),
        }
    }
}

impl View for Field {
    type V = FieldModel;

    open spec fn view(&self) -> FieldModel {
        FieldModel { value: self.value, display: self.display_value@, color: self.color, index: self.index }
    }
}

/// The text that a field shows for its value: `_` for none.
pub open spec fn value_text(value: usize) -> Seq<char> {
    if value == 0 {
        "_"@
    } else {
        number_text(value)
    }
}

/// The numbers of the list in decimal, a blank between each two.
pub open spec fn hints_text(hints: Seq<usize>) -> Seq<char>
    decreases hints.len(),
{
    if hints.len() == 0 {
        Seq::empty()
    } else if hints.len() == 1 {
        number_text(hints[0])
    } else {
        hints_text(hints.drop_last()) + " "@ + number_text(hints.last())
    }
}

/// The field after it was told `msg`. A click changes nothing. A value is
/// taken, unless it is `KEEP`, and shown. Candidates are shown while the
/// field has no value.
pub open spec fn told(field: FieldModel, msg: FieldMsgModel) -> FieldModel {
    match msg {
        FieldMsgModel::ChangeValue => field,
        FieldMsgModel::ChangeColor(color) => FieldModel { color, ..field },
        FieldMsgModel::SetValue(value) => {
            let kept = if value != KEEP {
                value
            } else {
                field.value
            };
            FieldModel { value: kept, display: value_text(kept), ..field }
        },
        FieldMsgModel::SetHints(hints) => if field.value == 0 {
            FieldModel { display: hints_text(hints), ..field }
        } else {
            field
        },
    }
}

/// The numbers of the list in decimal, a blank between each two.
pub fn render_hints(hints: &Vec<usize>) -> (text: String)
    ensures
        text@ == hints_text(hints@),
{
    let mut text = String::new();
    let mut i: usize = 0;
    assert(hints@.subrange(0, 0) =~= Seq::<usize>::empty());
    while i < hints.len()
        invariant
            i <= hints@.len(),
            text@ == hints_text(hints@.subrange(0, i as int)),
        decreases hints@.len() - i,
    {
        let ghost seen = hints@.subrange(0, i as int);
        let ghost next = hints@.subrange(0, i + 1);
        proof {
            assert(next.drop_last() =~= seen);
            assert(next.last() == hints@[i as int]);
            if i == 0 {
                assert(next[0] == hints@[0]);
                assert(Seq::<char>::empty() + number_text(hints@[0]) =~= number_text(hints@[0]));
            }
        }
        if i > 0 {
            text.append(" ");
        }
        append_number(&mut text, hints[i]);
        i += 1;
    }
    assert(hints@.subrange(0, hints@.len() as int) =~= hints@);
    text
}

impl Field {
    /// A field without a value, of the given colour, at the given place
    /// in the list of fields.
    pub fn new(color: usize, index: usize) -> (field: Field)
        ensures
            field@ == (FieldModel { value: 0, display: "_"@, color, index }),
    {
        Field { value: 0, display_value: String::from_str("_"), color, index }
    }

    /// Where the field with the given index stands in the grid of the
    /// window, as `(column, row)`: the fields go down the columns.
    pub fn position(index: usize) -> (place: (usize, usize))
        ensures
            place.0 == index / N,
            place.1 == index % N,
    {
        (index / N, index % N)
    }

    /// Tells the field `msg`. A click is reported to the window; nothing
    /// else is.
    pub fn update(&mut self, msg: FieldMsg) -> (output: Option<FieldOutput>)
        ensures
            final(self)@ == told(old(self)@, msg@),
            output == if msg@ is ChangeValue {
                Some(FieldOutput::FieldClicked(old(self).index))
            } else {
                None
            },
    {
        match msg {
            FieldMsg::ChangeValue => Some(FieldOutput::FieldClicked(self.index)),
            FieldMsg::SetValue(value) => {
                if value != KEEP {
                    self.value = value;
                }
                if self.value == 0 {
                    self.display_value = String::from_str("_");
                } else {
                    self.display_value = render_number(self.value);
                }
                None
            },
            FieldMsg::ChangeColor(color) => {
                self.color = color;
                None
            },
            FieldMsg::SetHints(hints) => {
                if self.value == 0 {
                    self.display_value = render_hints(&hints);
                }
                None
            },
        }
    }
}

/// A custom rule as the window shows it: a button that selects the rule.
#[derive(Debug)]
pub struct RuleButton {
    pub display_value: String,
    pub color: usize,
    pub index: usize,
}

/// What a rule button can be told.
#[derive(Clone, Copy, Debug, PartialEq, Eq, Structural)]
pub enum RuleMsg {
    /// The button was clicked.
    Clicked,
}

/// What a rule button reports to the window.
#[derive(Clone, Copy, Debug, PartialEq, Eq, Structural)]
pub enum RuleOutput {
    /// The rule with this number was selected.
    RuleClicked(usize),
}

impl RuleButton {
    /// A button with the given label and colour, at the given place in the
    /// list of buttons.
    pub fn new(display_value: String, color: usize, index: usize) -> (button: RuleButton)
        ensures
            button.display_value@ == display_value@,
            button.color == color,
            button.index == index,
    {
        RuleButton { display_value, color, index }
    }

    /// Where the button with the given index stands in the row of
    /// buttons, as `(column, row)`.
    pub fn position(index: usize) -> (place: (usize, usize))
        ensures
            place == (index, 0usize),
    {
        (index, 0)
    }

    /// Tells the button `msg`: a click selects its rule.
    pub fn update(&self, msg: RuleMsg) -> (output: RuleOutput)
        ensures
            output == RuleOutput::RuleClicked(self.index),
    {
        match msg {
            RuleMsg::Clicked => RuleOutput::RuleClicked(self.index),
        }
    }
}

} // verus!
