//! The game as a player drives it through the window: what each click,
//! key and finished piece of outside work changes, and what the window is
//! to do about it.

use crate::board::{is_grid, with_cell, Position, N};
use crate::field::{FieldMsg, FieldMsgModel};
use crate::game::{all_satisfied, rules_on_grid, Game};
use crate::matching::{number_of, read_number};
use crate::rules::{PermutationRule, RelationRule, Rule, RuleModel, SumRule};
use crate::search::{candidates, extends, initial, is_solution, solution_of};
use crate::solver::Solver;
use crate::text::{append_number, number_text};
use vstd::prelude::*;

verus! {

/// The number of rows of a block of the window's grid.
pub const R: usize = 3;

/// The number of columns of a block of the window's grid.
pub const C: usize = 3;

/// The most custom rules that the window takes.
pub const MAX_RULES: usize = 8;

/// What the window can be told: what the player did, and how outside work
/// that was asked for has ended.
#[derive(Debug)]
pub enum AppMsg {
    /// The field with this index was clicked.
    FieldClicked(usize),
    /// The value that clicks write from now on.
    ChangeValue(usize),
    /// Let the solver finish the game.
    Solve,
    /// Add a custom rule: kind 0 a permutation rule, kind 1 a sum rule
    /// with the target that the text spells, any other kind a relation rule.
    AddRule(usize, String),
    /// The custom rule with this number was selected.
    RuleActive(usize),
    /// The game is finished.
    Finished,
    /// Switch between planning rules and playing.
    TogglePlanning,
    /// Show or hide the state of the rules.
    ToggleRules,
    /// Show the help.
    Help,
    /// Show or hide the candidates of the empty fields.
    Hints,
    /// Replace the game by a generated puzzle.
    Generate,
    /// The board cannot be completed.
    Wrong,
    /// Load a game from the file with this name.
    Load(String),
    /// Save the game to the file with this name.
    Save(String),
    /// The game that was read from a file.
    Loaded(Game),
    /// Why no game could be read.
    LoadFailed(String),
    /// The game was written.
    Saved,
    /// Why the game could not be written.
    SaveFailed(String),
}

/// What the window is to do.
#[derive(Debug, PartialEq, Eq)]
pub enum Action {
    /// Tell the field with this index the message.
    Field(usize, FieldMsg),
    /// Tell every field the value that the game holds at its cell.
    ShowBoard,
    /// Tell every field to show its value again.
    RefreshFields,
    /// Tell each field the candidates listed for its index.
    ShowHints(Vec<Vec<usize>>),
    /// Add a rule button with this label and colour.
    AddRuleButton(String, usize),
    /// Remove every rule button.
    ClearRuleButtons,
    /// Show the text in a dialog.
    Popup(String),
    /// Tell the window that the game is finished.
    RaiseFinished,
    /// Tell the window that the board cannot be completed.
    RaiseWrong,
    /// Write the game to the file with this name, and tell how it went.
    SaveFile(String),
    /// Read a game from the file with this name, and tell how it went.
    LoadFile(String),
}

/// What an action is, apart from how its texts and lists are stored.
pub enum ActionModel {
    Field(usize, FieldMsgModel),
    ShowBoard,
    RefreshFields,
    ShowHints(Seq<Seq<usize>>),
    AddRuleButton(Seq<char>, usize),
    ClearRuleButtons,
    Popup(Seq<char>),
    RaiseFinished,
    RaiseWrong,
    SaveFile(Seq<char>),
    LoadFile(Seq<char>),
}

impl View for Action {
    type V = ActionModel;

    open spec fn view(&self) -> ActionModel {
        match self {
            Action::Field(index, msg) => ActionModel::Field(*index, msg@),
            Action::ShowBoard => ActionModel::ShowBoard,
            Action::RefreshFields => ActionModel::RefreshFields,
            Action::ShowHints(lists) => ActionModel::ShowHints(Seq::new(lists@.len(), |i: int| lists@[i]@)),
            Action::AddRuleButton(label, color) => ActionModel::AddRuleButton(label@, *color),
            Action::ClearRuleButtons => ActionModel::ClearRuleButtons,
            Action::Popup(text) => ActionModel::Popup(text@),
            Action::RaiseFinished => ActionModel::RaiseFinished,
            Action::RaiseWrong => ActionModel::RaiseWrong,
            Action::SaveFile(name) => ActionModel::SaveFile(name@),
            Action::LoadFile(name) => ActionModel::LoadFile(name@),
        }
    }
}

/// The models of a list of actions.
pub open spec fn plan(actions: Seq<Action>) -> Seq<ActionModel> {
    Seq::new(actions.len(), |i: int| actions[i]@)
}

/// The state of the window's game.
pub struct App {
    global_value: usize,
    rule_active: usize,
    game: Game,
    finished: usize,
    planning: bool,
    show_rules: bool,
    hints: bool,
}

/// What the state of the window's game is, apart from how it is stored.
pub struct AppModel {
    pub global_value: usize,
    pub rule_active: usize,
    pub cells: Seq<Seq<usize>>,
    pub rules: Seq<RuleModel>,
    pub base: usize,
    pub side: usize,
    pub finished: usize,
    pub planning: bool,
    pub show_rules: bool,
    pub hints: bool,
}

impl AppModel {
    /// How many custom rules the game has.
    pub open spec fn custom(self) -> int {
        self.rules.len() - self.base
    }

    /// The custom rule that is selected, where there is one.
    pub open spec fn active(self) -> RuleModel {
        self.rules[self.base + self.rule_active]
    }
}

/// The text of the help.
pub open spec fn help_text() -> Seq<char> {
    "Help:\npress 0-N to choose current setting value,\nyou can move with arrows to select field and press Enter to set value,\nclicking on field will also set current setting value,\nthree types of rules are available: for each one select corresponding box from add rule, then select positions to apply,\n'f' to finish game using solver,\n'r' to toggle planning mode,\n'p' to show all possible values for every field,\n'g' to generate sudoku game,\n"@
}

/// The colour with the given number of the block that holds `pos`.
pub open spec fn block_color(pos: Position) -> usize {
    (7 + ((pos.row() - 1) / (R as int) + (pos.col() - 1) / (C as int)) % 2) as usize
}

/// The actions that give each position of the list a colour: its own
/// block's colour where `own` is set, else `color`.
pub open spec fn recolor(positions: Seq<Position>, own: bool, color: usize) -> Seq<ActionModel> {
    Seq::new(
        positions.len(),
        |i: int|
            ActionModel::Field(
                positions[i].spec_index() as usize,
                FieldMsgModel::ChangeColor(
                    if own {
                        block_color(positions[i])
                    } else {
                        color
                    },
                ),
            ),
    )
}

/// The label of the button of a rule that was read from a file.
pub open spec fn label_of(rule: RuleModel) -> Seq<char> {
    match rule {
        RuleModel::Permutation { .. } => "Permutation"@,
        RuleModel::Sum { target, .. } => "Sum: "@ + number_text(target),
        RuleModel::Relation { .. } => "Relation"@,
    }
}

/// The actions that add a button for each custom rule, in order.
pub open spec fn buttons_for(rules: Seq<RuleModel>, base: int) -> Seq<ActionModel> {
    Seq::new(
        (rules.len() - base) as nat,
        |k: int| ActionModel::AddRuleButton(label_of(rules[base + k]), k as usize),
    )
}

/// The candidates that a fresh solver of the game has for the cell of
/// each field, none for a field whose cell is not on the board.
pub open spec fn hints_for(rules: Seq<RuleModel>, side: int, cells: Seq<Seq<usize>>) -> Seq<Seq<usize>> {
    Seq::new(
        (N * N) as nat,
        |k: int|
            {
                let pos = Position::spec_at((k % (N as int) + 1) as usize, (k / (N as int) + 1) as usize);
                if pos.on_grid(side) {
                    candidates(initial(rules, side, cells).0.options, pos)
                } else {
                    Seq::empty()
                }
            },
    )
}

/// The position of the field with the given index.
pub open spec fn field_position(index: int) -> Position {
    Position::spec_at((index % (N as int) + 1) as usize, (index / (N as int) + 1) as usize)
}

/// Whether the field with the given index shows a cell of a board of the
/// given side.
pub open spec fn shows_cell(index: int, side: int) -> bool {
    0 <= index < N * N && field_position(index).on_grid(side)
}

/// Whether `after` and `actions` are what a click on the field `index`
/// makes of `before`. A field that shows no cell of the board does
/// nothing. While rules are planned and there is one, the click puts the
/// cell into the selected rule or takes it out, and colours the field.
/// Else it writes the chosen value, and tells when the game is won.
pub open spec fn clicked(before: AppModel, index: usize, after: AppModel, actions: Seq<ActionModel>) -> bool {
    let pos = field_position(index as int);
    if !shows_cell(index as int, before.side as int) {
        after == before && actions == Seq::<ActionModel>::empty()
    } else if before.planning && before.custom() > 0 {
        if before.rule_active >= before.custom() {
            after == before && actions == Seq::<ActionModel>::empty()
        } else if before.active().positions().contains(pos) {
            &&& after == (AppModel {
                rules: before.rules.update(
                    before.base + before.rule_active,
                    crate::game::removal(before.active(), pos),
                ),
                ..before
            })
            &&& actions == seq![ActionModel::Field(index, FieldMsgModel::ChangeColor(block_color(pos)))]
        } else {
            &&& after == (AppModel {
                rules: before.rules.update(
                    before.base + before.rule_active,
                    before.active().with_positions(before.active().positions().push(pos)),
                ),
                ..before
            })
            &&& actions == seq![ActionModel::Field(index, FieldMsgModel::ChangeColor(before.rule_active))]
        }
    } else {
        let cells = with_cell(before.cells, pos, before.global_value);
        let shown = ActionModel::Field(index, FieldMsgModel::SetValue(before.global_value));
        if crate::board::all_filled(cells) && all_satisfied(before.rules, cells, before.side as int) {
            after == (AppModel { cells, finished: 0, ..before }) && actions == seq![ActionModel::RaiseFinished, shown]
        } else {
            after == (AppModel { cells, ..before }) && actions == seq![shown]
        }
    }
}

/// Whether `after` and `actions` are what the solver makes of `before`:
/// the solution on the board where it finds one, and word that the board
/// is wrong where it finds none or cannot take the board.
pub open spec fn finished_by_solver(before: AppModel, after: AppModel, actions: Seq<ActionModel>) -> bool {
    if before.side > N {
        after == before && actions == seq![ActionModel::RaiseWrong]
    } else {
        match solution_of(before.rules, before.side as int, before.cells) {
            Some(cells) => {
                &&& after == (AppModel { cells, finished: 2, ..before })
                &&& actions == seq![ActionModel::ShowBoard, ActionModel::RaiseFinished]
            },
            None => after == before && actions == seq![ActionModel::RaiseWrong],
        }
    }
}

/// Whether `after` and `actions` are what the hint key makes of
/// `before`: the hints taken back where they are shown, and shown where
/// they are not and a solver can take the board.
pub open spec fn hinted(before: AppModel, after: AppModel, actions: Seq<ActionModel>) -> bool {
    if before.hints {
        after == (AppModel { hints: false, ..before }) && actions == seq![ActionModel::RefreshFields]
    } else if before.side <= N {
        &&& after == (AppModel { hints: true, ..before })
        &&& actions == seq![ActionModel::ShowHints(hints_for(before.rules, before.side as int, before.cells))]
    } else {
        after == before && actions == Seq::<ActionModel>::empty()
    }
}

/// The custom rule that is added for a kind and a text, with the given
/// stable index, and the label of its button: none where the kind asks for
/// a sum and the text spells no number.
pub open spec fn rule_asked(kind: usize, text: Seq<char>, index: usize) -> Option<(RuleModel, Seq<char>)> {
    if kind == 0 {
        Some((RuleModel::Permutation { positions: Seq::empty(), index }, "Permutation"@))
    } else if kind == 1 {
        match number_of(text) {
            Some(target) => Some(
                (RuleModel::Sum { positions: Seq::empty(), target, index }, "SUM: "@ + number_text(target)),
            ),
            None => None,
        }
    } else {
        Some((RuleModel::Relation { positions: Seq::empty(), index }, "Relation"@))
    }
}

/// Whether `after` and `actions` are what a request for a rule makes of
/// `before`: the rule appended with its place in the list as stable index,
/// and a button for it; or a dialog where there are rules enough or the
/// text spells no target.
pub open spec fn rule_added(before: AppModel, kind: usize, text: Seq<char>, after: AppModel, actions: Seq<ActionModel>) -> bool {
    if before.custom() >= MAX_RULES {
        after == before && actions == seq![ActionModel::Popup("Maximum number of rules reached"@)]
    } else {
        match rule_asked(kind, text, before.rules.len() as usize) {
            Some((rule, label)) => {
                &&& after == (AppModel { rules: before.rules.push(rule), ..before })
                &&& actions == seq![ActionModel::AddRuleButton(label, before.custom() as usize)]
            },
            None => after == before && actions == seq![ActionModel::Popup("Invalid rule value"@)],
        }
    }
}

/// Whether `after` and `actions` are what the choice of the rule `index`
/// makes of `before`: the cells of the rule that was selected get the
/// colours of their blocks back, and those of the rule that is selected
/// now get its colour.
pub open spec fn rule_chosen(before: AppModel, index: usize, after: AppModel, actions: Seq<ActionModel>) -> bool {
    let back = if before.rule_active < before.custom() {
        recolor(before.active().positions(), true, 0)
    } else {
        Seq::empty()
    };
    let forth = if index < before.custom() {
        recolor(before.rules[before.base + index].positions(), false, index)
    } else {
        Seq::empty()
    };
    after == (AppModel { rule_active: index, ..before }) && actions == back + forth
}

/// Whether `after` and `actions` are what generating a puzzle can make of
/// `before`. Either nothing was made, and the window is told that the
/// board is wrong, which does not happen to a board that can be solved; or
/// the board is a puzzle: two thirds of its cells are empty, and some
/// solution of the rules fills it and the board that was.
pub open spec fn generated(before: AppModel, after: AppModel, actions: Seq<ActionModel>) -> bool {
    ||| {
        &&& after == (AppModel { finished: 0, ..before })
        &&& actions == seq![ActionModel::RaiseWrong]
        &&& !(before.side <= N && crate::complete::solvable(before.rules, before.side as int, before.cells))
    }
    ||| {
        &&& before.side <= N
        &&& after == (AppModel { finished: 0, cells: after.cells, ..before })
        &&& actions == seq![ActionModel::ShowBoard]
        &&& is_grid(after.cells, before.side as int)
        &&& crate::board::count_filled(after.cells) == before.side * before.side - crate::carving::carve_count(
            before.side as int,
        )
        &&& exists|full: Seq<Seq<usize>>|
            {
                &&& #[trigger] is_solution(full, before.rules, before.side as int)
                &&& extends(full, before.cells, before.side as int)
                &&& extends(full, after.cells, before.side as int)
            }
    }
}

/// Whether `after` and `actions` are what the message makes of `before`.
pub open spec fn reacts(before: AppModel, msg: AppMsg, after: AppModel, actions: Seq<ActionModel>) -> bool {
    match msg {
        AppMsg::FieldClicked(index) => clicked(before, index, after, actions),
        AppMsg::ChangeValue(value) => {
            after == (AppModel { global_value: value, ..before }) && actions == Seq::<ActionModel>::empty()
        },
        AppMsg::Solve => finished_by_solver(before, after, actions),
        AppMsg::AddRule(kind, text) => rule_added(before, kind, text@, after, actions),
        AppMsg::RuleActive(index) => rule_chosen(before, index, after, actions),
        AppMsg::Finished => {
            after == (AppModel { finished: 3, ..before }) && actions == seq![ActionModel::Popup("Finished"@)]
        },
        AppMsg::TogglePlanning => {
            after == (AppModel { planning: !before.planning, ..before }) && actions == Seq::<ActionModel>::empty()
        },
        AppMsg::ToggleRules => {
            after == (AppModel { show_rules: !before.show_rules, ..before }) && actions == Seq::<ActionModel>::empty()
        },
        AppMsg::Help => after == before && actions == seq![ActionModel::Popup(help_text())],
        AppMsg::Hints => hinted(before, after, actions),
        AppMsg::Generate => generated(before, after, actions),
        AppMsg::Wrong => {
            &&& after == (AppModel { finished: 2, ..before })
            &&& actions == seq![ActionModel::Popup("Board is not correct or rules are contradictory"@)]
        },
        AppMsg::Load(name) => {
            after == (AppModel { finished: 0, ..before }) && actions == seq![ActionModel::LoadFile(name@)]
        },
        AppMsg::Save(name) => after == before && actions == seq![ActionModel::SaveFile(name@)],
        AppMsg::Loaded(game) => {
            &&& after == (AppModel {
                cells: game.spec_board(),
                rules: game.spec_rules(),
                base: game.spec_base_rule_count(),
                side: game.spec_side(),
                ..before
            })
            &&& actions == seq![ActionModel::ClearRuleButtons, ActionModel::ShowBoard] + buttons_for(
                game.spec_rules(),
                game.spec_base_rule_count() as int,
            )
        },
        AppMsg::LoadFailed(why) => {
            after == before && actions == seq![ActionModel::Popup("Error loading game: "@ + why@)]
        },
        AppMsg::Saved => after == before && actions == seq![ActionModel::Popup("Game saved"@)],
        AppMsg::SaveFailed(why) => {
            after == before && actions == seq![ActionModel::Popup("Error saving game: "@ + why@)]
        },
    }
}

/// The message that a key asks for, by the number of the key as a digit
/// in base 36: a digit up to `N` chooses the value to write, and `f`, `g`,
/// `h`, `p`, `r` and `v` solve, generate, help, hint, toggle planning and
/// toggle the rules.
pub fn key_message(digit: usize) -> (msg: Option<AppMsg>)
    ensures
        match msg {
            Some(AppMsg::ChangeValue(value)) => digit <= N && value == digit,
            Some(AppMsg::Solve) => digit == 15,
            Some(AppMsg::Generate) => digit == 16,
            Some(AppMsg::Help) => digit == 17,
            Some(AppMsg::Hints) => digit == 25,
            Some(AppMsg::TogglePlanning) => digit == 27,
            Some(AppMsg::ToggleRules) => digit == 31,
            Some(_) => false,
            None => digit > N && digit != 15 && digit != 16 && digit != 17 && digit != 25 && digit != 27 && digit != 31,
        },
{
    if digit <= N {
        Some(AppMsg::ChangeValue(digit))
    } else if digit == 15 {
        Some(AppMsg::Solve)
    } else if digit == 16 {
        Some(AppMsg::Generate)
    } else if digit == 17 {
        Some(AppMsg::Help)
    } else if digit == 25 {
        Some(AppMsg::Hints)
    } else if digit == 27 {
        Some(AppMsg::TogglePlanning)
    } else if digit == 31 {
        Some(AppMsg::ToggleRules)
    } else {
        None
    }
}

impl View for App {
    type V = AppModel;

    closed spec fn view(&self) -> AppModel {
        AppModel {
            global_value: self.global_value,
            rule_active: self.rule_active,
            cells: self.game.spec_board(),
            rules: self.game.spec_rules(),
            base: self.game.spec_base_rule_count(),
            side: self.game.spec_side(),
            finished: self.finished,
            planning: self.planning,
            show_rules: self.show_rules,
            hints: self.hints,
        }
    }
}

/// A list of one action.
fn one(action: Action) -> (actions: Vec<Action>)
    ensures
        plan(actions@) == seq![action@],
{
    let mut actions: Vec<Action> = Vec::new();
    actions.push(action);
    assert(plan(actions@) =~= seq![action@]);
    actions
}

/// A list of two actions.
fn two(first: Action, second: Action) -> (actions: Vec<Action>)
    ensures
        plan(actions@) == seq![first@, second@],
{
    let mut actions: Vec<Action> = Vec::new();
    actions.push(first);
    actions.push(second);
    assert(plan(actions@) =~= seq![first@, second@]);
    actions
}

/// No action.
fn none() -> (actions: Vec<Action>)
    ensures
        plan(actions@) == Seq::<ActionModel>::empty(),
{
    let actions: Vec<Action> = Vec::new();
    assert(plan(actions@) =~= Seq::<ActionModel>::empty());
    actions
}

/// Whether the position occurs in the list.
fn contains_position(list: &Vec<Position>, pos: Position) -> (found: bool)
    ensures
        found == list@.contains(pos),
{
    let mut i: usize = 0;
    while i < list.len()
        invariant
            i <= list@.len(),
            forall|k: int| 0 <= k < i ==> list@[k] != pos,
        decreases list@.len() - i,
    {
        if list[i] == pos {
            return true;
        }
        i += 1;
    }
    false
}

/// Appends to `actions` the actions that give each position of the list
/// a colour: its own block's colour where `own` is set, else `color`.
fn push_recolor(actions: &mut Vec<Action>, positions: &Vec<Position>, own: bool, color: usize)
    ensures
        plan(final(actions)@) == plan(old(actions)@) + recolor(positions@, own, color),
{
    let ghost before = plan(actions@);
    let ghost all = recolor(positions@, own, color);
    let mut i: usize = 0;
    assert(before + all.subrange(0, 0) =~= before);
    while i < positions.len()
        invariant
            i <= positions@.len(),
            all == recolor(positions@, own, color),
            plan(actions@) == before + all.subrange(0, i as int),
        decreases positions@.len() - i,
    {
        let pos = positions[i];
        let shade = if own {
            pos.default_color(R, C)
        } else {
            color
        };
        let ghost so_far = plan(actions@);
        actions.push(Action::Field(pos.index(), FieldMsg::ChangeColor(shade)));
        proof {
            assert(plan(actions@) =~= so_far.push(all[i as int]));
            assert(before + all.subrange(0, i + 1) =~= (before + all.subrange(0, i as int)).push(all[i as int]));
        }
        i += 1;
    }
    assert(all.subrange(0, all.len() as int) =~= all);
}

impl App {
    /// The invariant of the state: that of its game.
    pub closed spec fn wf(&self) -> bool {
        self.game.wf()
    }

    /// What the invariant says of the state.
    pub proof fn lemma_wf(&self)
        requires
            self.wf(),
        ensures
            is_grid(self@.cells, self@.side as int),
            self@.base <= self@.rules.len(),
            rules_on_grid(self@.rules, self@.side as int),
    {
        self.game.lemma_wf();
    }

    /// The state at the start: a new game on the grid of the window, no
    /// value chosen, rules being planned.
    pub fn new() -> (app: App)
        ensures
            app.wf(),
            app@.side == N,
            app@.global_value == 0,
            app@.rule_active == 0,
            app@.finished == 0,
            app@.planning,
            !app@.show_rules,
            !app@.hints,
            app@.custom() == 0,
            app@.rules.len() == crate::game::structural_count(N as int, R as int, C as int),
            forall|r: int, c: int| 0 <= r < N && 0 <= c < N ==> app@.cells[r][c] == 0,
    {
        App {
            global_value: 0,
            rule_active: 0,
            game: Game::new(N, R, C),
            finished: 0,
            planning: true,
            show_rules: false,
            hints: false,
        }
    }

    /// The game.
    pub fn game(&self) -> (game: &Game)
        ensures
            game.wf() == self.wf(),
            game.spec_board() == self@.cells,
            game.spec_rules() == self@.rules,
            game.spec_base_rule_count() == self@.base,
            game.spec_side() == self@.side,
    {
        &self.game
    }

    /// The value that a click writes.
    pub fn global_value(&self) -> (value: usize)
        ensures
            value == self@.global_value,
    {
        self.global_value
    }

    /// The custom rule that is selected.
    pub fn rule_active(&self) -> (index: usize)
        ensures
            index == self@.rule_active,
    {
        self.rule_active
    }

    /// The mark of how far the game is: 0 while it is played, 2 once the
    /// solver has spoken, 3 once it is finished.
    pub fn finished(&self) -> (mark: usize)
        ensures
            mark == self@.finished,
    {
        self.finished
    }

    /// Whether rules are being planned.
    pub fn planning(&self) -> (yes: bool)
        ensures
            yes == self@.planning,
    {
        self.planning
    }

    /// Whether the state of the rules is shown.
    pub fn show_rules(&self) -> (yes: bool)
        ensures
            yes == self@.show_rules,
    {
        self.show_rules
    }

    /// Whether the candidates of the empty fields are shown.
    pub fn hints(&self) -> (yes: bool)
        ensures
            yes == self@.hints,
    {
        self.hints
    }

    /// What a click on the field `index` does.
    fn click(&mut self, index: usize) -> (actions: Vec<Action>)
        requires
            old(self).wf(),
        ensures
            final(self).wf(),
            clicked(old(self)@, index, final(self)@, plan(actions@)),
    {
        proof {
            self.game.lemma_wf();
        }
        let side = self.game.get_side();
        let pos = match Position::from_index(index) {
            Some(pos) => pos,
            None => {
                return none();
            },
        };
        if pos.row() > side || pos.col() > side {
            return none();
        }
        let rules = self.game.rules();
        let base = self.game.get_base_rule_count();
        assert(rules@.len() == self@.rules.len());
        if self.planning && rules.len() > base {
            if self.rule_active >= rules.len() - base {
                return none();
            }
            let rule = self.game.get_rule(self.rule_active);
            let positions = rule.get_positions();
            if contains_position(&positions, pos) {
                self.game.remove_position_from_rule(self.rule_active, pos);
                one(Action::Field(index, FieldMsg::ChangeColor(pos.default_color(R, C))))
            } else {
                self.game.add_position_to_rule(self.rule_active, pos);
                one(Action::Field(index, FieldMsg::ChangeColor(self.rule_active)))
            }
        } else {
            self.game.set_value(Some(pos), self.global_value);
            let shown = Action::Field(index, FieldMsg::SetValue(self.global_value));
            if self.game.is_won() {
                self.finished = 0;
                two(Action::RaiseFinished, shown)
            } else {
                one(shown)
            }
        }
    }

    /// What the solver makes of the game.
    fn finish(&mut self) -> (actions: Vec<Action>)
        requires
            old(self).wf(),
        ensures
            final(self).wf(),
            finished_by_solver(old(self)@, final(self)@, plan(actions@)),
    {
        proof {
            self.game.lemma_wf();
        }
        if self.game.get_side() > N {
            return one(Action::RaiseWrong);
        }
        let mut solver = Solver::new(self.game.clone(), false);
        solver.solve();
        match solver.get_solution() {
            Some(board) => {
                self.game.set_board(board);
                self.finished = 2;
                two(Action::ShowBoard, Action::RaiseFinished)
            },
            None => one(Action::RaiseWrong),
        }
    }

    /// What the hint key does.
    fn hint(&mut self) -> (actions: Vec<Action>)
        requires
            old(self).wf(),
        ensures
            final(self).wf(),
            hinted(old(self)@, final(self)@, plan(actions@)),
    {
        proof {
            self.game.lemma_wf();
        }
        if self.hints {
            self.hints = false;
            return one(Action::RefreshFields);
        }
        let side = self.game.get_side();
        if side > N {
            return none();
        }
        let solver = Solver::new(self.game.clone(), false);
        let ghost all = hints_for(self@.rules, side as int, self@.cells);
        let mut lists: Vec<Vec<usize>> = Vec::new();
        let mut k: usize = 0;
        while k < N * N
            invariant
                k <= N * N,
                solver.wf(),
                solver.spec_side() == side,
                side <= N,
                all == hints_for(self@.rules, side as int, self@.cells),
                solver.spec_search() == initial(self@.rules, side as int, self@.cells).0,
                lists@.len() == k,
                forall|i: int| 0 <= i < k ==> (#[trigger] lists@[i])@ == all[i],
            decreases N * N - k,
        {
            let list = match Position::from_index(k) {
                Some(pos) => {
                    if pos.row() <= side && pos.col() <= side {
                        solver.get_options(pos)
                    } else {
                        Vec::new()
                    }
                },
                None => Vec::new(),
            };
            lists.push(list);
            k += 1;
        }
        self.hints = true;
        let shown = Action::ShowHints(lists);
        assert(shown@ == ActionModel::ShowHints(all)) by {
            assert(Seq::new(lists@.len(), |i: int| lists@[i]@) =~= all);
        }
        one(shown)
    }

    /// What a request for a rule of the given kind does.
    fn add_rule(&mut self, kind: usize, text: String) -> (actions: Vec<Action>)
        requires
            old(self).wf(),
        ensures
            final(self).wf(),
            rule_added(old(self)@, kind, text@, final(self)@, plan(actions@)),
    {
        proof {
            self.game.lemma_wf();
        }
        let rules = self.game.rules();
        let base = self.game.get_base_rule_count();
        assert(rules@.len() == self@.rules.len());
        let count: usize = rules.len() - base;
        if count >= MAX_RULES {
            return one(Action::Popup(String::from_str("Maximum number of rules reached")));
        }
        let stable = rules.len();
        if kind == 0 {
            self.game.add_rule(Rule::Permutation(PermutationRule::new(Vec::new(), stable)));
            one(Action::AddRuleButton(String::from_str("Permutation"), count))
        } else if kind == 1 {
            match read_number(text.as_str()) {
                Some(target) => {
                    self.game.add_rule(Rule::Sum(SumRule::new(Vec::new(), target, stable)));
                    let mut label = String::from_str("SUM: ");
                    append_number(&mut label, target);
                    one(Action::AddRuleButton(label, count))
                },
                None => one(Action::Popup(String::from_str("Invalid rule value"))),
            }
        } else {
            self.game.add_rule(Rule::Relation(RelationRule::new(stable)));
            one(Action::AddRuleButton(String::from_str("Relation"), count))
        }
    }

    /// What the choice of the custom rule `index` does.
    fn choose_rule(&mut self, index: usize) -> (actions: Vec<Action>)
        requires
            old(self).wf(),
        ensures
            final(self).wf(),
            rule_chosen(old(self)@, index, final(self)@, plan(actions@)),
    {
        proof {
            self.game.lemma_wf();
        }
        let rules = self.game.rules();
        let base = self.game.get_base_rule_count();
        assert(rules@.len() == self@.rules.len());
        let count: usize = rules.len() - base;
        let mut actions = none();
        if self.rule_active < count {
            let positions = self.game.get_rule(self.rule_active).get_positions();
            push_recolor(&mut actions, &positions, true, 0);
        }
        let ghost back = plan(actions@);
        assert(Seq::<ActionModel>::empty() + back =~= back);
        self.rule_active = index;
        if index < count {
            let positions = self.game.get_rule(index).get_positions();
            push_recolor(&mut actions, &positions, false, index);
        } else {
            assert(back + Seq::<ActionModel>::empty() =~= back);
        }
        actions
    }

    /// What generating a puzzle does.
    fn generate(&mut self) -> (actions: Vec<Action>)
        requires
            old(self).wf(),
        ensures
            final(self).wf(),
            generated(old(self)@, final(self)@, plan(actions@)),
    {
        proof {
            self.game.lemma_wf();
        }
        self.finished = 0;
        if self.game.get_side() > N {
            return one(Action::RaiseWrong);
        }
        match Solver::generate(self.game.clone()) {
            Some(puzzle) => {
                proof {
                    puzzle.lemma_wf();
                }
                self.game = puzzle;
                one(Action::ShowBoard)
            },
            None => one(Action::RaiseWrong),
        }
    }

    /// What a game that was read from a file does: it takes the place of
    /// the game, and the window shows it with a button for each of its
    /// custom rules.
    fn take(&mut self, game: Game) -> (actions: Vec<Action>)
        requires
            old(self).wf(),
            game.wf(),
        ensures
            final(self).wf(),
            reacts(old(self)@, AppMsg::Loaded(game), final(self)@, plan(actions@)),
    {
        proof {
            game.lemma_wf();
        }
        let rules = game.rules();
        let base = game.get_base_rule_count();
        let ghost all = buttons_for(game.spec_rules(), base as int);
        let mut actions = two(Action::ClearRuleButtons, Action::ShowBoard);
        let ghost head = plan(actions@);
        assert(rules@.len() == game.spec_rules().len());
        let mut k: usize = base;
        assert(head + all.subrange(0, 0) =~= head);
        while k < rules.len()
            invariant
                base <= k <= rules@.len(),
                crate::game::models(rules@) == game.spec_rules(),
                all == buttons_for(game.spec_rules(), base as int),
                plan(actions@) == head + all.subrange(0, k - base),
            decreases rules@.len() - k,
        {
            let label = match rules[k].get_sum() {
                Some(target) => {
                    let mut label = String::from_str("Sum: ");
                    append_number(&mut label, target);
                    label
                },
                None => if rules[k].is_permutation() {
                    String::from_str("Permutation")
                } else {
                    String::from_str("Relation")
                },
            };
            let ghost so_far = plan(actions@);
            let button = Action::AddRuleButton(label, k - base);
            assert(crate::game::models(rules@)[k as int] == rules@[k as int]@);
            assert(button@ == all[k - base]);
            actions.push(button);
            proof {
                assert(plan(actions@) =~= so_far.push(all[k - base]));
                assert(head + all.subrange(0, k - base + 1) =~= (head + all.subrange(0, k - base)).push(all[k - base]));
            }
            k += 1;
        }
        assert(all.subrange(0, all.len() as int) =~= all);
        self.game = game;
        actions
    }

    /// Takes the message: changes the state as the message asks and says
    /// what the window is to do.
    pub fn update(&mut self, msg: AppMsg) -> (actions: Vec<Action>)
        requires
            old(self).wf(),
            msg matches AppMsg::Loaded(game) ==> game.wf(),
        ensures
            final(self).wf(),
            reacts(old(self)@, msg, final(self)@, plan(actions@)),
    {
        match msg {
            AppMsg::FieldClicked(index) => self.click(index),
            AppMsg::ChangeValue(value) => {
                self.global_value = value;
                none()
            },
            AppMsg::Solve => self.finish(),
            AppMsg::AddRule(kind, text) => self.add_rule(kind, text),
            AppMsg::RuleActive(index) => self.choose_rule(index),
            AppMsg::Finished => {
                self.finished = 3;
                one(Action::Popup(String::from_str("Finished")))
            },
            AppMsg::TogglePlanning => {
                self.planning = !self.planning;
                none()
            },
            AppMsg::ToggleRules => {
                self.show_rules = !self.show_rules;
                none()
            },
            AppMsg::Help => one(
                Action::Popup(
                    String::from_str(
                        "Help:\npress 0-N to choose current setting value,\nyou can move with arrows to select field and press Enter to set value,\nclicking on field will also set current setting value,\nthree types of rules are available: for each one select corresponding box from add rule, then select positions to apply,\n'f' to finish game using solver,\n'r' to toggle planning mode,\n'p' to show all possible values for every field,\n'g' to generate sudoku game,\n",
                    ),
                ),
            ),
            AppMsg::Hints => self.hint(),
            AppMsg::Generate => self.generate(),
            AppMsg::Wrong => {
                self.finished = 2;
                one(Action::Popup(String::from_str("Board is not correct or rules are contradictory")))
            },
            AppMsg::Load(name) => {
                self.finished = 0;
                one(Action::LoadFile(name))
            },
            AppMsg::Save(name) => one(Action::SaveFile(name)),
            AppMsg::Loaded(game) => self.take(game),
            AppMsg::LoadFailed(why) => {
                let mut text = String::from_str("Error loading game: ");
                text.append(why.as_str());
                one(Action::Popup(text))
            },
            AppMsg::Saved => one(Action::Popup(String::from_str("Game saved"))),
            AppMsg::SaveFailed(why) => {
                let mut text = String::from_str("Error saving game: ");
                text.append(why.as_str());
                one(Action::Popup(text))
            },
        }
    }
}

} // verus!
