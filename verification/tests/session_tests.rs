use sudoku_solver_and_generator::board::{Board, Position};
use sudoku_solver_and_generator::field::{Field, FieldMsg, FieldOutput, RuleButton, RuleMsg, RuleOutput, KEEP};
use sudoku_solver_and_generator::game::Game;
use sudoku_solver_and_generator::rules::{Rule, SumRule, Verdict};
use sudoku_solver_and_generator::session::{key_message, Action, App, AppMsg, MAX_RULES};

fn pos(row: usize, col: usize) -> Position {
    Position::new(row, col).unwrap()
}

fn filled_cells(board: &Board) -> usize {
    board.rows().iter().flatten().filter(|&&v| v != 0).count()
}

fn playing() -> App {
    let mut app = App::new();
    assert!(app.update(AppMsg::TogglePlanning).is_empty());
    app
}

#[test]
fn field_starts_without_a_value() {
    let field = Field::new(7, 12);
    assert_eq!(field.value, 0);
    assert_eq!(field.display_value, "_");
    assert_eq!(field.color, 7);
    assert_eq!(field.index, 12);
}

#[test]
fn field_takes_and_shows_a_value() {
    let mut field = Field::new(7, 12);
    assert_eq!(field.update(FieldMsg::SetValue(5)), None);
    assert_eq!(field.value, 5);
    assert_eq!(field.display_value, "5");
    assert_eq!(field.update(FieldMsg::SetValue(0)), None);
    assert_eq!(field.value, 0);
    assert_eq!(field.display_value, "_");
    assert_eq!(field.update(FieldMsg::SetValue(12)), None);
    assert_eq!(field.display_value, "12");
}

#[test]
fn field_shows_hints_while_it_is_empty() {
    let mut field = Field::new(7, 0);
    field.update(FieldMsg::SetHints(vec![1, 2, 9]));
    assert_eq!(field.display_value, "1 2 9");
    assert_eq!(field.value, 0);
    field.update(FieldMsg::SetValue(KEEP));
    assert_eq!(field.display_value, "_");
    field.update(FieldMsg::SetHints(vec![]));
    assert_eq!(field.display_value, "");
    field.update(FieldMsg::SetHints(vec![4]));
    assert_eq!(field.display_value, "4");
    field.update(FieldMsg::SetValue(3));
    field.update(FieldMsg::SetHints(vec![1, 2]));
    assert_eq!(field.display_value, "3");
    field.update(FieldMsg::SetValue(KEEP));
    assert_eq!(field.value, 3);
    assert_eq!(field.display_value, "3");
}

#[test]
fn field_reports_a_click_and_takes_a_colour() {
    let mut field = Field::new(7, 12);
    assert_eq!(field.update(FieldMsg::ChangeValue), Some(FieldOutput::FieldClicked(12)));
    assert_eq!(field.update(FieldMsg::ChangeColor(3)), None);
    assert_eq!(field.color, 3);
    assert_eq!(field.value, 0);
    assert_eq!(field.display_value, "_");
}

#[test]
fn fields_go_down_the_columns() {
    assert_eq!(Field::position(0), (0, 0));
    assert_eq!(Field::position(1), (0, 1));
    assert_eq!(Field::position(9), (1, 0));
    assert_eq!(Field::position(80), (8, 8));
    assert_eq!(Field::position(pos(4, 7).index()), (6, 3));
}

#[test]
fn rule_button_selects_its_rule() {
    let button = RuleButton::new(String::from("Relation"), 2, 5);
    assert_eq!(button.display_value, "Relation");
    assert_eq!(button.color, 2);
    assert_eq!(button.update(RuleMsg::Clicked), RuleOutput::RuleClicked(5));
    assert_eq!(RuleButton::position(5), (5, 0));
}

#[test]
fn keys_ask_for_messages() {
    assert!(matches!(key_message(0), Some(AppMsg::ChangeValue(0))));
    assert!(matches!(key_message(9), Some(AppMsg::ChangeValue(9))));
    assert!(matches!(key_message(15), Some(AppMsg::Solve)));
    assert!(matches!(key_message(16), Some(AppMsg::Generate)));
    assert!(matches!(key_message(17), Some(AppMsg::Help)));
    assert!(matches!(key_message(25), Some(AppMsg::Hints)));
    assert!(matches!(key_message(27), Some(AppMsg::TogglePlanning)));
    assert!(matches!(key_message(31), Some(AppMsg::ToggleRules)));
    for digit in [10, 11, 14, 18, 24, 26, 28, 30, 32, 35, 100] {
        assert!(key_message(digit).is_none());
    }
}

#[test]
fn the_game_starts_planning_on_an_empty_classic_grid() {
    let app = App::new();
    assert_eq!(app.global_value(), 0);
    assert_eq!(app.rule_active(), 0);
    assert_eq!(app.finished(), 0);
    assert!(app.planning());
    assert!(!app.show_rules());
    assert!(!app.hints());
    assert_eq!(app.game().get_side(), 9);
    assert_eq!(app.game().get_base_rule_count(), 27);
    assert_eq!(app.game().rules().len(), 27);
    assert_eq!(filled_cells(&app.game().board()), 0);
}

#[test]
fn switches_are_toggled() {
    let mut app = App::new();
    assert!(app.update(AppMsg::TogglePlanning).is_empty());
    assert!(!app.planning());
    assert!(app.update(AppMsg::TogglePlanning).is_empty());
    assert!(app.planning());
    assert!(app.update(AppMsg::ToggleRules).is_empty());
    assert!(app.show_rules());
    assert!(app.update(AppMsg::ChangeValue(6)).is_empty());
    assert_eq!(app.global_value(), 6);
}

#[test]
fn a_click_writes_the_chosen_value() {
    let mut app = playing();
    app.update(AppMsg::ChangeValue(4));
    let index = pos(2, 3).index();
    assert_eq!(app.update(AppMsg::FieldClicked(index)), vec![Action::Field(index, FieldMsg::SetValue(4))]);
    assert_eq!(app.game().get_value(Some(pos(2, 3))), 4);
    assert_eq!(filled_cells(&app.game().board()), 1);
    app.update(AppMsg::ChangeValue(0));
    assert_eq!(app.update(AppMsg::FieldClicked(index)), vec![Action::Field(index, FieldMsg::SetValue(0))]);
    assert_eq!(filled_cells(&app.game().board()), 0);
}

#[test]
fn a_click_writes_while_no_rule_is_planned() {
    let mut app = App::new();
    app.update(AppMsg::ChangeValue(2));
    assert_eq!(app.update(AppMsg::FieldClicked(0)), vec![Action::Field(0, FieldMsg::SetValue(2))]);
    assert_eq!(app.game().get_value(Some(pos(1, 1))), 2);
}

#[test]
fn a_click_beside_the_grid_does_nothing() {
    let mut app = playing();
    app.update(AppMsg::ChangeValue(4));
    assert!(app.update(AppMsg::FieldClicked(81)).is_empty());
    assert!(app.update(AppMsg::FieldClicked(usize::MAX)).is_empty());
    assert_eq!(filled_cells(&app.game().board()), 0);
}

#[test]
fn rules_are_added_with_their_buttons() {
    let mut app = App::new();
    assert_eq!(
        app.update(AppMsg::AddRule(0, String::from("0"))),
        vec![Action::AddRuleButton(String::from("Permutation"), 0)]
    );
    assert_eq!(
        app.update(AppMsg::AddRule(1, String::from("17"))),
        vec![Action::AddRuleButton(String::from("SUM: 17"), 1)]
    );
    assert_eq!(
        app.update(AppMsg::AddRule(2, String::from("0"))),
        vec![Action::AddRuleButton(String::from("Relation"), 2)]
    );
    assert_eq!(
        app.update(AppMsg::AddRule(1, String::from("seven"))),
        vec![Action::Popup(String::from("Invalid rule value"))]
    );
    let rules = app.game().rules();
    assert_eq!(rules.len(), 30);
    assert!(rules[27].is_permutation());
    assert_eq!(rules[27].get_index(), 27);
    assert_eq!(rules[28].get_sum(), Some(17));
    assert_eq!(rules[28].get_index(), 28);
    assert!(rules[29].is_relation());
    assert_eq!(rules[29].get_index(), 29);
    assert_eq!(app.game().get_base_rule_count(), 27);
}

#[test]
fn no_more_rules_than_the_window_takes() {
    let mut app = App::new();
    for k in 0..MAX_RULES {
        assert_eq!(
            app.update(AppMsg::AddRule(2, String::new())),
            vec![Action::AddRuleButton(String::from("Relation"), k)]
        );
    }
    assert_eq!(
        app.update(AppMsg::AddRule(0, String::new())),
        vec![Action::Popup(String::from("Maximum number of rules reached"))]
    );
    assert_eq!(app.game().rules().len(), 27 + MAX_RULES);
}

#[test]
fn a_click_plans_the_selected_rule() {
    let mut app = App::new();
    app.update(AppMsg::AddRule(1, String::from("7")));
    app.update(AppMsg::AddRule(0, String::new()));
    app.update(AppMsg::RuleActive(1));
    let first = pos(1, 1).index();
    let second = pos(4, 1).index();
    assert_eq!(app.update(AppMsg::FieldClicked(first)), vec![Action::Field(first, FieldMsg::ChangeColor(1))]);
    assert_eq!(app.update(AppMsg::FieldClicked(second)), vec![Action::Field(second, FieldMsg::ChangeColor(1))]);
    assert_eq!(app.game().get_rule(1).get_positions(), vec![pos(1, 1), pos(4, 1)]);
    assert!(app.game().get_rule(0).get_positions().is_empty());
    assert_eq!(app.update(AppMsg::FieldClicked(first)), vec![Action::Field(first, FieldMsg::ChangeColor(7))]);
    assert_eq!(app.update(AppMsg::FieldClicked(second)), vec![Action::Field(second, FieldMsg::ChangeColor(8))]);
    assert!(app.game().get_rule(1).get_positions().is_empty());
    assert_eq!(filled_cells(&app.game().board()), 0);
}

#[test]
fn a_click_with_no_such_rule_selected_does_nothing() {
    let mut app = App::new();
    app.update(AppMsg::AddRule(0, String::new()));
    app.update(AppMsg::RuleActive(3));
    assert!(app.update(AppMsg::FieldClicked(0)).is_empty());
    assert!(app.game().get_rule(0).get_positions().is_empty());
}

#[test]
fn choosing_a_rule_recolours_its_cells() {
    let mut app = App::new();
    app.update(AppMsg::AddRule(0, String::new()));
    app.update(AppMsg::AddRule(0, String::new()));
    app.update(AppMsg::FieldClicked(pos(1, 1).index()));
    app.update(AppMsg::FieldClicked(pos(1, 4).index()));
    assert_eq!(
        app.update(AppMsg::RuleActive(1)),
        vec![
            Action::Field(pos(1, 1).index(), FieldMsg::ChangeColor(7)),
            Action::Field(pos(1, 4).index(), FieldMsg::ChangeColor(8)),
        ]
    );
    assert_eq!(app.rule_active(), 1);
    app.update(AppMsg::FieldClicked(pos(9, 9).index()));
    assert_eq!(
        app.update(AppMsg::RuleActive(0)),
        vec![
            Action::Field(pos(9, 9).index(), FieldMsg::ChangeColor(7)),
            Action::Field(pos(1, 1).index(), FieldMsg::ChangeColor(0)),
            Action::Field(pos(1, 4).index(), FieldMsg::ChangeColor(0)),
        ]
    );
    assert!(app.update(AppMsg::RuleActive(5)).len() == 2);
    assert_eq!(app.rule_active(), 5);
    assert!(app.update(AppMsg::RuleActive(6)).is_empty());
}

#[test]
fn the_solver_finishes_the_game() {
    let mut app = playing();
    app.update(AppMsg::ChangeValue(5));
    app.update(AppMsg::FieldClicked(pos(3, 3).index()));
    assert_eq!(app.update(AppMsg::Solve), vec![Action::ShowBoard, Action::RaiseFinished]);
    assert_eq!(app.finished(), 2);
    let board = app.game().board();
    assert!(board.is_filled());
    assert_eq!(board.get_value(pos(3, 3)), 5);
    assert!(app.game().is_won());
    assert_eq!(app.update(AppMsg::Finished), vec![Action::Popup(String::from("Finished"))]);
    assert_eq!(app.finished(), 3);
}

#[test]
fn the_solver_says_when_the_board_is_wrong() {
    let mut app = playing();
    app.update(AppMsg::ChangeValue(5));
    app.update(AppMsg::FieldClicked(pos(1, 1).index()));
    app.update(AppMsg::FieldClicked(pos(1, 2).index()));
    assert_eq!(app.update(AppMsg::Solve), vec![Action::RaiseWrong]);
    assert_eq!(filled_cells(&app.game().board()), 2);
    assert_eq!(
        app.update(AppMsg::Wrong),
        vec![Action::Popup(String::from("Board is not correct or rules are contradictory"))]
    );
    assert_eq!(app.finished(), 2);
}

#[test]
fn the_last_click_wins_the_game() {
    let mut app = playing();
    app.update(AppMsg::Solve);
    let last = pos(5, 5);
    let value = app.game().get_value(Some(last));
    app.update(AppMsg::ChangeValue(0));
    app.update(AppMsg::FieldClicked(last.index()));
    assert!(!app.game().is_won());
    app.update(AppMsg::ChangeValue(value));
    assert_eq!(app.finished(), 2);
    assert_eq!(
        app.update(AppMsg::FieldClicked(last.index())),
        vec![Action::RaiseFinished, Action::Field(last.index(), FieldMsg::SetValue(value))]
    );
    assert_eq!(app.finished(), 0);
}

#[test]
fn hints_are_shown_and_taken_back() {
    let mut app = playing();
    app.update(AppMsg::ChangeValue(5));
    app.update(AppMsg::FieldClicked(pos(1, 1).index()));
    let actions = app.update(AppMsg::Hints);
    assert!(app.hints());
    match &actions[..] {
        [Action::ShowHints(lists)] => {
            assert_eq!(lists.len(), 81);
            assert_eq!(lists[pos(1, 1).index()], vec![1, 2, 3, 4, 5, 6, 7, 8, 9]);
            assert_eq!(lists[pos(1, 2).index()], vec![1, 2, 3, 4, 6, 7, 8, 9]);
            assert_eq!(lists[pos(9, 1).index()], vec![1, 2, 3, 4, 6, 7, 8, 9]);
            assert_eq!(lists[pos(3, 3).index()], vec![1, 2, 3, 4, 6, 7, 8, 9]);
            assert_eq!(lists[pos(4, 4).index()], vec![1, 2, 3, 4, 5, 6, 7, 8, 9]);
        }
        other => panic!("{:?}", other),
    }
    assert_eq!(app.update(AppMsg::Hints), vec![Action::RefreshFields]);
    assert!(!app.hints());
}

#[test]
fn a_puzzle_is_generated() {
    let mut app = App::new();
    assert_eq!(app.update(AppMsg::Generate), vec![Action::ShowBoard]);
    assert_eq!(app.finished(), 0);
    assert_eq!(filled_cells(&app.game().board()), 27);
    assert_eq!(app.game().rules().len(), 27);
    let board = app.game().board();
    assert!(app.game().rules().iter().all(|rule| rule.check(&board).verdict() != Verdict::Critical));
}

#[test]
fn no_puzzle_comes_of_a_wrong_board() {
    let mut app = playing();
    app.update(AppMsg::ChangeValue(5));
    app.update(AppMsg::FieldClicked(pos(1, 1).index()));
    app.update(AppMsg::FieldClicked(pos(1, 2).index()));
    app.update(AppMsg::Wrong);
    assert_eq!(app.update(AppMsg::Generate), vec![Action::RaiseWrong]);
    assert_eq!(app.finished(), 0);
    assert_eq!(filled_cells(&app.game().board()), 2);
}

#[test]
fn saving_asks_for_the_file_and_tells_how_it_went() {
    let mut app = App::new();
    assert_eq!(app.update(AppMsg::Save(String::from("a.json"))), vec![Action::SaveFile(String::from("a.json"))]);
    assert_eq!(app.update(AppMsg::Saved), vec![Action::Popup(String::from("Game saved"))]);
    assert_eq!(
        app.update(AppMsg::SaveFailed(String::from("disk full"))),
        vec![Action::Popup(String::from("Error saving game: disk full"))]
    );
}

#[test]
fn loading_replaces_the_game() {
    let mut app = App::new();
    app.update(AppMsg::Wrong);
    assert_eq!(app.update(AppMsg::Load(String::from("a.json"))), vec![Action::LoadFile(String::from("a.json"))]);
    assert_eq!(app.finished(), 0);
    let mut game = Game::new(4, 2, 2);
    game.set_value(Position::new(2, 2), 3);
    game.add_rule(Rule::Sum(SumRule::new(vec![pos(1, 1)], 7, 12)));
    game.add_rule(Rule::Permutation(sudoku_solver_and_generator::rules::PermutationRule::new(vec![], 13)));
    game.add_rule(Rule::Relation(sudoku_solver_and_generator::rules::RelationRule::new(14)));
    assert_eq!(
        app.update(AppMsg::Loaded(game)),
        vec![
            Action::ClearRuleButtons,
            Action::ShowBoard,
            Action::AddRuleButton(String::from("Sum: 7"), 0),
            Action::AddRuleButton(String::from("Permutation"), 1),
            Action::AddRuleButton(String::from("Relation"), 2),
        ]
    );
    assert_eq!(app.game().get_side(), 4);
    assert_eq!(app.game().get_value(Some(pos(2, 2))), 3);
    assert_eq!(app.game().rules().len(), 15);
    assert!(app.update(AppMsg::FieldClicked(pos(5, 5).index())).is_empty());
}

#[test]
fn a_failed_load_leaves_the_game() {
    let mut app = playing();
    app.update(AppMsg::ChangeValue(5));
    app.update(AppMsg::FieldClicked(0));
    assert_eq!(
        app.update(AppMsg::LoadFailed(String::from("no such file"))),
        vec![Action::Popup(String::from("Error loading game: no such file"))]
    );
    assert_eq!(app.game().get_value(Some(pos(1, 1))), 5);
}

#[test]
fn help_is_shown() {
    let mut app = App::new();
    match &app.update(AppMsg::Help)[..] {
        [Action::Popup(text)] => {
            assert!(text.starts_with("Help:\n"));
            assert!(text.ends_with("'g' to generate sudoku game,\n"));
        }
        other => panic!("{:?}", other),
    }
}
