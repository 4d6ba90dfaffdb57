use sudoku_solver_and_generator::board::Position;
use sudoku_solver_and_generator::rules::Rule;
use sudoku_solver_and_generator::userinput::{
    command_from_words, interpret_command, interpret_rule, parse_permutation_rule, parse_position, parse_positions,
    parse_relation_rule, parse_sum_rule, positions_from_pairs, Command, Mistake, RuleInput,
};

fn pos(row: usize, col: usize) -> Position {
    Position::new(row, col).unwrap()
}

#[test]
fn positions_are_read_in_order() {
    assert_eq!(parse_positions("1,1 2,2 3,3"), Some(vec![pos(1, 1), pos(2, 2), pos(3, 3)]));
    assert_eq!(parse_positions("9,1;1,9"), Some(vec![pos(9, 1), pos(1, 9)]));
    assert_eq!(parse_positions("12,34"), None);
}

#[test]
fn text_without_pairs_lists_no_position() {
    assert_eq!(parse_positions(""), Some(vec![]));
    assert_eq!(parse_positions("abc 1 2"), Some(vec![]));
}

#[test]
fn a_pair_that_names_no_cell_spoils_the_list() {
    assert_eq!(parse_positions("1,1 10,1"), None);
    assert_eq!(parse_positions("0,1"), None);
    assert_eq!(parse_positions("1,1 99999999999999999999999999,1"), None);
}

#[test]
fn a_position_is_read_from_two_texts() {
    assert_eq!(parse_position("3", "4"), Some(pos(3, 4)));
    assert_eq!(parse_position("3", "x"), None);
    assert_eq!(parse_position("", "4"), None);
    assert_eq!(parse_position("0", "4"), None);
    assert_eq!(parse_position("3", "10"), None);
}

#[test]
fn pairs_need_two_parts() {
    let good = vec![vec!["1".to_string(), "2".to_string()], vec!["3".to_string(), "4".to_string()]];
    assert_eq!(positions_from_pairs(&good), Some(vec![pos(1, 2), pos(3, 4)]));
    let short = vec![vec!["1".to_string(), "2".to_string()], vec!["3".to_string()]];
    assert_eq!(positions_from_pairs(&short), None);
    assert_eq!(positions_from_pairs(&vec![]), Some(vec![]));
}

#[test]
fn permutation_rule_is_read() {
    let rule = parse_permutation_rule("PERMUTATION [1,1 2,2 3,3 4,4]", 5).unwrap();
    assert_eq!(rule.positions, vec![pos(1, 1), pos(2, 2), pos(3, 3), pos(4, 4)]);
    assert_eq!(Rule::Permutation(rule).get_index(), 5);
    assert_eq!(parse_permutation_rule("PERMUTATION [x]", 0).unwrap().positions, vec![]);
}

#[test]
fn permutation_rule_needs_its_form() {
    assert!(parse_permutation_rule("PERMUTATION []", 0).is_none());
    assert!(parse_permutation_rule("PERMUTATION 1,1 2,2", 0).is_none());
    assert!(parse_permutation_rule("permutation [1,1]", 0).is_none());
    assert!(parse_permutation_rule(" PERMUTATION [1,1]", 0).is_none());
    assert!(parse_permutation_rule("PERMUTATION [1,1 10,10]", 0).is_none());
}

#[test]
fn sum_rule_is_read() {
    let rule = parse_sum_rule("SUM [1,1 1,2] 7", 3).unwrap();
    assert_eq!(rule.positions, vec![pos(1, 1), pos(1, 2)]);
    assert_eq!(rule.sum, 7);
    assert_eq!(rule.get_sum(), 7);
    assert_eq!(Rule::Sum(rule).get_index(), 3);
}

#[test]
fn sum_rule_needs_its_form() {
    assert!(parse_sum_rule("SUM [1,1 1,2]", 0).is_none());
    assert!(parse_sum_rule("SUM [1,1 1,2] x", 0).is_none());
    assert!(parse_sum_rule("SUM [1,1 1,2] -7", 0).is_none());
    assert!(parse_sum_rule("SUM [0,1] 7", 0).is_none());
    assert!(parse_sum_rule("SUM [1,1] 99999999999999999999999999", 0).is_none());
}

#[test]
fn relation_rule_is_read() {
    let rule = parse_relation_rule("SMALLER 1,1 1,2", 8).unwrap();
    assert_eq!(rule.positions, vec![pos(1, 1), pos(1, 2)]);
    assert_eq!(Rule::Relation(rule).get_index(), 8);
}

#[test]
fn relation_rule_needs_two_cells_of_the_grid() {
    assert!(parse_relation_rule("SMALLER 0,0 1,1", 0).is_none());
    assert!(parse_relation_rule("SMALLER 1,1 1,10", 0).is_none());
    assert!(parse_relation_rule("SMALLER 1,1", 0).is_none());
    assert!(parse_relation_rule("SMALLER 1,1 1,2 1,3", 0).is_none());
    assert!(parse_relation_rule("SMALLER \u{661},\u{661} \u{661},\u{662}", 0).is_none());
}

#[test]
fn rule_lines_are_told_apart() {
    assert!(matches!(interpret_rule("p", 0), RuleInput::Play));
    assert!(matches!(interpret_rule("  p \n", 0), RuleInput::Play));
    assert!(matches!(interpret_rule("h\n", 0), RuleInput::Help));
    assert!(matches!(interpret_rule("", 0), RuleInput::Invalid));
    assert!(matches!(interpret_rule("pp", 0), RuleInput::Invalid));
    assert!(matches!(interpret_rule("SUM 7", 0), RuleInput::Invalid));
    assert_eq!(interpret_rule("p", 0).code(), 0);
    assert_eq!(interpret_rule("h", 0).code(), 1);
    assert_eq!(interpret_rule("what", 0).code(), 1);
    assert_eq!(interpret_rule("SMALLER 1,1 1,2", 0).code(), 2);
}

#[test]
fn rule_lines_give_the_rule_they_spell() {
    match interpret_rule("PERMUTATION [1,1 2,2]\n", 4) {
        RuleInput::Entered(rule) => {
            assert!(rule.is_permutation());
            assert_eq!(rule.get_positions(), vec![pos(1, 1), pos(2, 2)]);
            assert_eq!(rule.get_index(), 4);
        }
        other => panic!("{:?}", other),
    }
    match interpret_rule(" SUM [1,1 1,2] 7 ", 5) {
        RuleInput::Entered(Rule::Sum(rule)) => {
            assert_eq!(rule.sum, 7);
            assert_eq!(rule.positions, vec![pos(1, 1), pos(1, 2)]);
        }
        other => panic!("{:?}", other),
    }
    match interpret_rule("SMALLER 2,1 1,2", 6) {
        RuleInput::Entered(rule) => {
            assert!(rule.is_relation());
            assert_eq!(rule.get_positions(), vec![pos(2, 1), pos(1, 2)]);
            assert_eq!(rule.get_index(), 6);
        }
        other => panic!("{:?}", other),
    }
}

#[test]
fn moves_are_read() {
    assert!(matches!(interpret_command("m 1 2 3"), Command::Move(p, 3) if p == pos(1, 2)));
    assert!(matches!(interpret_command("  m   9\t9  0 \n"), Command::Move(p, 0) if p == pos(9, 9)));
    assert!(matches!(interpret_command("m 1 2 300"), Command::Move(p, 300) if p == pos(1, 2)));
}

#[test]
fn moves_that_are_none() {
    assert!(matches!(interpret_command("m 1 2"), Command::Invalid(Mistake::MoveShape)));
    assert!(matches!(interpret_command("m 1 2 3 4"), Command::Invalid(Mistake::MoveShape)));
    assert!(matches!(interpret_command("m 0 2 3"), Command::Invalid(Mistake::MoveCell)));
    assert!(matches!(interpret_command("m x 2 3"), Command::Invalid(Mistake::MoveCell)));
    assert!(matches!(interpret_command("m 1 10 3"), Command::Invalid(Mistake::MoveCell)));
    assert!(matches!(interpret_command("m 1 2 x"), Command::Invalid(Mistake::MoveValue)));
    assert!(matches!(interpret_command("m 1 2 -3"), Command::Invalid(Mistake::MoveValue)));
}

#[test]
fn other_commands_are_read() {
    assert!(matches!(interpret_command("s game.json"), Command::Save(name) if name == "game.json"));
    assert!(matches!(interpret_command("s"), Command::Invalid(Mistake::SaveShape)));
    assert!(matches!(interpret_command("s a b"), Command::Invalid(Mistake::SaveShape)));
    assert!(matches!(interpret_command("f"), Command::Finish));
    assert!(matches!(interpret_command("f now"), Command::Finish));
    assert!(matches!(interpret_command("q\n"), Command::Quit));
    assert!(matches!(interpret_command(""), Command::Invalid(Mistake::Empty)));
    assert!(matches!(interpret_command("   \n"), Command::Invalid(Mistake::Empty)));
    assert!(matches!(interpret_command("move 1 2 3"), Command::Invalid(Mistake::Unknown)));
    assert!(matches!(interpret_command("M 1 2 3"), Command::Invalid(Mistake::Unknown)));
}

#[test]
fn commands_are_read_from_words() {
    let words: Vec<String> = vec!["m".into(), "4".into(), "5".into(), "6".into()];
    assert!(matches!(command_from_words(&words), Command::Move(p, 6) if p == pos(4, 5)));
    assert!(matches!(command_from_words(&vec![]), Command::Invalid(Mistake::Empty)));
}
