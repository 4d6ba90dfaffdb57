use sudoku_solver_and_generator::board::{Board, Position};
use sudoku_solver_and_generator::game::Game;
use sudoku_solver_and_generator::rules::{PermutationRule, RelationRule, Rule, SumRule, Verdict};

fn pos(row: usize, col: usize) -> Position {
    Position::new(row, col).unwrap()
}

fn solved_value(r: usize, c: usize) -> usize {
    (3 * (r % 3) + r / 3 + c) % 9 + 1
}

fn solved_classic() -> Game {
    let mut game = Game::new(9, 3, 3);
    for r in 0..9 {
        for c in 0..9 {
            game.set_value(Position::new(r + 1, c + 1), solved_value(r, c));
        }
    }
    game
}

#[test]
fn classic_game_has_rows_columns_and_blocks() {
    let game = Game::new(9, 3, 3);
    assert_eq!(game.get_side(), 9);
    assert_eq!(game.get_base_rule_count(), 27);
    let rules = game.rules();
    assert_eq!(rules.len(), 27);
    for (k, rule) in rules.iter().enumerate() {
        assert!(rule.is_permutation());
        assert_eq!(rule.get_index(), k);
        assert_eq!(rule.get_positions().len(), 9);
    }
    let third_row: Vec<Position> = (1..=9).map(|c| pos(3, c)).collect();
    assert_eq!(rules[2].get_positions(), third_row);
    let second_col: Vec<Position> = (1..=9).map(|r| pos(r, 2)).collect();
    assert_eq!(rules[10].get_positions(), second_col);
    assert_eq!(
        rules[18].get_positions(),
        vec![pos(1, 1), pos(1, 2), pos(1, 3), pos(2, 1), pos(2, 2), pos(2, 3), pos(3, 1), pos(3, 2), pos(3, 3)]
    );
    assert_eq!(
        rules[19].get_positions(),
        vec![pos(1, 4), pos(1, 5), pos(1, 6), pos(2, 4), pos(2, 5), pos(2, 6), pos(3, 4), pos(3, 5), pos(3, 6)]
    );
    assert_eq!(
        rules[26].get_positions(),
        vec![pos(7, 7), pos(7, 8), pos(7, 9), pos(8, 7), pos(8, 8), pos(8, 9), pos(9, 7), pos(9, 8), pos(9, 9)]
    );
}

#[test]
fn new_game_has_an_empty_board() {
    let game = Game::new(4, 2, 2);
    for r in 1..=4 {
        for c in 1..=4 {
            assert_eq!(game.get_value(Position::new(r, c)), 0);
        }
    }
    assert_eq!(game.get_base_rule_count(), 12);
}

#[test]
fn blocks_need_not_be_square() {
    let game = Game::new(6, 2, 3);
    assert_eq!(game.get_base_rule_count(), 18);
    let rules = game.rules();
    assert_eq!(
        rules[12].get_positions(),
        vec![pos(1, 1), pos(1, 2), pos(1, 3), pos(2, 1), pos(2, 2), pos(2, 3)]
    );
    assert_eq!(
        rules[13].get_positions(),
        vec![pos(1, 4), pos(1, 5), pos(1, 6), pos(2, 4), pos(2, 5), pos(2, 6)]
    );
    assert_eq!(
        rules[17].get_positions(),
        vec![pos(5, 4), pos(5, 5), pos(5, 6), pos(6, 4), pos(6, 5), pos(6, 6)]
    );
}

#[test]
fn blocks_that_the_grid_cuts_short_are_smaller() {
    let game = Game::new(4, 3, 3);
    assert_eq!(game.get_base_rule_count(), 12);
    let rules = game.rules();
    assert_eq!(rules[8].get_positions().len(), 9);
    assert_eq!(rules[9].get_positions(), vec![pos(1, 4), pos(2, 4), pos(3, 4)]);
    assert_eq!(rules[10].get_positions(), vec![pos(4, 1), pos(4, 2), pos(4, 3)]);
    assert_eq!(rules[11].get_positions(), vec![pos(4, 4)]);
    assert_eq!(rules[11].get_index(), 11);
}

#[test]
fn game_of_side_zero_has_no_rules() {
    let game = Game::new(0, 1, 1);
    assert_eq!(game.get_side(), 0);
    assert_eq!(game.get_base_rule_count(), 0);
    assert!(game.rules().is_empty());
    assert!(game.is_won());
}

#[test]
fn a_side_beyond_the_positions_keeps_the_cells_that_can_be_named() {
    let game = Game::new(10, 5, 5);
    assert_eq!(game.get_base_rule_count(), 24);
    let rules = game.rules();
    assert_eq!(rules[0].get_positions().len(), 9);
    assert_eq!(rules[9].get_positions().len(), 0);
    assert_eq!(rules[10].get_positions().len(), 9);
    assert_eq!(rules[19].get_positions().len(), 0);
    assert_eq!(rules[20].get_positions().len(), 25);
    assert_eq!(rules[21].get_positions().len(), 20);
    assert_eq!(rules[23].get_positions().len(), 16);
}

#[test]
fn solved_classic_board_meets_every_structural_rule() {
    let game = solved_classic();
    let board = game.board();
    for rule in game.rules() {
        assert_eq!(rule.check(&board).verdict(), Verdict::Satisfied);
    }
    assert_eq!(game.check_rules(), (None, None));
    assert!(game.is_won());
}

#[test]
fn empty_classic_board_has_every_rule_pending() {
    let game = Game::new(9, 3, 3);
    let (violations, pending) = game.check_rules();
    assert!(violations.is_none());
    assert_eq!(pending.unwrap().len(), 27);
    assert!(!game.is_won());
}

#[test]
fn check_rules_sorts_the_messages() {
    let mut game = Game::new(2, 1, 2);
    game.set_value(Position::new(1, 1), 1);
    game.set_value(Position::new(1, 2), 1);
    let (violations, pending) = game.check_rules();
    assert_eq!(
        violations.unwrap(),
        vec![
            "(permutation): positions [(1, 1), (1, 2)] should be a permutation".to_string(),
            "(permutation): positions [(1, 1), (1, 2)] should be a permutation".to_string(),
        ]
    );
    assert_eq!(
        pending.unwrap(),
        vec![
            "(permutation): positions [(2, 1), (2, 2)] should be a permutation, (elements are missing)".to_string(),
            "(permutation): positions [(1, 1), (2, 1)] should be a permutation, (elements are missing)".to_string(),
            "(permutation): positions [(1, 2), (2, 2)] should be a permutation, (elements are missing)".to_string(),
            "(permutation): positions [(2, 1), (2, 2)] should be a permutation, (elements are missing)".to_string(),
        ]
    );
}

#[test]
fn rules_state_lists_both_kinds() {
    let mut game = Game::new(2, 1, 2);
    assert_eq!(game.get_base_rule_count(), 6);
    game.set_value(Position::new(1, 1), 1);
    game.set_value(Position::new(1, 2), 2);
    game.set_value(Position::new(2, 1), 2);
    game.set_value(Position::new(2, 2), 1);
    assert_eq!(game.get_rules_state(), "Violated rules: \nPending rules: \n");
    game.add_rule(Rule::Sum(SumRule::new(vec![pos(1, 1), pos(2, 2)], 1, 6)));
    game.add_rule(Rule::Sum(SumRule::new(vec![pos(1, 2)], 3, 7)));
    assert_eq!(
        game.get_rules_state(),
        "Violated rules: \n(sum): positions [(1, 1), (2, 2)] should sum to 1, currently 2\n\
         Pending rules: \n(sum): positions [(1, 2)] should sum to 3, currently 2\n"
    );
    assert!(!game.is_won());
}

#[test]
fn custom_rules_are_numbered_from_the_base_count() {
    let mut game = Game::new(4, 2, 2);
    let base = game.get_base_rule_count();
    game.add_rule(Rule::Sum(SumRule::new(vec![], 7, base)));
    game.add_rule(Rule::Relation(RelationRule::new(base + 1)));
    game.add_rule(Rule::Permutation(PermutationRule::new(vec![], base + 2)));
    assert_eq!(game.get_base_rule_count(), base);
    assert_eq!(game.rules().len(), base + 3);
    assert_eq!(game.get_rule(0).get_index(), base);
    assert_eq!(game.get_rule(1).get_index(), base + 1);
    assert!(game.get_rule(1).is_relation());
    assert!(game.get_rule(2).is_permutation());

    game.add_position_to_rule(0, pos(1, 1));
    game.add_position_to_rule(0, pos(1, 2));
    game.add_position_to_rule(1, pos(2, 1));
    assert_eq!(game.get_rule(0).get_positions(), vec![pos(1, 1), pos(1, 2)]);
    assert_eq!(game.get_rule(1).get_positions(), vec![pos(2, 1)]);
    assert!(game.get_rule(2).get_positions().is_empty());

    game.remove_position_from_rule(0, pos(1, 1));
    assert_eq!(game.get_rule(0).get_positions(), vec![pos(1, 2)]);
    game.remove_position_from_rule(1, pos(2, 1));
    assert_eq!(game.get_rule(1).get_positions(), vec![pos(2, 1)]);
    assert_eq!(game.rules()[0].get_positions().len(), 4);
}

#[test]
fn set_value_without_a_position_changes_nothing() {
    let mut game = Game::new(4, 2, 2);
    game.set_value(Position::new(0, 1), 3);
    game.set_value(Position::new(1, 10), 3);
    for r in 1..=4 {
        for c in 1..=4 {
            assert_eq!(game.get_value(Position::new(r, c)), 0);
        }
    }
    assert_eq!(game.get_value(None), 0);
    game.set_value(Position::new(2, 2), 3);
    assert_eq!(game.get_value(Position::new(2, 2)), 3);
    assert_eq!(game.board().get_value(pos(2, 2)), 3);
}

#[test]
fn board_of_the_game_is_a_copy() {
    let mut game = Game::new(4, 2, 2);
    let mut board = game.board();
    board.set_value(pos(1, 1), 4);
    assert_eq!(game.get_value(Position::new(1, 1)), 0);
    game.set_board(board);
    assert_eq!(game.get_value(Position::new(1, 1)), 4);
    assert_eq!(game.get_base_rule_count(), 12);
}

#[test]
fn game_clone_is_independent() {
    let mut game = Game::new(4, 2, 2);
    let copy = game.clone();
    game.set_value(Position::new(1, 1), 2);
    game.add_rule(Rule::Relation(RelationRule::new(12)));
    assert_eq!(copy.get_value(Position::new(1, 1)), 0);
    assert_eq!(copy.rules().len(), 12);
}

#[test]
fn game_from_parts_round_trips() {
    let mut game = Game::new(4, 2, 2);
    game.set_value(Position::new(3, 4), 2);
    game.add_rule(Rule::Sum(SumRule::new(vec![pos(1, 1), pos(4, 4)], 5, 12)));
    let back = Game::from_parts(
        Board::from_rows(game.board().rows()).unwrap(),
        game.rules(),
        game.get_base_rule_count(),
    )
    .unwrap();
    assert_eq!(back.get_side(), 4);
    assert_eq!(back.get_base_rule_count(), 12);
    assert_eq!(back.board().rows(), game.board().rows());
    assert_eq!(back.rules().len(), 13);
    for (a, b) in back.rules().iter().zip(game.rules().iter()) {
        assert_eq!(a.get_index(), b.get_index());
        assert_eq!(a.get_positions(), b.get_positions());
        assert_eq!(a.is_permutation(), b.is_permutation());
    }
    assert_eq!(back.get_rules_state(), game.get_rules_state());
}

#[test]
fn game_from_parts_refuses_what_does_not_fit() {
    let rule = Rule::Sum(SumRule::new(vec![pos(1, 5)], 5, 0));
    assert!(Game::from_parts(Board::new(4), vec![rule.clone()], 0).is_none());
    assert!(Game::from_parts(Board::new(5), vec![rule.clone()], 0).is_some());
    assert!(Game::from_parts(Board::new(5), vec![rule.clone()], 1).is_some());
    assert!(Game::from_parts(Board::new(5), vec![rule], 2).is_none());
    assert!(Game::from_parts(Board::new(3), vec![], 0).is_some());
}
