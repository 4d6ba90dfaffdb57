use sudoku_solver_and_generator::board::{Board, Position};
use sudoku_solver_and_generator::rules::{
    collect_values, contains_value, PermutationRule, RelationRule, Rule, RuleCheckResult, SumRule, Verdict,
};

fn pos(row: usize, col: usize) -> Position {
    Position::new(row, col).unwrap()
}

fn row_of(row: usize, side: usize) -> Vec<Position> {
    (1..=side).map(|c| pos(row, c)).collect()
}

fn relation(first: Position, second: Position) -> RelationRule {
    let mut r = RelationRule::new(0);
    r.positions.push(first);
    r.positions.push(second);
    r
}

fn message(res: RuleCheckResult) -> String {
    match res {
        RuleCheckResult::Critical(text) => text,
        RuleCheckResult::Unfulfilled(text) => text,
        RuleCheckResult::Satisfied => String::new(),
    }
}

#[test]
fn sum_rule_follows_the_running_total() {
    let rule = SumRule::new(vec![pos(1, 1), pos(1, 2)], 7, 0);
    let mut b = Board::new(9);
    assert_eq!(rule.check(&b).verdict(), Verdict::Unfulfilled);
    b.set_value(pos(1, 1), 3);
    b.set_value(pos(1, 2), 4);
    assert_eq!(rule.check(&b).verdict(), Verdict::Satisfied);
    b.set_value(pos(1, 1), 5);
    assert_eq!(rule.check(&b).verdict(), Verdict::Critical);
}

#[test]
fn sum_rule_is_met_before_every_cell_is_filled() {
    let rule = SumRule::new(vec![pos(1, 1), pos(1, 2), pos(1, 3)], 7, 0);
    let mut b = Board::new(9);
    b.set_value(pos(1, 2), 7);
    assert_eq!(rule.check(&b).verdict(), Verdict::Satisfied);
    b.set_value(pos(1, 3), 1);
    assert_eq!(rule.check(&b).verdict(), Verdict::Critical);
}

#[test]
fn sum_rule_without_positions_sums_to_zero() {
    let b = Board::new(4);
    assert_eq!(SumRule::new(vec![], 0, 0).check(&b).verdict(), Verdict::Satisfied);
    assert_eq!(SumRule::new(vec![], 1, 0).check(&b).verdict(), Verdict::Unfulfilled);
}

#[test]
fn sum_rule_counts_a_repeated_position_each_time() {
    let rule = SumRule::new(vec![pos(1, 1), pos(1, 1)], 6, 0);
    let mut b = Board::new(4);
    b.set_value(pos(1, 1), 3);
    assert_eq!(rule.check(&b).verdict(), Verdict::Satisfied);
}

#[test]
fn sum_rule_beyond_the_machine_is_broken() {
    let rule = SumRule::new(vec![pos(1, 1), pos(1, 2)], usize::MAX, 0);
    let mut b = Board::new(2);
    b.set_value(pos(1, 1), usize::MAX);
    assert_eq!(rule.check(&b).verdict(), Verdict::Satisfied);
    b.set_value(pos(1, 2), 1);
    assert_eq!(rule.check(&b).verdict(), Verdict::Critical);
    b.set_value(pos(1, 2), usize::MAX);
    assert_eq!(rule.check(&b).verdict(), Verdict::Critical);
}

#[test]
fn sum_rule_messages() {
    let rule = SumRule::new(vec![pos(1, 1), pos(1, 2)], 7, 0);
    let mut b = Board::new(9);
    assert_eq!(
        message(rule.check(&b)),
        "(sum): positions [(1, 1), (1, 2)] should sum to 7, currently 0"
    );
    b.set_value(pos(1, 1), 5);
    b.set_value(pos(1, 2), 4);
    assert_eq!(
        message(rule.check(&b)),
        "(sum): positions [(1, 1), (1, 2)] should sum to 7, currently 9"
    );
    b.set_value(pos(1, 1), 3);
    assert_eq!(message(rule.check(&b)), "");
    assert_eq!(rule.get_sum(), 7);
}

#[test]
fn relation_rule_orders_two_cells() {
    let rule = relation(pos(1, 1), pos(1, 2));
    let mut b = Board::new(9);
    assert_eq!(rule.check(&b).verdict(), Verdict::Unfulfilled);
    b.set_value(pos(1, 1), 2);
    assert_eq!(rule.check(&b).verdict(), Verdict::Unfulfilled);
    b.set_value(pos(1, 2), 5);
    assert_eq!(rule.check(&b).verdict(), Verdict::Satisfied);
    b.set_value(pos(1, 1), 5);
    b.set_value(pos(1, 2), 2);
    assert_eq!(rule.check(&b).verdict(), Verdict::Critical);
    b.set_value(pos(1, 2), 5);
    assert_eq!(rule.check(&b).verdict(), Verdict::Critical);
}

#[test]
fn relation_rule_without_two_cells_is_met() {
    let b = Board::new(4);
    let mut rule = RelationRule::new(3);
    assert_eq!(rule.check(&b).verdict(), Verdict::Satisfied);
    rule.positions.push(pos(1, 1));
    assert_eq!(rule.check(&b).verdict(), Verdict::Satisfied);
    rule.positions.push(pos(1, 2));
    assert_eq!(rule.check(&b).verdict(), Verdict::Unfulfilled);
    rule.positions.push(pos(1, 3));
    assert_eq!(rule.check(&b).verdict(), Verdict::Satisfied);
}

#[test]
fn relation_rule_messages() {
    let rule = relation(pos(1, 1), pos(1, 2));
    let mut b = Board::new(9);
    assert_eq!(message(rule.check(&b)), "(relation): positions [(1, 1), (1, 2)] are not both filled");
    b.set_value(pos(1, 1), 5);
    b.set_value(pos(1, 2), 2);
    assert_eq!(
        message(rule.check(&b)),
        "(relation): positions [(1, 1), (1, 2)] should be in increasing order"
    );
}

#[test]
fn permutation_rule_verdicts() {
    let rule = PermutationRule::new(row_of(1, 4), 0);
    let mut b = Board::new(4);
    assert_eq!(rule.check(&b).verdict(), Verdict::Unfulfilled);
    b.set_value(pos(1, 1), 1);
    b.set_value(pos(1, 2), 2);
    assert_eq!(rule.check(&b).verdict(), Verdict::Unfulfilled);
    b.set_value(pos(1, 3), 2);
    assert_eq!(rule.check(&b).verdict(), Verdict::Critical);
    b.set_value(pos(1, 3), 3);
    assert_eq!(rule.check(&b).verdict(), Verdict::Unfulfilled);
    b.set_value(pos(1, 4), 4);
    assert_eq!(rule.check(&b).verdict(), Verdict::Satisfied);
    b.set_value(pos(1, 4), 5);
    assert_eq!(rule.check(&b).verdict(), Verdict::Critical);
    b.set_value(pos(1, 4), 3);
    assert_eq!(rule.check(&b).verdict(), Verdict::Critical);
}

#[test]
fn permutation_rule_of_another_size_is_met() {
    let mut b = Board::new(4);
    b.set_value(pos(1, 1), 1);
    b.set_value(pos(1, 2), 1);
    let short = PermutationRule::new(vec![pos(1, 1), pos(1, 2)], 0);
    assert_eq!(short.check(&b).verdict(), Verdict::Satisfied);
    let empty = PermutationRule::new(vec![], 0);
    assert_eq!(empty.check(&b).verdict(), Verdict::Satisfied);
    let long = PermutationRule::new(vec![pos(1, 1), pos(1, 2), pos(1, 3), pos(1, 4), pos(2, 1)], 0);
    assert_eq!(long.check(&b).verdict(), Verdict::Satisfied);
}

#[test]
fn permutation_rule_messages() {
    let rule = PermutationRule::new(row_of(1, 2), 0);
    let mut b = Board::new(2);
    assert_eq!(
        message(rule.check(&b)),
        "(permutation): positions [(1, 1), (1, 2)] should be a permutation, (elements are missing)"
    );
    b.set_value(pos(1, 1), 2);
    b.set_value(pos(1, 2), 2);
    assert_eq!(
        message(rule.check(&b)),
        "(permutation): positions [(1, 1), (1, 2)] should be a permutation"
    );
}

#[test]
fn rule_positions_grow_and_shrink() {
    let mut rule = Rule::Sum(SumRule::new(vec![], 5, 11));
    assert_eq!(rule.get_index(), 11);
    assert!(rule.get_positions().is_empty());
    rule.add_position(pos(1, 1));
    rule.add_position(pos(2, 2));
    rule.add_position(pos(1, 1));
    assert_eq!(rule.get_positions(), vec![pos(1, 1), pos(2, 2), pos(1, 1)]);
    rule.remove_position(pos(1, 1));
    assert_eq!(rule.get_positions(), vec![pos(2, 2)]);
    rule.remove_position(pos(3, 3));
    assert_eq!(rule.get_positions(), vec![pos(2, 2)]);
    assert_eq!(rule.get_index(), 11);

    let mut perm = Rule::Permutation(PermutationRule::new(vec![pos(1, 1), pos(1, 2)], 4));
    perm.remove_position(pos(1, 2));
    assert_eq!(perm.get_positions(), vec![pos(1, 1)]);
    assert_eq!(perm.get_index(), 4);
}

#[test]
fn relation_rule_keeps_its_positions_on_removal() {
    let mut rule = Rule::Relation(RelationRule::new(2));
    rule.add_position(pos(1, 1));
    rule.add_position(pos(1, 2));
    rule.remove_position(pos(1, 1));
    assert_eq!(rule.get_positions(), vec![pos(1, 1), pos(1, 2)]);
    assert_eq!(rule.get_index(), 2);
}

#[test]
fn rule_knows_its_kind() {
    let sum = Rule::Sum(SumRule::new(vec![], 1, 0));
    let perm = Rule::Permutation(PermutationRule::new(vec![], 0));
    let rel = Rule::Relation(RelationRule::new(0));
    assert!(!sum.is_permutation() && !sum.is_relation());
    assert!(perm.is_permutation() && !perm.is_relation());
    assert!(!rel.is_permutation() && rel.is_relation());
}

#[test]
fn rule_check_goes_by_the_kind() {
    let mut b = Board::new(2);
    b.set_value(pos(1, 1), 2);
    b.set_value(pos(1, 2), 1);
    let sum = Rule::Sum(SumRule::new(row_of(1, 2), 3, 0));
    let perm = Rule::Permutation(PermutationRule::new(row_of(1, 2), 1));
    let mut rel = Rule::Relation(RelationRule::new(2));
    rel.add_position(pos(1, 1));
    rel.add_position(pos(1, 2));
    assert_eq!(sum.check(&b).verdict(), Verdict::Satisfied);
    assert_eq!(perm.check(&b).verdict(), Verdict::Satisfied);
    assert_eq!(rel.check(&b).verdict(), Verdict::Critical);
}

#[test]
fn rule_clone_is_independent() {
    let mut rule = Rule::Sum(SumRule::new(vec![pos(1, 1)], 5, 7));
    let copy = rule.clone();
    rule.add_position(pos(2, 2));
    assert_eq!(copy.get_positions(), vec![pos(1, 1)]);
    assert_eq!(copy.get_index(), 7);
}

#[test]
fn values_are_collected_in_the_order_of_the_positions() {
    let mut b = Board::new(3);
    b.set_value(pos(1, 1), 3);
    b.set_value(pos(2, 2), 1);
    let values = collect_values(&vec![pos(2, 2), pos(1, 3), pos(1, 1)], &b);
    assert_eq!(values, vec![1, 0, 3]);
    assert!(contains_value(&values, 0));
    assert!(contains_value(&values, 3));
    assert!(!contains_value(&values, 2));
}
