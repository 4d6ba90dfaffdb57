//! The classic grid: nine rows, nine columns and nine blocks of three by
//! three. It has a solution, so a solver finds one on the empty board.

use crate::board::{all_filled, is_grid, Position};
use crate::complete::{covered, lemma_plain_starts_among, lemma_structural_rules_plain, solvable, tightens};
use crate::game::{all_satisfied, block_count, block_end, is_box, is_structural_rule, rules_on_grid, span, structural_count};
use crate::rules::{all_on_grid, covers, has_empty, lemma_covers_within, repeats_value, values_at, RuleModel, Verdict};
use crate::search::{extends, is_solution};
use vstd::prelude::*;

verus! {

/// The value of the cell in row `r` and column `c`, both counted from 0,
/// of one solution of the classic grid: each row is the row above it
/// shifted by three, and by one more where a new band of blocks begins.
pub open spec fn classic_value(r: int, c: int) -> usize {
    (((r % 3) * 3 + r / 3 + c) % 9 + 1) as usize
}

/// One solution of the classic grid.
pub open spec fn classic_solution() -> Seq<Seq<usize>> {
    Seq::new(9, |r: int| Seq::new(9, |c: int| classic_value(r, c)))
}

/// Whether the rules are the structural rules of the classic grid.
pub open spec fn classic_rules(rules: Seq<RuleModel>) -> bool {
    &&& rules.len() == structural_count(9, 3, 3)
    &&& forall|k: int| 0 <= k < rules.len() ==> is_structural_rule(#[trigger] rules[k], k, 9, 3, 3)
}

/// The classic grid has 27 structural rules.
pub proof fn lemma_classic_count()
    ensures
        structural_count(9, 3, 3) == 27,
{
    assert(block_count(9, 3) == 3);
    assert(block_count(9, 3) * block_count(9, 3) == 9) by (nonlinear_arith)
        requires
            block_count(9, 3) == 3,
    ;
}

/// Two cells of a row of the solution hold different values.
proof fn lemma_row_differs(r: int, i: int, j: int)
    requires
        0 <= r < 9,
        0 <= i < j < 9,
    ensures
        classic_value(r, i) != classic_value(r, j),
        1 <= classic_value(r, i) <= 9,
        1 <= classic_value(r, j) <= 9,
{
    let a = (r % 3) * 3 + r / 3;
    assert(0 <= a < 12);
}

/// Two cells of a column of the solution hold different values.
proof fn lemma_column_differs(c: int, i: int, j: int)
    requires
        0 <= c < 9,
        0 <= i < j < 9,
    ensures
        classic_value(i, c) != classic_value(j, c),
{
    let a = (i % 3) * 3 + i / 3;
    let b = (j % 3) * 3 + j / 3;
    assert(0 <= a < 9 && 0 <= b < 9);
    assert(a != b);
}

/// Two cells of a block of the solution hold different values.
proof fn lemma_block_differs(bi: int, bj: int, i: int, j: int)
    requires
        0 <= bi < 3,
        0 <= bj < 3,
        0 <= i < j < 9,
    ensures
        classic_value(bi * 3 + i / 3, bj * 3 + i % 3) != classic_value(bi * 3 + j / 3, bj * 3 + j % 3),
{
    let ri = bi * 3 + i / 3;
    let rj = bi * 3 + j / 3;
    assert(ri % 3 == i / 3 && ri / 3 == bi);
    assert(rj % 3 == j / 3 && rj / 3 == bi);
    let a = (i / 3) * 3 + bi + bj * 3 + i % 3;
    let b = (j / 3) * 3 + bi + bj * 3 + j % 3;
    assert(a == i + bi + bj * 3);
    assert(b == j + bi + bj * 3);
}

/// Nine different values of `1..=9` meet a permutation rule on a grid of
/// side nine.
proof fn lemma_nine_values(values: Seq<usize>)
    requires
        values.len() == 9,
        forall|i: int| 0 <= i < 9 ==> 1 <= #[trigger] values[i] <= 9,
        forall|i: int, j: int| 0 <= i < j < 9 ==> #[trigger] values[i] != #[trigger] values[j],
    ensures
        crate::rules::permutation_verdict(values, 9) == Verdict::Satisfied,
{
    assert(!has_empty(values));
    assert(!repeats_value(values));
    lemma_covers_within(values, 9);
}

/// The positions of a structural rule of the classic grid, by the number
/// of the rule: a row, a column, or a block.
proof fn lemma_classic_positions(rule: RuleModel, k: int)
    requires
        0 <= k < 27,
        is_structural_rule(rule, k, 9, 3, 3),
    ensures
        rule is Permutation,
        rule.positions().len() == 9,
        k < 9 ==> forall|i: int|
            0 <= i < 9 ==> (#[trigger] rule.positions()[i]).row() == k + 1 && rule.positions()[i].col() == i + 1,
        9 <= k < 18 ==> forall|i: int|
            0 <= i < 9 ==> (#[trigger] rule.positions()[i]).row() == i + 1 && rule.positions()[i].col() == k - 9 + 1,
        18 <= k ==> forall|i: int|
            0 <= i < 9 ==> (#[trigger] rule.positions()[i]).row() == ((k - 18) / 3) * 3 + 1 + i / 3
                && rule.positions()[i].col() == ((k - 18) % 3) * 3 + 1 + i % 3,
{
    let positions = rule.positions();
    assert(block_count(9, 3) == 3);
    if k < 9 {
        let height = span(k + 1, k + 1);
        let width = span(1, 9);
        assert(height == 1 && width == 9);
        assert(is_box(positions, k + 1, k + 1, 1, 9));
        assert(height * width == 9) by (nonlinear_arith)
            requires
                height == 1,
                width == 9,
        ;
        assert forall|i: int| 0 <= i < 9 implies (#[trigger] positions[i]).row() == k + 1 && positions[i].col() == i + 1 by {
            assert(i / 9 == 0 && i % 9 == i);
            assert(positions[i].row() == k + 1 + i / width);
        }
    } else if k < 18 {
        let c = k - 9;
        let height = span(1, 9);
        let width = span(c + 1, c + 1);
        assert(height == 9 && width == 1);
        assert(is_box(positions, 1, 9, c + 1, c + 1));
        assert(height * width == 9) by (nonlinear_arith)
            requires
                height == 9,
                width == 1,
        ;
        assert forall|i: int| 0 <= i < 9 implies (#[trigger] positions[i]).row() == i + 1 && positions[i].col() == c + 1 by {
            assert(i / 1 == i && i % 1 == 0);
            assert(positions[i].row() == 1 + i / width);
        }
    } else {
        let bi = (k - 18) / 3;
        let bj = (k - 18) % 3;
        assert(0 <= bi < 3 && 0 <= bj < 3);
        assert(block_end(9, 3, bi) == (bi + 1) * 3);
        assert(block_end(9, 3, bj) == (bj + 1) * 3);
        let height = span(bi * 3 + 1, (bi + 1) * 3);
        let width = span(bj * 3 + 1, (bj + 1) * 3);
        assert(height == 3 && width == 3);
        assert(is_box(positions, bi * 3 + 1, block_end(9, 3, bi), bj * 3 + 1, block_end(9, 3, bj)));
        assert(height * width == 9) by (nonlinear_arith)
            requires
                height == 3,
                width == 3,
        ;
        assert forall|i: int| 0 <= i < 9 implies (#[trigger] positions[i]).row() == bi * 3 + 1 + i / 3 && positions[i].col()
            == bj * 3 + 1 + i % 3 by {
            assert(positions[i].row() == bi * 3 + 1 + i / width);
        }
    }
}

/// Each structural rule of the classic grid is met on the solution.
proof fn lemma_classic_rule(rule: RuleModel, k: int)
    requires
        0 <= k < 27,
        is_structural_rule(rule, k, 9, 3, 3),
    ensures
        all_on_grid(rule.positions(), 9),
        rule.verdict(classic_solution(), 9) == Verdict::Satisfied,
{
    let full = classic_solution();
    let positions = rule.positions();
    let values = values_at(full, positions);
    lemma_classic_positions(rule, k);
    assert forall|i: int| 0 <= i < 9 implies (#[trigger] positions[i]).on_grid(9) by {
        if k < 9 {
        } else if k < 18 {
        } else {
            assert(0 <= (k - 18) / 3 < 3 && 0 <= (k - 18) % 3 < 3);
            assert(0 <= i / 3 < 3 && 0 <= i % 3 < 3);
        }
    }
    assert forall|i: int| 0 <= i < 9 implies #[trigger] values[i] == classic_value(
        positions[i].row() - 1,
        positions[i].col() - 1,
    ) by {
        assert(positions[i].on_grid(9));
    }
    assert forall|i: int| 0 <= i < 9 implies 1 <= #[trigger] values[i] <= 9 by {}
    assert forall|i: int, j: int| 0 <= i < j < 9 implies #[trigger] values[i] != #[trigger] values[j] by {
        assert(positions[i].on_grid(9) && positions[j].on_grid(9));
        if k < 9 {
            lemma_row_differs(k, i, j);
        } else if k < 18 {
            lemma_column_differs(k - 9, i, j);
        } else {
            lemma_block_differs((k - 18) / 3, (k - 18) % 3, i, j);
        }
    }
    lemma_nine_values(values);
}

/// The classic grid has a solution: the empty board of a classic game can
/// be completed, and so can every board that the solution above fills.
pub proof fn lemma_classic_solvable(rules: Seq<RuleModel>, cells: Seq<Seq<usize>>)
    requires
        classic_rules(rules),
        is_grid(cells, 9),
        extends(classic_solution(), cells, 9),
    ensures
        rules_on_grid(rules, 9),
        covered(rules, 9),
        !tightens(rules),
        is_solution(classic_solution(), rules, 9),
        solvable(rules, 9, cells),
{
    let full = classic_solution();
    lemma_classic_count();
    assert forall|k: int| 0 <= k < rules.len() implies all_on_grid((#[trigger] rules[k]).positions(), 9) && rules[k].verdict(
        full,
        9,
    ) == Verdict::Satisfied by {
        lemma_classic_rule(rules[k], k);
    }
    assert(is_grid(full, 9));
    assert(all_filled(full));
    assert(is_solution(full, rules, 9));
    lemma_structural_rules_plain(rules, 9, 3, 3);
    lemma_plain_starts_among(rules, 9, full);
}

} // verus!
