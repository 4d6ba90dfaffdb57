//! Why the search succeeds: as long as some solution agrees with the board
//! and is among the candidates, the search that tries the candidates in
//! the order of their lists finds a solution.

use crate::board::{all_filled, cell_at, count_filled, is_grid, lemma_count_filled_bound, lemma_with_cell_count, with_cell, Position};
use crate::game::{all_satisfied, rules_on_grid};
use crate::rules::{all_on_grid, covers, has_empty, permutation_verdict, repeats_value, values_at, RuleModel, Verdict};
use crate::search::{
    fresh_options, initial, options_ok, replayed, scan_position, set_list, solution_of, solved, tighten_one, tightened,
    without_first, without_last, at_cell, breaks_rule, can_place, candidates, empties, extends, is_live, is_next, is_open, is_peer, is_solution,
    lemma_filter_members, lemma_place_well_formed, lemma_unplace_well_formed, lists_cell, next_choice, other_value,
    overall, place_result, reaches, registered, search, try_values, unplace_result, well_formed, chosen_among, scanned,
    Outcome, Search,
};
use vstd::prelude::*;

verus! {

/// Whether the solution `full` agrees with the state: it holds what the
/// board holds, and its value for each cell is a candidate of the cell.
pub open spec fn agrees(s: Search, full: Seq<Seq<usize>>, side: int) -> bool {
    &&& extends(full, s.cells, side)
    &&& forall|r: int, c: int| 0 <= r < side && 0 <= c < side ==> (#[trigger] s.options[r][c]).contains(full[r][c])
}

/// Whether the state `after` has the board of `before` and every
/// candidate that `before` has.
pub open spec fn grows(before: Search, after: Search, side: int) -> bool {
    &&& after.cells == before.cells
    &&& forall|r: int, c: int, x: usize|
        0 <= r < side && 0 <= c < side && before.options[r][c].contains(x) ==> #[trigger] after.options[r][c].contains(x)
}

/// A permutation rule that is met on a full grid is not broken on a grid
/// that holds a part of it.
pub proof fn lemma_part_not_broken(rule: RuleModel, part: Seq<Seq<usize>>, full: Seq<Seq<usize>>, side: int)
    requires
        is_live(rule, side),
        all_on_grid(rule.positions(), side),
        is_grid(part, side),
        is_grid(full, side),
        all_filled(full),
        extends(full, part, side),
        rule.verdict(full, side) == Verdict::Satisfied,
    ensures
        rule.verdict(part, side) != Verdict::Critical,
{
    let positions = rule.positions();
    let held = values_at(part, positions);
    let wanted = values_at(full, positions);
    assert forall|i: int| 0 <= i < positions.len() implies (held[i] == 0 || held[i] == wanted[i]) && wanted[i] != 0 by {
        let p = positions[i];
        assert(p.on_grid(side));
        assert(full[p.row() - 1][p.col() - 1] != 0);
        if part[p.row() - 1][p.col() - 1] != 0 {
            assert(full[p.row() - 1][p.col() - 1] == part[p.row() - 1][p.col() - 1]);
        }
    }
    assert(!has_empty(wanted)) by {
        if has_empty(wanted) {
            let i = choose|i: int| 0 <= i < wanted.len() && #[trigger] wanted[i] == 0;
            assert(wanted[i] != 0);
        }
    }
    assert(!repeats_value(wanted));
    if repeats_value(held) {
        let (i, j) = choose|i: int, j: int|
            0 <= i < j < held.len() && held[i] != 0 && #[trigger] held[i] == #[trigger] held[j];
        assert(wanted[i] == wanted[j] && wanted[i] != 0);
        assert(repeats_value(wanted));
    }
    if !has_empty(held) {
        assert(held =~= wanted) by {
            assert forall|i: int| 0 <= i < held.len() implies held[i] == wanted[i] by {
                if held[i] == 0 {
                    assert(has_empty(held));
                }
            }
        }
    }
}

/// Two different cells of a permutation rule that is met on a full grid
/// hold different values.
pub proof fn lemma_peers_differ(rule: RuleModel, full: Seq<Seq<usize>>, side: int, p: Position, r: int, c: int)
    requires
        is_live(rule, side),
        all_on_grid(rule.positions(), side),
        is_grid(full, side),
        all_filled(full),
        rule.verdict(full, side) == Verdict::Satisfied,
        lists_cell(rule, p.row() - 1, p.col() - 1),
        lists_cell(rule, r, c),
        !at_cell(p, r, c),
        0 <= r < side,
        0 <= c < side,
        p.on_grid(side),
    ensures
        full[r][c] != cell_at(full, p),
{
    let positions = rule.positions();
    let wanted = values_at(full, positions);
    let i = choose|i: int| 0 <= i < positions.len() && at_cell(#[trigger] positions[i], p.row() - 1, p.col() - 1);
    let j = choose|j: int| 0 <= j < positions.len() && at_cell(#[trigger] positions[j], r, c);
    assert(wanted[i] == cell_at(full, p));
    assert(wanted[j] == full[r][c]);
    assert(full[r][c] != 0);
    assert(i != j);
    assert(!repeats_value(wanted));
    if wanted[i] == wanted[j] {
        if i < j {
            assert(wanted[i] != 0 && wanted[i] == wanted[j]);
        } else {
            assert(wanted[j] != 0 && wanted[j] == wanted[i]);
        }
    }
}

/// The value that a solution has for a cell can be placed there, while
/// the solution agrees with the state and the cell is empty or holds that
/// value already; and the solution agrees with the state after it.
#[verifier::rlimit(50)]
pub proof fn lemma_place_agreed(rules: Seq<RuleModel>, side: int, s: Search, pos: Position, full: Seq<Seq<usize>>)
    requires
        well_formed(s, side),
        rules_on_grid(rules, side),
        pos.on_grid(side),
        is_solution(full, rules, side),
        agrees(s, full, side),
        cell_at(s.cells, pos) == 0 || cell_at(s.cells, pos) == cell_at(full, pos),
    ensures
        can_place(rules, side, s, pos, cell_at(full, pos)),
        agrees(place_result(rules, side, s, pos, cell_at(full, pos)), full, side),
{
    let v = cell_at(full, pos);
    let cells = with_cell(s.cells, pos, v);
    let pr = pos.row() - 1;
    let pc = pos.col() - 1;
    assert(s.cells[pr].len() == side);
    assert(full[pr].len() == side);
    assert(is_grid(cells, side));
    assert(extends(full, cells, side)) by {
        assert forall|r: int, c: int| 0 <= r < side && 0 <= c < side && cells[r][c] != 0 implies #[trigger] full[r][c]
            == cells[r][c] by {
            if r == pr && c == pc {
            } else {
                assert(cells[r][c] == s.cells[r][c]);
            }
        }
    }
    assert(s.options[pr][pc].contains(v));
    assert(!breaks_rule(rules, side, cells, pos)) by {
        if breaks_rule(rules, side, cells, pos) {
            let k = choose|k: int| #[trigger]
                registered(rules, side, k, pos.row() - 1, pos.col() - 1) && rules[k].verdict(cells, side)
                    == Verdict::Critical;
            assert(all_on_grid(rules[k].positions(), side));
            assert(rules[k].verdict(full, side) == Verdict::Satisfied);
            lemma_part_not_broken(rules[k], cells, full, side);
        }
    }
    assert forall|r: int, c: int|
        0 <= r < side && 0 <= c < side && #[trigger] reaches(rules, side, cells, pos, r, c) implies s.options[r][c].filter(
        other_value(v),
    ).contains(full[r][c]) by {
        let k = choose|k: int| #[trigger]
            registered(rules, side, k, pos.row() - 1, pos.col() - 1) && registered(rules, side, k, r, c);
        assert(all_on_grid(rules[k].positions(), side));
        assert(rules[k].verdict(full, side) == Verdict::Satisfied);
        lemma_peers_differ(rules[k], full, side, pos, r, c);
        assert(s.options[r][c].contains(full[r][c]));
        lemma_filter_members(s.options[r][c], v, full[r][c]);
    }
    assert(can_place(rules, side, s, pos, v));
    let t = place_result(rules, side, s, pos, v);
    assert forall|r: int, c: int| 0 <= r < side && 0 <= c < side implies (#[trigger] t.options[r][c]).contains(
        full[r][c],
    ) by {
        assert(s.options[r][c].contains(full[r][c]));
        if reaches(rules, side, cells, pos, r, c) {
            assert(s.options[r][c].filter(other_value(v)).contains(full[r][c]));
        }
    }
}

/// The scan for the next cell has a choice wherever it stands.
pub proof fn lemma_scan_chooses(s: Search, side: int, row: int, col: int) -> (best: Option<Position>)
    requires
        0 <= side <= crate::board::N,
        0 <= col <= side,
        0 <= row <= side,
        col == side ==> row == 0,
    ensures
        chosen_among(s, side, best, row, col),
    decreases col, row,
{
    broadcast use Position::lemma_spec_at;

    if row == 0 && col == 0 {
        None
    } else if row == 0 {
        let before = lemma_scan_chooses(s, side, side, col - 1);
        assert forall|r: int, c: int| 0 <= r < side && 0 <= c < side implies (scanned(r, c, 0, col) <==> scanned(
            r,
            c,
            side,
            col - 1,
        )) by {}
        before
    } else {
        let before = lemma_scan_chooses(s, side, row - 1, col);
        let here = Position::spec_at(row as usize, (col + 1) as usize);
        assert(here.row() == row && here.col() == col + 1);
        assert forall|r: int, c: int| 0 <= r < side && 0 <= c < side implies (scanned(r, c, row, col) <==> scanned(
            r,
            c,
            row - 1,
            col,
        ) || (r == row - 1 && c == col)) by {}
        if is_open(s, row - 1, col) && (before is None || s.options[row - 1][col].len() < candidates(
            s.options,
            before.unwrap(),
        ).len()) {
            let best = Some(here);
            assert(chosen_among(s, side, best, row, col)) by {
                assert forall|r: int, c: int|
                    0 <= r < side && 0 <= c < side && scanned(r, c, row, col) && #[trigger] is_open(s, r, c) implies {
                    ||| candidates(s.options, here).len() < s.options[r][c].len()
                    ||| (candidates(s.options, here).len() == s.options[r][c].len() && !scanned(
                        r,
                        c,
                        here.row() - 1,
                        here.col() - 1,
                    ))
                } by {
                    if r == row - 1 && c == col {
                    } else {
                        assert(scanned(r, c, row - 1, col));
                        assert(before is Some);
                    }
                }
            }
            best
        } else {
            assert(chosen_among(s, side, before, row, col)) by {
                match before {
                    None => {
                        assert(!is_open(s, row - 1, col));
                    },
                    Some(p) => {
                        assert forall|r: int, c: int|
                            0 <= r < side && 0 <= c < side && scanned(r, c, row, col) && #[trigger] is_open(
                                s,
                                r,
                                c,
                            ) implies {
                            ||| candidates(s.options, p).len() < s.options[r][c].len()
                            ||| (candidates(s.options, p).len() == s.options[r][c].len() && !scanned(
                                r,
                                c,
                                p.row() - 1,
                                p.col() - 1,
                            ))
                        } by {
                            if r == row - 1 && c == col {
                            } else {
                                assert(scanned(r, c, row - 1, col));
                            }
                        }
                    },
                }
            }
            before
        }
    }
}

/// The cell that the search fills next is the choice of the scan of the
/// whole grid.
pub proof fn lemma_next_is_chosen(s: Search, side: int)
    requires
        0 <= side <= crate::board::N,
    ensures
        is_next(s, side, next_choice(s, side)),
{
    let best = lemma_scan_chooses(s, side, 0, side);
    assert(is_next(s, side, best));
}

/// Growing is passed on: what grows out of a state that grew out of
/// another has grown out of that one.
pub proof fn lemma_grows_on(a: Search, b: Search, c: Search, side: int)
    requires
        grows(a, b, side),
        grows(b, c, side),
    ensures
        grows(a, c, side),
{
    assert forall|r: int, k: int, x: usize|
        0 <= r < side && 0 <= k < side && a.options[r][k].contains(x) implies #[trigger] c.options[r][k].contains(x) by {
        assert(b.options[r][k].contains(x));
    }
}

/// A solution that agrees with a state agrees with every state that has
/// grown out of it.
pub proof fn lemma_agrees_on(a: Search, b: Search, full: Seq<Seq<usize>>, side: int)
    requires
        grows(a, b, side),
        agrees(a, full, side),
    ensures
        agrees(b, full, side),
{
    assert forall|r: int, c: int| 0 <= r < side && 0 <= c < side implies (#[trigger] b.options[r][c]).contains(
        full[r][c],
    ) by {
        assert(a.options[r][c].contains(full[r][c]));
    }
}

/// A value that was placed on an empty cell and is taken back after a
/// search that failed leaves a state that has grown out of the one before
/// the placement.
pub proof fn lemma_taken_back(rules: Seq<RuleModel>, side: int, s: Search, pos: Position, v: usize, deeper: Search)
    requires
        well_formed(s, side),
        pos.on_grid(side),
        cell_at(s.cells, pos) == 0,
        can_place(rules, side, s, pos, v),
        well_formed(deeper, side),
        grows(place_result(rules, side, s, pos, v), deeper, side),
    ensures
        grows(s, unplace_result(rules, side, deeper, pos), side),
        well_formed(unplace_result(rules, side, deeper, pos), side),
{
    let t = place_result(rules, side, s, pos, v);
    let u = unplace_result(rules, side, deeper, pos);
    let pr = pos.row() - 1;
    let pc = pos.col() - 1;
    lemma_unplace_well_formed(rules, side, deeper, pos);
    assert(s.cells[pr].len() == side);
    let j = choose|j: int| 0 <= j < candidates(s.options, pos).len() && candidates(s.options, pos)[j] == v;
    assert(s.options[pr][pc][j] != 0);
    assert(cell_at(deeper.cells, pos) == v);
    assert(u.cells =~= s.cells) by {
        assert(u.cells[pr] =~= s.cells[pr]);
    }
    assert forall|r: int, c: int, x: usize|
        0 <= r < side && 0 <= c < side && s.options[r][c].contains(x) implies #[trigger] u.options[r][c].contains(x) by {
        lemma_filter_members(s.options[r][c], v, x);
        assert(u.cells[r][c] == s.cells[r][c]);
        if !at_cell(pos, r, c) {
            assert(t.cells[r][c] == s.cells[r][c]);
        }
        if reaches(rules, side, t.cells, pos, r, c) {
            assert(reaches(rules, side, u.cells, pos, r, c));
            if x == v {
                if !deeper.options[r][c].contains(v) {
                    assert(deeper.options[r][c].push(v).last() == v);
                }
            } else {
                assert(t.options[r][c].contains(x));
                assert(deeper.options[r][c].contains(x));
                lemma_push_keeps(deeper.options[r][c], v, x);
            }
        } else {
            assert(t.options[r][c] == s.options[r][c]);
            assert(deeper.options[r][c].contains(x));
            lemma_push_keeps(deeper.options[r][c], v, x);
        }
    }
}

/// A list keeps its members when a value is pushed to it.
pub proof fn lemma_push_keeps(list: Seq<usize>, v: usize, x: usize)
    requires
        list.contains(x),
    ensures
        list.push(v).contains(x),
{
    let i = choose|i: int| 0 <= i < list.len() && list[i] == x;
    assert(list.push(v)[i] == x);
}

/// What holds of the outcome `o` of a search or a trial from the state
/// `s` with the solution `kept` on record. The outcome is a state of the
/// same shape. A solution that was found is on record. Where none was
/// found the board is as it was, no candidate is lost, and the record is
/// as it was.
pub open spec fn sound_outcome(o: Outcome, s: Search, kept: Option<Seq<Seq<usize>>>, side: int) -> bool {
    &&& well_formed(o.state, side)
    &&& o.found ==> o.kept is Some
    &&& !o.found ==> grows(s, o.state, side) && o.kept == kept
}

/// The search leaves a sound outcome, and finds a solution whenever the
/// solution `full` agrees with the state it starts from.
#[verifier::rlimit(50)]
pub proof fn lemma_search(rules: Seq<RuleModel>, side: int, s: Search, kept: Option<Seq<Seq<usize>>>, full: Seq<Seq<usize>>)
    requires
        0 <= side <= crate::board::N,
        well_formed(s, side),
        rules_on_grid(rules, side),
    ensures
        sound_outcome(search(rules, side, s, kept), s, kept, side),
        is_solution(full, rules, side) && agrees(s, full, side) ==> search(rules, side, s, kept).found,
    decreases empties(s.cells, side), 1int, 0int,
{
    lemma_next_is_chosen(s, side);
    lemma_count_filled_bound(s.cells, side);
    let next = next_choice(s, side);
    match next {
        None => {
            if is_solution(full, rules, side) && agrees(s, full, side) {
                assert forall|r: int, c: int| 0 <= r < s.cells.len() && 0 <= c < s.cells[r].len() implies #[trigger] s.cells[r][c]
                    != 0 by {
                    if s.cells[r][c] == 0 {
                        assert(s.options[r][c].contains(full[r][c]));
                        assert(is_open(s, r, c));
                        assert(scanned(r, c, 0, side));
                    }
                }
                assert(s.cells =~= full) by {
                    assert forall|r: int| 0 <= r < side implies #[trigger] s.cells[r] =~= full[r] by {
                        assert forall|c: int| 0 <= c < side implies s.cells[r][c] == full[r][c] by {
                            assert(s.cells[r][c] != 0);
                        }
                    }
                }
                assert(overall(rules, s.cells, side) == Verdict::Satisfied);
            }
        },
        Some(pos) => {
            assert(is_open(s, pos.row() - 1, pos.col() - 1));
            lemma_try(rules, side, s, kept, pos, candidates(s.options, pos), 0, empties(s.cells, side), full);
            if is_solution(full, rules, side) && agrees(s, full, side) {
                let values = candidates(s.options, pos);
                assert(values.contains(cell_at(full, pos)));
                let j = choose|j: int| 0 <= j < values.len() && values[j] == cell_at(full, pos);
                assert(0 <= j < values.len() && values[j] == cell_at(full, pos));
            }
        },
    }
}

/// The trial of the values from number `i` on leaves a sound outcome, and
/// finds a solution whenever the solution `full` agrees with the state and
/// its value for the cell is among those values.
#[verifier::rlimit(50)]
pub proof fn lemma_try(
    rules: Seq<RuleModel>,
    side: int,
    s: Search,
    kept: Option<Seq<Seq<usize>>>,
    pos: Position,
    values: Seq<usize>,
    i: int,
    bound: int,
    full: Seq<Seq<usize>>,
)
    requires
        0 <= side <= crate::board::N,
        well_formed(s, side),
        rules_on_grid(rules, side),
        pos.on_grid(side),
        cell_at(s.cells, pos) == 0,
        bound == empties(s.cells, side),
        0 <= i <= values.len(),
    ensures
        sound_outcome(try_values(rules, side, s, kept, pos, values, i, bound), s, kept, side),
        is_solution(full, rules, side) && agrees(s, full, side) && (exists|j: int|
            i <= j < values.len() && #[trigger] values[j] == cell_at(full, pos)) ==> try_values(
            rules,
            side,
            s,
            kept,
            pos,
            values,
            i,
            bound,
        ).found,
    decreases bound, 0int, values.len() - i,
{
    let hoped = is_solution(full, rules, side) && agrees(s, full, side) && (exists|j: int|
        i <= j < values.len() && #[trigger] values[j] == cell_at(full, pos));
    if i >= values.len() {
        assert(grows(s, s, side));
    } else {
        let v = values[i];
        let t = place_result(rules, side, s, pos, v);
        lemma_place_well_formed(rules, side, s, pos, v);
        assert(s.cells[pos.row() - 1].len() == side);
        if can_place(rules, side, s, pos, v) {
            let k = choose|k: int| 0 <= k < candidates(s.options, pos).len() && candidates(s.options, pos)[k] == v;
            assert(s.options[pos.row() - 1][pos.col() - 1][k] != 0);
            lemma_with_cell_count(s.cells, pos, v);
            lemma_count_filled_bound(t.cells, side);
            assert(0 <= empties(t.cells, side) < bound);
            lemma_search(rules, side, t, kept, full);
            let deeper = search(rules, side, t, kept);
            if !deeper.found {
                lemma_taken_back(rules, side, s, pos, v, deeper.state);
                let u = unplace_result(rules, side, deeper.state, pos);
                lemma_try(rules, side, u, deeper.kept, pos, values, i + 1, bound, full);
                let rest = try_values(rules, side, u, deeper.kept, pos, values, i + 1, bound);
                if !rest.found {
                    lemma_grows_on(s, u, rest.state, side);
                }
                if hoped {
                    lemma_agrees_on(s, u, full, side);
                    if v == cell_at(full, pos) {
                        lemma_place_agreed(rules, side, s, pos, full);
                        assert(deeper.found);
                    }
                    let j = choose|j: int| i <= j < values.len() && #[trigger] values[j] == cell_at(full, pos);
                    assert(i + 1 <= j < values.len() && values[j] == cell_at(full, pos));
                }
            }
        } else {
            assert(t == s);
            let u = unplace_result(rules, side, t, pos);
            assert(u == s);
            lemma_try(rules, side, s, kept, pos, values, i + 1, bound, full);
            if hoped {
                if v == cell_at(full, pos) {
                    lemma_place_agreed(rules, side, s, pos, full);
                }
                let j = choose|j: int| i <= j < values.len() && #[trigger] values[j] == cell_at(full, pos);
                assert(i + 1 <= j < values.len() && values[j] == cell_at(full, pos));
            }
        }
    }
}

/// The replay of the filled cells of a board succeeds and keeps the
/// board, while a solution agrees with the state: each cell is replayed
/// with the value that the solution has for it.
pub proof fn lemma_replay(rules: Seq<RuleModel>, side: int, s: Search, upto: int, full: Seq<Seq<usize>>)
    requires
        0 <= side <= crate::board::N,
        well_formed(s, side),
        rules_on_grid(rules, side),
        is_solution(full, rules, side),
        agrees(s, full, side),
        0 <= upto <= side * side,
    ensures
        replayed(rules, side, s, upto).1,
        well_formed(replayed(rules, side, s, upto).0, side),
        agrees(replayed(rules, side, s, upto).0, full, side),
        replayed(rules, side, s, upto).0.cells == s.cells,
    decreases upto,
{
    broadcast use Position::lemma_spec_at;

    if upto > 0 {
        lemma_replay(rules, side, s, upto - 1, full);
        let t = replayed(rules, side, s, upto - 1).0;
        let i = upto - 1;
        let p = scan_position(side, i);
        assert(side > 0) by (nonlinear_arith)
            requires
                0 < upto <= side * side,
                side >= 0,
        ;
        vstd::arithmetic::div_mod::lemma_fundamental_div_mod(i, side);
        assert(0 <= i / side < side) by (nonlinear_arith)
            requires
                0 <= i < side * side,
                side > 0,
        ;
        assert(0 <= i % side < side);
        assert(p.row() == i % side + 1 && p.col() == i / side + 1);
        assert(p.on_grid(side));
        let v = cell_at(t.cells, p);
        assert(t.cells[p.row() - 1].len() == side);
        if v != 0 {
            assert(full[p.row() - 1][p.col() - 1] == t.cells[p.row() - 1][p.col() - 1]);
            lemma_place_agreed(rules, side, t, p, full);
            lemma_place_well_formed(rules, side, t, p, v);
            assert(with_cell(t.cells, p, v) =~= t.cells) by {
                assert(with_cell(t.cells, p, v)[p.row() - 1] =~= t.cells[p.row() - 1]);
            }
        }
    }
}

/// The relation rules leave candidate lists of the shape of the grid,
/// without a 0, when they tighten such lists.
pub proof fn lemma_tightened_shape(options: Seq<Seq<Seq<usize>>>, rules: Seq<RuleModel>, upto: int, side: int)
    requires
        options_ok(options, side),
        rules_on_grid(rules, side),
        0 <= upto <= rules.len(),
    ensures
        options_ok(tightened(options, rules, upto), side),
    decreases upto,
{
    if upto > 0 {
        lemma_tightened_shape(options, rules, upto - 1, side);
        let before = tightened(options, rules, upto - 1);
        let rule = rules[upto - 1];
        assert(all_on_grid(rule.positions(), side));
        if rule is Relation && rule.positions().len() == 2 {
            let first = rule.positions()[0];
            let second = rule.positions()[1];
            assert(first.on_grid(side) && second.on_grid(side));
            let struck = set_list(before, first, without_last(candidates(before, first)));
            assert(before[first.row() - 1].len() == side);
            assert(options_ok(struck, side)) by {
                assert forall|r: int, c: int, i: int|
                    0 <= r < side && 0 <= c < side && 0 <= i < struck[r][c].len() implies #[trigger] struck[r][c][i]
                    != 0 by {
                    assert(before[r][c][i] != 0);
                }
            }
            let done = set_list(struck, second, without_first(candidates(struck, second)));
            assert(struck[second.row() - 1].len() == side);
            assert(options_ok(done, side)) by {
                assert forall|r: int, c: int, i: int|
                    0 <= r < side && 0 <= c < side && 0 <= i < done[r][c].len() implies #[trigger] done[r][c][i]
                    != 0 by {
                    if at_cell(second, r, c) && struck[r][c].len() > 0 {
                        assert(done[r][c][i] == struck[r][c][i + 1]);
                    } else {
                        assert(done[r][c][i] == struck[r][c][i]);
                    }
                }
            }
        }
    }
}

/// Whether the value that `full` has for each cell is among the
/// candidates that the cell starts with: `1..=side`, less what the relation
/// rules strike.
pub open spec fn starts_among(rules: Seq<RuleModel>, side: int, full: Seq<Seq<usize>>) -> bool {
    forall|r: int, c: int|
        0 <= r < side && 0 <= c < side ==> (#[trigger] tightened(fresh_options(side), rules, rules.len() as int)[r][c]).contains(
            full[r][c],
        )
}

/// Whether the board can be completed to a solution whose values are
/// among the candidates that the cells start with.
pub open spec fn solvable(rules: Seq<RuleModel>, side: int, cells: Seq<Seq<usize>>) -> bool {
    exists|full: Seq<Seq<usize>>| #[trigger]
        is_solution(full, rules, side) && extends(full, cells, side) && starts_among(rules, side, full)
}

/// A solver that is made for a board is valid and agrees with every
/// solution that completes the board from among the candidates that the
/// cells start with.
pub proof fn lemma_fresh_solver_agrees(rules: Seq<RuleModel>, side: int, cells: Seq<Seq<usize>>, full: Seq<Seq<usize>>)
    requires
        0 <= side <= crate::board::N,
        is_grid(cells, side),
        rules_on_grid(rules, side),
        is_solution(full, rules, side),
        extends(full, cells, side),
        starts_among(rules, side, full),
    ensures
        initial(rules, side, cells).1,
        well_formed(initial(rules, side, cells).0, side),
        agrees(initial(rules, side, cells).0, full, side),
{
    let fresh = fresh_options(side);
    assert(options_ok(fresh, side));
    lemma_tightened_shape(fresh, rules, rules.len() as int, side);
    let start = Search { cells, options: tightened(fresh, rules, rules.len() as int) };
    assert(agrees(start, full, side));
    lemma_replay(rules, side, start, side * side, full);
}

/// The search finds what there is to find. Where a solution of the rules
/// holds what the board holds, and its value for each cell is among the
/// candidates that the cell starts with, a solver made for the board
/// keeps a solution after it has solved with candidates tried in the order
/// of their lists.
pub proof fn lemma_solution_is_found(rules: Seq<RuleModel>, side: int, cells: Seq<Seq<usize>>, full: Seq<Seq<usize>>)
    requires
        0 <= side <= crate::board::N,
        is_grid(cells, side),
        rules_on_grid(rules, side),
        is_solution(full, rules, side),
        extends(full, cells, side),
        starts_among(rules, side, full),
    ensures
        solution_of(rules, side, cells) is Some,
{
    lemma_fresh_solver_agrees(rules, side, cells, full);
    lemma_search(rules, side, initial(rules, side, cells).0, None, full);
}

/// Whether some relation rule names two cells, and so tightens the
/// candidates that a solver starts with.
pub open spec fn tightens(rules: Seq<RuleModel>) -> bool {
    exists|k: int| 0 <= k < rules.len() && (#[trigger] rules[k]) is Relation && rules[k].positions().len() == 2
}

/// Whether every cell of the grid lies in a permutation rule that takes
/// part in propagation.
pub open spec fn covered(rules: Seq<RuleModel>, side: int) -> bool {
    forall|r: int, c: int| 0 <= r < side && 0 <= c < side ==> #[trigger] has_rule(rules, side, r, c)
}

/// Whether some rule is registered at the cell in row `r` and column `c`.
pub open spec fn has_rule(rules: Seq<RuleModel>, side: int, r: int, c: int) -> bool {
    exists|k: int| #[trigger] registered(rules, side, k, r, c)
}

/// Rules of which none tightens leave the candidates as they are.
pub proof fn lemma_not_tightened(options: Seq<Seq<Seq<usize>>>, rules: Seq<RuleModel>, upto: int)
    requires
        !tightens(rules),
        0 <= upto <= rules.len(),
    ensures
        tightened(options, rules, upto) == options,
    decreases upto,
{
    if upto > 0 {
        lemma_not_tightened(options, rules, upto - 1);
        let rule = rules[upto - 1];
        assert(!(rule is Relation && rule.positions().len() == 2));
    }
}

/// Under rules that cover the grid, a solution holds a value of
/// `1..=side` in every cell: a candidate that the cell starts with.
pub proof fn lemma_solution_within(rules: Seq<RuleModel>, side: int, full: Seq<Seq<usize>>, r: int, c: int)
    requires
        0 <= side <= crate::board::N,
        rules_on_grid(rules, side),
        covered(rules, side),
        is_solution(full, rules, side),
        0 <= r < side,
        0 <= c < side,
    ensures
        1 <= full[r][c] <= side,
        fresh_options(side)[r][c].contains(full[r][c]),
{
    assert(has_rule(rules, side, r, c));
    let k = choose|k: int| #[trigger] registered(rules, side, k, r, c);
    let rule = rules[k];
    let positions = rule.positions();
    assert(all_on_grid(positions, side));
    assert(rule.verdict(full, side) == Verdict::Satisfied);
    let wanted = values_at(full, positions);
    let i = choose|i: int| 0 <= i < positions.len() && at_cell(#[trigger] positions[i], r, c);
    assert(wanted[i] == full[r][c]);
    assert forall|j: int| 0 <= j < wanted.len() implies #[trigger] wanted[j] != 0 by {
        let p = positions[j];
        assert(p.on_grid(side));
        assert(full[p.row() - 1][p.col() - 1] != 0);
    }
    assert(!has_empty(wanted));
    assert(!repeats_value(wanted));
    assert(covers(wanted, side));
    crate::rules::lemma_covers_within(wanted, side);
    assert(wanted[i] <= side);
    let list = fresh_options(side)[r][c];
    assert(list[full[r][c] - 1] == full[r][c]);
}

/// Under rules that cover the grid and do not tighten, the values of a
/// solution are among the candidates that the cells start with.
pub proof fn lemma_plain_starts_among(rules: Seq<RuleModel>, side: int, full: Seq<Seq<usize>>)
    requires
        0 <= side <= crate::board::N,
        rules_on_grid(rules, side),
        covered(rules, side),
        !tightens(rules),
        is_solution(full, rules, side),
    ensures
        starts_among(rules, side, full),
{
    lemma_not_tightened(fresh_options(side), rules, rules.len() as int);
    assert forall|r: int, c: int| 0 <= r < side && 0 <= c < side implies (#[trigger] tightened(
        fresh_options(side),
        rules,
        rules.len() as int,
    )[r][c]).contains(full[r][c]) by {
        lemma_solution_within(rules, side, full, r, c);
    }
}

/// Under rules that cover the grid and do not tighten, the search finds a
/// solution for every board that has one.
pub proof fn lemma_solvable_is_solved(rules: Seq<RuleModel>, side: int, cells: Seq<Seq<usize>>, full: Seq<Seq<usize>>)
    requires
        0 <= side <= crate::board::N,
        is_grid(cells, side),
        rules_on_grid(rules, side),
        covered(rules, side),
        !tightens(rules),
        is_solution(full, rules, side),
        extends(full, cells, side),
    ensures
        solution_of(rules, side, cells) is Some,
{
    lemma_plain_starts_among(rules, side, full);
    lemma_solution_is_found(rules, side, cells, full);
}

/// With no cell to fill next, a state that a solution agrees with holds
/// that solution: the board is full and every rule is met.
pub proof fn lemma_leaf(rules: Seq<RuleModel>, side: int, s: Search, full: Seq<Seq<usize>>)
    requires
        well_formed(s, side),
        is_next(s, side, None),
        is_solution(full, rules, side),
        agrees(s, full, side),
    ensures
        all_filled(s.cells),
        overall(rules, s.cells, side) == Verdict::Satisfied,
{
    assert forall|r: int, c: int| 0 <= r < s.cells.len() && 0 <= c < s.cells[r].len() implies #[trigger] s.cells[r][c]
        != 0 by {
        if s.cells[r][c] == 0 {
            assert(s.options[r][c].contains(full[r][c]));
            assert(is_open(s, r, c));
            assert(scanned(r, c, 0, side));
        }
    }
    assert(s.cells =~= full) by {
        assert forall|r: int| 0 <= r < side implies #[trigger] s.cells[r] =~= full[r] by {
            assert forall|c: int| 0 <= c < side implies s.cells[r][c] == full[r][c] by {
                assert(s.cells[r][c] != 0);
            }
        }
    }
}

/// The structural rules of a grid that positions can address cover the
/// grid and do not tighten.
pub proof fn lemma_structural_rules_plain(rules: Seq<RuleModel>, side: int, block_rows: int, block_cols: int)
    requires
        0 <= side <= crate::board::N,
        rules.len() >= 2 * side,
        forall|k: int| 0 <= k < rules.len() ==> crate::game::is_structural_rule(
            #[trigger] rules[k],
            k,
            side,
            block_rows,
            block_cols,
        ),
    ensures
        covered(rules, side),
        !tightens(rules),
{
    assert forall|r: int, c: int| 0 <= r < side && 0 <= c < side implies #[trigger] has_rule(rules, side, r, c) by {
        let rule = rules[r];
        assert(crate::game::is_structural_rule(rule, r, side, block_rows, block_cols));
        let positions = rule.positions();
        assert(crate::game::span(r + 1, r + 1) == 1);
        assert(crate::game::span(1, side) == side);
        assert(positions.len() == side) by (nonlinear_arith)
            requires
                positions.len() == 1 * side,
        ;
        assert(c / side == 0 && c % side == c) by {
            vstd::arithmetic::div_mod::lemma_fundamental_div_mod_converse(c, side, 0, c);
        }
        assert(at_cell(positions[c], r, c));
        assert(lists_cell(rule, r, c));
        assert(registered(rules, side, r, r, c));
    }
    if tightens(rules) {
        let k = choose|k: int| 0 <= k < rules.len() && (#[trigger] rules[k]) is Relation && rules[k].positions().len() == 2;
        assert(crate::game::is_structural_rule(rules[k], k, side, block_rows, block_cols));
    }
}

} // verus!
