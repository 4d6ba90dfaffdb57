//! The model of the search: its state, what a placement and its undoing
//! do to it, how a solver starts, which cell is filled next, and what the
//! search finds when candidates are tried in the order of their lists.

use crate::board::{all_filled, cell_at, count_filled, is_grid, with_cell, Position};
use crate::game::all_satisfied;
use crate::rules::{RuleModel, Verdict};
use vstd::prelude::*;

verus! {

/// What the search works on: the cells of the board and, for each cell, the
/// list of values that may still be placed there.
pub struct Search {
    pub cells: Seq<Seq<usize>>,
    pub options: Seq<Seq<Seq<usize>>>,
}

/// Whether the candidate lists have the shape of a grid of the given side,
/// and no candidate is 0.
pub open spec fn options_ok(options: Seq<Seq<Seq<usize>>>, side: int) -> bool {
    &&& options.len() == side
    &&& forall|r: int| 0 <= r < side ==> (#[trigger] options[r]).len() == side
    &&& forall|r: int, c: int, i: int|
        0 <= r < side && 0 <= c < side && 0 <= i < options[r][c].len() ==> #[trigger] options[r][c][i] != 0
}

/// Whether the parts of a search state have the shape of a grid of the
/// given side, and no candidate is 0.
pub open spec fn well_formed(s: Search, side: int) -> bool {
    is_grid(s.cells, side) && options_ok(s.options, side)
}

/// Whether `p` is the position of the cell in row `r` and column `c`,
/// both counted from 0.
pub open spec fn at_cell(p: Position, r: int, c: int) -> bool {
    p.row() - 1 == r && p.col() - 1 == c
}

/// The candidates of the cell at `pos`.
pub open spec fn candidates(options: Seq<Seq<Seq<usize>>>, pos: Position) -> Seq<usize> {
    options[pos.row() - 1][pos.col() - 1]
}

/// Whether the rule takes part in propagation: a permutation rule that
/// spans as many cells as the grid has rows.
pub open spec fn is_live(rule: RuleModel, side: int) -> bool {
    rule is Permutation && rule.positions().len() == side
}

/// Whether the rule lists the cell in row `r` and column `c`.
pub open spec fn lists_cell(rule: RuleModel, r: int, c: int) -> bool {
    exists|i: int| 0 <= i < rule.positions().len() && at_cell(#[trigger] rule.positions()[i], r, c)
}

/// Whether rule `k` is registered at the cell in row `r` and column `c`: it
/// takes part in propagation and lists the cell.
pub open spec fn registered(rules: Seq<RuleModel>, side: int, k: int, r: int, c: int) -> bool {
    0 <= k < rules.len() && is_live(rules[k], side) && lists_cell(rules[k], r, c)
}

/// Whether the cell in row `r` and column `c` is another cell than `pos`
/// that shares a registered rule with it.
pub open spec fn is_peer(rules: Seq<RuleModel>, side: int, pos: Position, r: int, c: int) -> bool {
    &&& !at_cell(pos, r, c)
    &&& exists|k: int| #[trigger]
        registered(rules, side, k, pos.row() - 1, pos.col() - 1) && registered(rules, side, k, r, c)
}

/// Whether a placement at `pos` reaches the candidates of the cell in row
/// `r` and column `c`: an empty peer of `pos` on the grid `cells`.
pub open spec fn reaches(rules: Seq<RuleModel>, side: int, cells: Seq<Seq<usize>>, pos: Position, r: int, c: int) -> bool {
    is_peer(rules, side, pos, r, c) && cells[r][c] == 0
}

/// Whether some rule registered at `pos` is broken on the grid.
pub open spec fn breaks_rule(rules: Seq<RuleModel>, side: int, cells: Seq<Seq<usize>>, pos: Position) -> bool {
    exists|k: int| #[trigger]
        registered(rules, side, k, pos.row() - 1, pos.col() - 1) && rules[k].verdict(cells, side)
            == Verdict::Critical
}

/// The test that a value is not `v`.
pub open spec fn other_value(v: usize) -> spec_fn(usize) -> bool {
    |x: usize| x != v
}

/// The candidate lists after `v` was placed at `pos`: `v` is gone from the
/// lists of the empty peers of `pos`, and every other list is as it was.
/// `cells` is the grid with `v` written.
pub open spec fn pruned(
    rules: Seq<RuleModel>,
    side: int,
    cells: Seq<Seq<usize>>,
    options: Seq<Seq<Seq<usize>>>,
    pos: Position,
    v: usize,
) -> Seq<Seq<Seq<usize>>> {
    Seq::new(
        side as nat,
        |r: int|
            Seq::new(
                side as nat,
                |c: int|
                    if reaches(rules, side, cells, pos, r, c) {
                        options[r][c].filter(other_value(v))
                    } else {
                        options[r][c]
                    },
            ),
    )
}

/// Whether `v` can be placed at `pos`: it is a candidate there, no rule
/// registered at `pos` is broken once it is written, and no empty peer is
/// left without a candidate.
pub open spec fn can_place(rules: Seq<RuleModel>, side: int, s: Search, pos: Position, v: usize) -> bool {
    let cells = with_cell(s.cells, pos, v);
    &&& candidates(s.options, pos).contains(v)
    &&& !breaks_rule(rules, side, cells, pos)
    &&& forall|r: int, c: int|
        0 <= r < side && 0 <= c < side && #[trigger] reaches(rules, side, cells, pos, r, c)
            ==> s.options[r][c].filter(other_value(v)).len() > 0
}

/// The state after an attempt to place `v` at `pos`: the value written and
/// the candidates pruned where the placement can be made, and the state as
/// it was where not.
pub open spec fn place_result(rules: Seq<RuleModel>, side: int, s: Search, pos: Position, v: usize) -> Search {
    if can_place(rules, side, s, pos, v) {
        let cells = with_cell(s.cells, pos, v);
        Search { cells, options: pruned(rules, side, cells, s.options, pos, v) }
    } else {
        s
    }
}

/// The candidate lists after the value `v` was taken back from `pos`: `v`
/// is appended to the list of every empty peer of `pos` that lacks it.
/// `cells` is the grid with the cell emptied.
pub open spec fn restored(
    rules: Seq<RuleModel>,
    side: int,
    cells: Seq<Seq<usize>>,
    options: Seq<Seq<Seq<usize>>>,
    pos: Position,
    v: usize,
) -> Seq<Seq<Seq<usize>>> {
    Seq::new(
        side as nat,
        |r: int|
            Seq::new(
                side as nat,
                |c: int|
                    if reaches(rules, side, cells, pos, r, c) && !options[r][c].contains(v) {
                        options[r][c].push(v)
                    } else {
                        options[r][c]
                    },
            ),
    )
}

/// The state after the value at `pos` was taken back: the cell emptied and
/// its value restored as a candidate of its empty peers. An empty cell
/// leaves the state as it was.
pub open spec fn unplace_result(rules: Seq<RuleModel>, side: int, s: Search, pos: Position) -> Search {
    let v = cell_at(s.cells, pos);
    if v == 0 {
        s
    } else {
        let cells = with_cell(s.cells, pos, 0);
        Search { cells, options: restored(rules, side, cells, s.options, pos, v) }
    }
}

/// What is left of a list once a value is filtered out of it: the members
/// of the list other than the value.
pub proof fn lemma_filter_members(list: Seq<usize>, v: usize, x: usize)
    ensures
        list.filter(other_value(v)).contains(x) <==> list.contains(x) && x != v,
{
    let kept = list.filter(other_value(v));
    broadcast use vstd::seq_lib::group_filter_ensures;
    if kept.contains(x) {
        let i = choose|i: int| 0 <= i < kept.len() && kept[i] == x;
        assert(other_value(v)(kept[i]));
        list.lemma_filter_contains_rev(other_value(v), x);
    }
    if list.contains(x) && x != v {
        let i = choose|i: int| 0 <= i < list.len() && list[i] == x;
        assert(other_value(v)(list[i]));
    }
}

/// An attempt to place a value keeps the shape of the state.
pub proof fn lemma_place_well_formed(rules: Seq<RuleModel>, side: int, s: Search, pos: Position, v: usize)
    requires
        well_formed(s, side),
        pos.on_grid(side),
    ensures
        well_formed(place_result(rules, side, s, pos, v), side),
{
    let t = place_result(rules, side, s, pos, v);
    if can_place(rules, side, s, pos, v) {
        assert(s.cells[pos.row() - 1].len() == side);
        assert forall|r: int, c: int, i: int|
            0 <= r < side && 0 <= c < side && 0 <= i < t.options[r][c].len() implies #[trigger] t.options[r][c][i]
            != 0 by {
            let x = t.options[r][c][i];
            assert(t.options[r][c].contains(x));
            lemma_filter_members(s.options[r][c], v, x);
            assert(s.options[r][c].contains(x));
            let j = choose|j: int| 0 <= j < s.options[r][c].len() && s.options[r][c][j] == x;
            assert(s.options[r][c][j] != 0);
        }
    }
}

/// Taking a value back keeps the shape of the state.
pub proof fn lemma_unplace_well_formed(rules: Seq<RuleModel>, side: int, s: Search, pos: Position)
    requires
        well_formed(s, side),
        pos.on_grid(side),
    ensures
        well_formed(unplace_result(rules, side, s, pos), side),
{
    let t = unplace_result(rules, side, s, pos);
    let v = cell_at(s.cells, pos);
    if v != 0 {
        assert(s.cells[pos.row() - 1].len() == side);
        assert forall|r: int, c: int, i: int|
            0 <= r < side && 0 <= c < side && 0 <= i < t.options[r][c].len() implies #[trigger] t.options[r][c][i]
            != 0 by {
            if i < s.options[r][c].len() {
                assert(s.options[r][c][i] != 0);
            }
        }
    }
}

/// Placing a value and taking it back leaves the cell empty. Where the cell
/// was empty before, the whole grid is as it was, and every cell keeps the
/// candidates it had, though it may have gained the value as one more.
pub proof fn lemma_place_then_unplace(rules: Seq<RuleModel>, side: int, s: Search, pos: Position, v: usize)
    requires
        well_formed(s, side),
        pos.on_grid(side),
    ensures
        ({
            let t = unplace_result(rules, side, place_result(rules, side, s, pos, v), pos);
            &&& well_formed(t, side)
            &&& cell_at(t.cells, pos) == 0
            &&& cell_at(s.cells, pos) == 0 ==> t.cells == s.cells
            &&& forall|r: int, c: int, x: usize|
                0 <= r < side && 0 <= c < side && s.options[r][c].contains(x) ==> #[trigger] t.options[r][c].contains(x)
            &&& cell_at(s.cells, pos) == 0 ==> forall|r: int, c: int, x: usize|
                0 <= r < side && 0 <= c < side && #[trigger] t.options[r][c].contains(x) ==> s.options[r][c].contains(x)
                    || x == v
        }),
{
    let p = place_result(rules, side, s, pos, v);
    let t = unplace_result(rules, side, p, pos);
    lemma_place_well_formed(rules, side, s, pos, v);
    lemma_unplace_well_formed(rules, side, p, pos);
    if can_place(rules, side, s, pos, v) {
        let written = with_cell(s.cells, pos, v);
        assert(candidates(s.options, pos).contains(v));
        assert(v != 0);
        let cleared = with_cell(written, pos, 0);
        assert(t.cells == cleared);
        if cell_at(s.cells, pos) == 0 {
            assert(cleared =~= s.cells) by {
                assert(cleared[pos.row() - 1] =~= s.cells[pos.row() - 1]);
            }
        }
        assert forall|r: int, c: int, x: usize|
            0 <= r < side && 0 <= c < side && s.options[r][c].contains(x) implies #[trigger] t.options[r][c].contains(
            x,
        ) by {
            lemma_filter_members(s.options[r][c], v, x);
            if reaches(rules, side, written, pos, r, c) {
                assert(cleared[r][c] == written[r][c]);
                let kept = s.options[r][c].filter(other_value(v));
                if x == v {
                    assert(!kept.contains(v));
                    assert(kept.push(v).last() == v);
                } else {
                    assert(kept.contains(x));
                    let i = choose|i: int| 0 <= i < kept.len() && kept[i] == x;
                    assert(kept.push(v)[i] == x);
                }
            }
        }
        assert forall|r: int, c: int, x: usize|
            0 <= r < side && 0 <= c < side && #[trigger] t.options[r][c].contains(x) implies s.options[r][c].contains(x)
            || x == v by {
            lemma_filter_members(s.options[r][c], v, x);
            let i = choose|i: int| 0 <= i < t.options[r][c].len() && t.options[r][c][i] == x;
            if p.options[r][c].contains(x) {
            } else {
                assert(t.options[r][c] == p.options[r][c].push(v));
                if i < p.options[r][c].len() {
                    assert(p.options[r][c][i] == x);
                }
            }
        }
    } else {
        assert forall|r: int, c: int, x: usize|
            0 <= r < side && 0 <= c < side && s.options[r][c].contains(x) implies #[trigger] t.options[r][c].contains(
            x,
        ) by {
            let i = choose|i: int| 0 <= i < s.options[r][c].len() && s.options[r][c][i] == x;
            if t.options[r][c] != s.options[r][c] {
                assert(t.options[r][c][i] == x);
            }
        }
    }
}

/// The candidate lists of a solver that has placed nothing yet: for every
/// cell the values `1..=side` in ascending order.
pub open spec fn fresh_options(side: int) -> Seq<Seq<Seq<usize>>> {
    Seq::new(side as nat, |r: int| Seq::new(side as nat, |c: int| Seq::new(side as nat, |i: int| (i + 1) as usize)))
}

/// The list without its last value, which is its largest while the list
/// is ascending.
pub open spec fn without_last(list: Seq<usize>) -> Seq<usize> {
    if list.len() > 0 {
        list.drop_last()
    } else {
        list
    }
}

/// The list without its first value, which is its smallest while the list
/// is ascending.
pub open spec fn without_first(list: Seq<usize>) -> Seq<usize> {
    if list.len() > 0 {
        list.drop_first()
    } else {
        list
    }
}

/// The candidate lists with the list of the cell at `pos` replaced.
pub open spec fn set_list(options: Seq<Seq<Seq<usize>>>, pos: Position, list: Seq<usize>) -> Seq<Seq<Seq<usize>>> {
    options.update(pos.row() - 1, options[pos.row() - 1].update(pos.col() - 1, list))
}

/// The candidate lists after one rule has tightened them. A relation rule
/// that names two cells strikes the last candidate of the first cell and
/// then the first candidate of the second; any other rule strikes nothing.
pub open spec fn tighten_one(options: Seq<Seq<Seq<usize>>>, rule: RuleModel) -> Seq<Seq<Seq<usize>>> {
    if rule is Relation && rule.positions().len() == 2 {
        let first = rule.positions()[0];
        let second = rule.positions()[1];
        let struck = set_list(options, first, without_last(candidates(options, first)));
        set_list(struck, second, without_first(candidates(struck, second)))
    } else {
        options
    }
}

/// The candidate lists after the first `upto` rules have tightened them,
/// one after the other.
pub open spec fn tightened(options: Seq<Seq<Seq<usize>>>, rules: Seq<RuleModel>, upto: int) -> Seq<Seq<Seq<usize>>>
    decreases upto,
{
    if upto <= 0 {
        options
    } else {
        tighten_one(tightened(options, rules, upto - 1), rules[upto - 1])
    }
}

/// The position that the scan of the starting board visits as number `i`:
/// it goes down the columns from the left.
pub open spec fn scan_position(side: int, i: int) -> Position {
    Position::spec_at((i % side + 1) as usize, (i / side + 1) as usize)
}

/// The state after the first `upto` cells of the scan were replayed, and
/// whether every filled one of them could be placed. A filled cell is
/// replayed by an attempt to place its own value.
pub open spec fn replayed(rules: Seq<RuleModel>, side: int, s: Search, upto: int) -> (Search, bool)
    decreases upto,
{
    if upto <= 0 {
        (s, true)
    } else {
        let (t, ok) = replayed(rules, side, s, upto - 1);
        let p = scan_position(side, upto - 1);
        let v = cell_at(t.cells, p);
        if v == 0 {
            (t, ok)
        } else {
            (place_result(rules, side, t, p, v), ok && can_place(rules, side, t, p, v))
        }
    }
}

/// The state of a solver that was just made for a board and its rules, and
/// whether the board could be placed: candidates `1..=side` for every cell,
/// tightened by the relation rules, then the filled cells replayed.
pub open spec fn initial(rules: Seq<RuleModel>, side: int, cells: Seq<Seq<usize>>) -> (Search, bool) {
    replayed(
        rules,
        side,
        Search { cells, options: tightened(fresh_options(side), rules, rules.len() as int) },
        side * side,
    )
}

/// Whether the search may fill the cell in row `r` and column `c`: it is
/// empty and has a candidate.
pub open spec fn is_open(s: Search, r: int, c: int) -> bool {
    s.cells[r][c] == 0 && s.options[r][c].len() > 0
}

/// Whether the scan, which goes down the columns from the left, has passed
/// the cell in row `r` and column `c` when it stands at row `row` of
/// column `col`.
pub open spec fn scanned(r: int, c: int, row: int, col: int) -> bool {
    c < col || (c == col && r < row)
}

/// Whether `best` is the choice among the cells that the scan has passed
/// when it stands at row `row` of column `col`: none where none of them
/// is open, else the first of those with the fewest candidates.
pub open spec fn chosen_among(s: Search, side: int, best: Option<Position>, row: int, col: int) -> bool {
    match best {
        None => forall|r: int, c: int|
            0 <= r < side && 0 <= c < side && scanned(r, c, row, col) ==> !#[trigger] is_open(s, r, c),
        Some(p) => {
            &&& p.on_grid(side)
            &&& scanned(p.row() - 1, p.col() - 1, row, col)
            &&& is_open(s, p.row() - 1, p.col() - 1)
            &&& forall|r: int, c: int|
                0 <= r < side && 0 <= c < side && scanned(r, c, row, col) && #[trigger] is_open(s, r, c) ==> {
                    ||| candidates(s.options, p).len() < s.options[r][c].len()
                    ||| (candidates(s.options, p).len() == s.options[r][c].len() && !scanned(
                        r,
                        c,
                        p.row() - 1,
                        p.col() - 1,
                    ))
                }
        },
    }
}

/// Whether `next` is the cell that the search fills next: the choice among
/// all the cells of the grid.
pub open spec fn is_next(s: Search, side: int, next: Option<Position>) -> bool {
    chosen_among(s, side, next, 0, side)
}

/// The cell that the search fills next.
pub open spec fn next_choice(s: Search, side: int) -> Option<Position> {
    choose|next: Option<Position>| is_next(s, side, next)
}

/// Only one cell is the one that the search fills next.
pub proof fn lemma_next_unique(s: Search, side: int, a: Option<Position>, b: Option<Position>)
    requires
        is_next(s, side, a),
        is_next(s, side, b),
    ensures
        a == b,
        a == next_choice(s, side),
{
    match (a, b) {
        (Some(p), Some(q)) => {
            assert(is_open(s, p.row() - 1, p.col() - 1));
            assert(is_open(s, q.row() - 1, q.col() - 1));
            Position::lemma_same_coordinates(p, q);
        },
        (Some(p), None) => {
            assert(is_open(s, p.row() - 1, p.col() - 1));
        },
        (None, Some(q)) => {
            assert(is_open(s, q.row() - 1, q.col() - 1));
        },
        (None, None) => {},
    }
    let c = next_choice(s, side);
    assert(is_next(s, side, c));
    match (a, c) {
        (Some(p), Some(q)) => {
            assert(is_open(s, p.row() - 1, p.col() - 1));
            assert(is_open(s, q.row() - 1, q.col() - 1));
            Position::lemma_same_coordinates(p, q);
        },
        (Some(p), None) => {
            assert(is_open(s, p.row() - 1, p.col() - 1));
        },
        (None, Some(q)) => {
            assert(is_open(s, q.row() - 1, q.col() - 1));
        },
        (None, None) => {},
    }
}

/// How many cells of a grid of the given side are empty.
pub open spec fn empties(cells: Seq<Seq<usize>>, side: int) -> int {
    side * side - count_filled(cells)
}

/// Whether the grid `cells` agrees with the grid `givens` wherever `givens`
/// is filled.
pub open spec fn extends(cells: Seq<Seq<usize>>, givens: Seq<Seq<usize>>, side: int) -> bool {
    forall|r: int, c: int| 0 <= r < side && 0 <= c < side && givens[r][c] != 0 ==> #[trigger] cells[r][c] == givens[r][c]
}

/// The verdict of the rules taken together on a grid: broken where one of
/// them is broken, else pending where one is pending, else met.
pub open spec fn overall(rules: Seq<RuleModel>, cells: Seq<Seq<usize>>, side: int) -> Verdict {
    if exists|k: int| 0 <= k < rules.len() && (#[trigger] rules[k]).verdict(cells, side) == Verdict::Critical {
        Verdict::Critical
    } else if exists|k: int| 0 <= k < rules.len() && (#[trigger] rules[k]).verdict(cells, side) == Verdict::Unfulfilled {
        Verdict::Unfulfilled
    } else {
        Verdict::Satisfied
    }
}

/// Whether `full` is a solution for the rules: a grid without an empty
/// cell on which every rule is met.
pub open spec fn is_solution(full: Seq<Seq<usize>>, rules: Seq<RuleModel>, side: int) -> bool {
    is_grid(full, side) && all_filled(full) && all_satisfied(rules, full, side)
}

/// How a search ends: whether it found a solution, the state it leaves,
/// and the solution that is kept.
pub struct Outcome {
    pub found: bool,
    pub state: Search,
    pub kept: Option<Seq<Seq<usize>>>,
}

/// The outcome of the search that tries the candidates of each cell in the
/// order of its list, from the state `s` with the solution `kept` on
/// record. With no cell to fill next, the search is over: it has found a
/// solution where the grid is full and every rule is met, and has failed
/// where not. Else the candidates of the next cell are tried in turn.
pub open spec fn search(rules: Seq<RuleModel>, side: int, s: Search, kept: Option<Seq<Seq<usize>>>) -> Outcome
    decreases empties(s.cells, side), 1int, 0int,
{
    match next_choice(s, side) {
        None => {
            if all_filled(s.cells) && overall(rules, s.cells, side) == Verdict::Satisfied {
                Outcome { found: true, state: s, kept: Some(s.cells) }
            } else {
                Outcome { found: false, state: s, kept }
            }
        },
        Some(pos) => try_values(rules, side, s, kept, pos, candidates(s.options, pos), 0, empties(s.cells, side)),
    }
}

/// The outcome of trying the values of `values` from number `i` on at
/// the cell `pos`. Each value is placed if it can be, and the search goes
/// on from there; where that finds nothing, or the value cannot be placed,
/// the value is taken back and the next one tried. With no value left the
/// trial has failed. `bound` is the number of empty cells when the trial
/// began: the search goes on only from a grid with fewer.
pub open spec fn try_values(
    rules: Seq<RuleModel>,
    side: int,
    s: Search,
    kept: Option<Seq<Seq<usize>>>,
    pos: Position,
    values: Seq<usize>,
    i: int,
    bound: int,
) -> Outcome
    decreases bound, 0int, values.len() - i,
{
    if i < 0 || i >= values.len() {
        Outcome { found: false, state: s, kept }
    } else {
        let t = place_result(rules, side, s, pos, values[i]);
        if can_place(rules, side, s, pos, values[i]) && 0 <= empties(t.cells, side) < bound {
            let deeper = search(rules, side, t, kept);
            if deeper.found {
                deeper
            } else {
                try_values(
                    rules,
                    side,
                    unplace_result(rules, side, deeper.state, pos),
                    deeper.kept,
                    pos,
                    values,
                    i + 1,
                    bound,
                )
            }
        } else {
            try_values(rules, side, unplace_result(rules, side, t, pos), kept, pos, values, i + 1, bound)
        }
    }
}

/// The solution that a solver keeps after it has solved from the state `s`
/// with candidates tried in the order of their lists: none where the
/// starting board could not be placed or the search fails.
pub open spec fn solved(rules: Seq<RuleModel>, side: int, s: Search, valid: bool, kept: Option<Seq<Seq<usize>>>) -> Option<Seq<Seq<usize>>> {
    if valid && search(rules, side, s, kept).found {
        search(rules, side, s, kept).kept
    } else {
        None
    }
}

/// The solution that a solver made for the given board and rules keeps
/// after it has solved with candidates tried in the order of their lists.
pub open spec fn solution_of(rules: Seq<RuleModel>, side: int, cells: Seq<Seq<usize>>) -> Option<Seq<Seq<usize>>> {
    solved(rules, side, initial(rules, side, cells).0, initial(rules, side, cells).1, None)
}

/// With candidates tried in the order of their lists, the solution is
/// decided by the board and the rules alone: two solvers made for the same
/// board under the same rules keep the same solution.
pub proof fn lemma_same_board_same_solution(
    rules_a: Seq<RuleModel>,
    rules_b: Seq<RuleModel>,
    side: int,
    cells_a: Seq<Seq<usize>>,
    cells_b: Seq<Seq<usize>>,
)
    requires
        rules_a == rules_b,
        cells_a == cells_b,
    ensures
        solution_of(rules_a, side, cells_a) == solution_of(rules_b, side, cells_b),
{
}

} // verus!
