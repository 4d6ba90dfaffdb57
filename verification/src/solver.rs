//! The solver: candidate lists for every cell, placement with propagation
//! along the permutation rules, and a backtracking search on top of them.

use crate::board::{all_filled, cell_at, count_filled, is_grid, with_cell, Board, Position, N};
use crate::carving::{carve, carve_count, grid_positions, grid_positions_spec, lemma_carved_count, lemma_carved_extends, lemma_grid_position};
use crate::complete::{
    agrees, covered, grows, lemma_agrees_on, lemma_grows_on, lemma_leaf, lemma_place_agreed, lemma_solvable_is_solved,
    lemma_fresh_solver_agrees, lemma_taken_back, solvable, starts_among, tightens,
};
use crate::game::{all_satisfied, models, rules_on_grid, Game};
use crate::random::{shuffle, thread_source};
use crate::rules::{all_on_grid, contains_value, Rule, RuleCheckResult, RuleModel, Verdict};
use crate::search::{
    solution_of,
    at_cell, breaks_rule, can_place, candidates, empties, extends, fresh_options, initial, is_live, is_next, is_peer,
    is_solution, lemma_next_unique, lemma_place_well_formed, lemma_unplace_well_formed, lists_cell, options_ok,
    other_value, overall, place_result, pruned, reaches, registered, replayed, restored, scan_position, search, set_list,
    solved, tighten_one, tightened, try_values, unplace_result, well_formed, without_first, without_last, chosen_among,
    Outcome, Search,
};
use rand::rngs::ThreadRng;
use vstd::prelude::*;

verus! {

/// The candidate lists of a grid of cells, as sequences.
pub open spec fn lists(options: Seq<Vec<Vec<usize>>>) -> Seq<Seq<Seq<usize>>> {
    Seq::new(options.len(), |r: int| Seq::new(options[r]@.len(), |c: int| options[r]@[c]@))
}

/// Whether the rule lists the cell in row `r` and column `c` among its
/// first `upto` positions.
pub open spec fn lists_cell_before(rule: RuleModel, upto: int, r: int, c: int) -> bool {
    exists|i: int| 0 <= i < upto && i < rule.positions().len() && at_cell(#[trigger] rule.positions()[i], r, c)
}

/// Whether a walk over the rules with the numbers `touching`, each rule
/// position by position, has come by the cell in row `r` and column `c`
/// when it stands before position `b` of rule `a` of the list.
pub open spec fn seen(rules: Seq<RuleModel>, touching: Seq<usize>, a: int, b: int, r: int, c: int) -> bool {
    ||| exists|x: int| 0 <= x < a && x < touching.len() && lists_cell(rules[#[trigger] touching[x] as int], r, c)
    ||| (0 <= a < touching.len() && lists_cell_before(rules[touching[a] as int], b, r, c))
}

/// One step of the walk comes by the cell of the position it steps over,
/// and by no other.
pub proof fn lemma_seen_step(rules: Seq<RuleModel>, touching: Seq<usize>, a: int, b: int, r: int, c: int)
    requires
        0 <= a < touching.len(),
        0 <= b < rules[touching[a] as int].positions().len(),
    ensures
        seen(rules, touching, a, b + 1, r, c) <==> seen(rules, touching, a, b, r, c) || at_cell(
            rules[touching[a] as int].positions()[b],
            r,
            c,
        ),
{
    let rule = rules[touching[a] as int];
    if lists_cell_before(rule, b + 1, r, c) {
        let i = choose|i: int| 0 <= i < b + 1 && i < rule.positions().len() && at_cell(#[trigger] rule.positions()[i], r, c);
        if i < b {
            assert(lists_cell_before(rule, b, r, c));
        }
    }
    if lists_cell_before(rule, b, r, c) {
        let i = choose|i: int| 0 <= i < b && i < rule.positions().len() && at_cell(#[trigger] rule.positions()[i], r, c);
        assert(lists_cell_before(rule, b + 1, r, c));
    }
    if at_cell(rule.positions()[b], r, c) {
        assert(lists_cell_before(rule, b + 1, r, c));
    }
}

/// The walk is through with a rule when it stands before the next one.
pub proof fn lemma_seen_next(rules: Seq<RuleModel>, touching: Seq<usize>, a: int, r: int, c: int)
    requires
        0 <= a < touching.len(),
    ensures
        seen(rules, touching, a + 1, 0, r, c) <==> seen(
            rules,
            touching,
            a,
            rules[touching[a] as int].positions().len() as int,
            r,
            c,
        ),
        !seen(rules, touching, 0, 0, r, c),
{
    let rule = rules[touching[a] as int];
    let len = rule.positions().len() as int;
    if seen(rules, touching, a + 1, 0, r, c) {
        let x = choose|x: int| 0 <= x < a + 1 && x < touching.len() && lists_cell(rules[#[trigger] touching[x] as int], r, c);
        if x == a {
            let i = choose|i: int| 0 <= i < rule.positions().len() && at_cell(#[trigger] rule.positions()[i], r, c);
            assert(lists_cell_before(rule, len, r, c));
        }
    }
    if lists_cell_before(rule, len, r, c) {
        let i = choose|i: int| 0 <= i < len && i < rule.positions().len() && at_cell(#[trigger] rule.positions()[i], r, c);
        assert(lists_cell(rules[touching[a] as int], r, c));
    }
}

/// Whether `touching` holds the numbers of the rules registered at the cell
/// in row `r` and column `c`, and no other number.
pub open spec fn holds_registered(touching: Seq<usize>, rules: Seq<RuleModel>, side: int, r: int, c: int) -> bool {
    forall|k: int| (exists|x: int| 0 <= x < touching.len() && #[trigger] touching[x] == k) <==> #[trigger] registered(rules, side, k, r, c)
}

/// A walk over all the rules registered at `pos` comes by the cells that
/// share a registered rule with `pos`.
pub proof fn lemma_seen_all(rules: Seq<RuleModel>, side: int, touching: Seq<usize>, pos: Position, r: int, c: int)
    requires
        holds_registered(touching, rules, side, pos.row() - 1, pos.col() - 1),
    ensures
        seen(rules, touching, touching.len() as int, 0, r, c) <==> exists|k: int| #[trigger]
            registered(rules, side, k, pos.row() - 1, pos.col() - 1) && registered(rules, side, k, r, c),
{
    let pr = pos.row() - 1;
    let pc = pos.col() - 1;
    if seen(rules, touching, touching.len() as int, 0, r, c) {
        let x = choose|x: int| 0 <= x < touching.len() && lists_cell(rules[#[trigger] touching[x] as int], r, c);
        let k = touching[x] as int;
        assert(registered(rules, side, k, pr, pc));
        assert(registered(rules, side, k, r, c));
    }
    if exists|k: int| #[trigger] registered(rules, side, k, pr, pc) && registered(rules, side, k, r, c) {
        let k = choose|k: int| #[trigger] registered(rules, side, k, pr, pc) && registered(rules, side, k, r, c);
        let x = choose|x: int| 0 <= x < touching.len() && #[trigger] touching[x] == k;
        assert(lists_cell(rules[touching[x] as int], r, c));
    }
}

/// The candidate lists while `v` is being pruned after a placement at
/// `pos`: pruned at the empty cells other than `pos` that the walk has come
/// by, and as they were elsewhere.
pub open spec fn pruned_so_far(
    rules: Seq<RuleModel>,
    side: int,
    touching: Seq<usize>,
    a: int,
    b: int,
    cells: Seq<Seq<usize>>,
    options: Seq<Seq<Seq<usize>>>,
    pos: Position,
    v: usize,
) -> Seq<Seq<Seq<usize>>> {
    Seq::new(
        side as nat,
        |r: int|
            Seq::new(
                side as nat,
                |c: int|
                    if seen(rules, touching, a, b, r, c) && !at_cell(pos, r, c) && cells[r][c] == 0 {
                        options[r][c].filter(other_value(v))
                    } else {
                        options[r][c]
                    },
            ),
    )
}

/// The candidate lists while `v` is being restored after it was taken back
/// from `pos`: extended at the empty cells other than `pos` that the walk
/// has come by and that lacked `v`, and as they were elsewhere.
pub open spec fn restored_so_far(
    rules: Seq<RuleModel>,
    side: int,
    touching: Seq<usize>,
    a: int,
    b: int,
    cells: Seq<Seq<usize>>,
    options: Seq<Seq<Seq<usize>>>,
    pos: Position,
    v: usize,
) -> Seq<Seq<Seq<usize>>> {
    Seq::new(
        side as nat,
        |r: int|
            Seq::new(
                side as nat,
                |c: int|
                    if seen(rules, touching, a, b, r, c) && !at_cell(pos, r, c) && cells[r][c] == 0
                        && !options[r][c].contains(v) {
                        options[r][c].push(v)
                    } else {
                        options[r][c]
                    },
            ),
    )
}

/// The list without the occurrences of `v`, in the list's order.
pub fn remove_value(list: &Vec<usize>, v: usize) -> (kept: Vec<usize>)
    ensures
        kept@ == list@.filter(other_value(v)),
{
    let mut kept: Vec<usize> = Vec::new();
    let mut i: usize = 0;
    proof {
        reveal(Seq::filter);
    }
    while i < list.len()
        invariant
            i <= list.len(),
            kept@ == list@.subrange(0, i as int).filter(other_value(v)),
        decreases list.len() - i,
    {
        proof {
            reveal(Seq::filter);
            assert(list@.subrange(0, i + 1).drop_last() =~= list@.subrange(0, i as int));
        }
        if list[i] != v {
            kept.push(list[i]);
        }
        i += 1;
    }
    assert(list@.subrange(0, list@.len() as int) =~= list@);
    kept
}

/// A copy of the candidate lists.
fn copy_options(options: &Vec<Vec<Vec<usize>>>) -> (copy: Vec<Vec<Vec<usize>>>)
    ensures
        lists(copy@) == lists(options@),
{
    let mut copy: Vec<Vec<Vec<usize>>> = Vec::new();
    let mut r: usize = 0;
    while r < options.len()
        invariant
            r <= options@.len(),
            copy@.len() == r,
            forall|i: int| 0 <= i < r ==> (#[trigger] copy@[i])@.len() == options@[i]@.len(),
            forall|i: int, j: int| 0 <= i < r && 0 <= j < options@[i]@.len() ==> (#[trigger] copy@[i]@[j])@ == options@[i]@[j]@,
        decreases options@.len() - r,
    {
        let row = options[r].clone();
        assert(row@.len() == options@[r as int]@.len());
        assert forall|j: int| 0 <= j < row@.len() implies (#[trigger] row@[j])@ == options@[r as int]@[j]@ by {
            assert(vstd::pervasive::cloned(options@[r as int]@[j], row@[j]));
            assert(row@[j]@ =~= options@[r as int]@[j]@);
        }
        copy.push(row);
        r += 1;
    }
    assert(lists(copy@) =~~= lists(options@));
    copy
}

/// Whether the registry holds, for each cell of the grid, the numbers of
/// the rules registered there.
pub open spec fn registry_holds(registry: Seq<Vec<Vec<usize>>>, rules: Seq<RuleModel>, side: int) -> bool {
    &&& registry.len() == side
    &&& forall|r: int| 0 <= r < side ==> (#[trigger] registry[r])@.len() == side
    &&& forall|r: int, c: int|
        0 <= r < side && 0 <= c < side ==> holds_registered(#[trigger] registry[r]@[c]@, rules, side, r, c)
}

/// Whether rule `k` counts as registered at the cell in row `r` and column
/// `c` while the registry is being built and the walk stands before
/// position `b` of rule `a`.
pub open spec fn registered_so_far(rules: Seq<RuleModel>, side: int, a: int, b: int, k: int, r: int, c: int) -> bool {
    ||| (k < a && registered(rules, side, k, r, c))
    ||| (k == a && 0 <= k < rules.len() && is_live(rules[k], side) && lists_cell_before(rules[k], b, r, c))
}

/// Whether the registry holds what the walk has registered when it stands
/// before position `b` of rule `a`.
pub open spec fn registry_so_far(registry: Seq<Vec<Vec<usize>>>, rules: Seq<RuleModel>, side: int, a: int, b: int) -> bool {
    &&& registry.len() == side
    &&& forall|r: int| 0 <= r < side ==> (#[trigger] registry[r])@.len() == side
    &&& forall|r: int, c: int, k: int|
        0 <= r < side && 0 <= c < side ==> ((exists|x: int| 0 <= x < registry[r]@[c]@.len() && #[trigger] registry[r]@[c]@[x] == k)
            <==> #[trigger] registered_so_far(rules, side, a, b, k, r, c))
}

/// A grid of `n` by `n` empty lists.
fn empty_lists(n: usize) -> (grid: Vec<Vec<Vec<usize>>>)
    ensures
        grid@.len() == n,
        forall|r: int| 0 <= r < n ==> (#[trigger] grid@[r])@.len() == n,
        forall|r: int, c: int| 0 <= r < n && 0 <= c < n ==> (#[trigger] grid@[r]@[c])@.len() == 0,
{
    let mut grid: Vec<Vec<Vec<usize>>> = Vec::new();
    let mut r: usize = 0;
    while r < n
        invariant
            r <= n,
            grid@.len() == r,
            forall|i: int| 0 <= i < r ==> (#[trigger] grid@[i])@.len() == n,
            forall|i: int, j: int| 0 <= i < r && 0 <= j < n ==> (#[trigger] grid@[i]@[j])@.len() == 0,
        decreases n - r,
    {
        let mut row: Vec<Vec<usize>> = Vec::new();
        let mut c: usize = 0;
        while c < n
            invariant
                c <= n,
                row@.len() == c,
                forall|j: int| 0 <= j < c ==> (#[trigger] row@[j])@.len() == 0,
            decreases n - c,
        {
            row.push(Vec::new());
            c += 1;
        }
        grid.push(row);
        r += 1;
    }
    grid
}

/// The registry of a list of rules: for each cell of the grid, the numbers
/// of the rules registered there.
#[verifier::rlimit(50)]
fn build_registry(rules: &Vec<Rule>, n: usize) -> (registry: Vec<Vec<Vec<usize>>>)
    requires
        rules_on_grid(models(rules@), n as int),
    ensures
        registry_holds(registry@, models(rules@), n as int),
{
    let ghost side = n as int;
    let ghost all = models(rules@);
    let mut registry = empty_lists(n);
    let mut a: usize = 0;
    assert(registry_so_far(registry@, all, side, 0, 0));
    while a < rules.len()
        invariant
            a <= rules@.len(),
            side == n,
            all == models(rules@),
            rules_on_grid(all, side),
            registry_so_far(registry@, all, side, a as int, 0),
        decreases rules@.len() - a,
    {
        let positions = rules[a].get_positions();
        assert(all_on_grid(all[a as int].positions(), side));
        if rules[a].is_permutation() && positions.len() == n {
            let mut b: usize = 0;
            while b < positions.len()
                invariant
                    b <= positions@.len(),
                    a < rules@.len(),
                    side == n,
                    all == models(rules@),
                    positions@ == all[a as int].positions(),
                    all_on_grid(positions@, side),
                    is_live(all[a as int], side),
                    registry_so_far(registry@, all, side, a as int, b as int),
                decreases positions@.len() - b,
            {
                let q = positions[b];
                let (r, c) = q.coords();
                assert(q.on_grid(side));
                let ghost prev = registry@;
                registry[r][c].push(a);
                proof {
                    let now = registry@;
                    assert(now.len() == prev.len());
                    assert(now[r as int]@.len() == prev[r as int]@.len());
                    assert(now[r as int]@[c as int]@ == prev[r as int]@[c as int]@.push(a));
                    assert forall|r2: int| 0 <= r2 < side implies (#[trigger] now[r2])@.len() == side by {
                        assert(prev[r2]@.len() == side);
                    }
                    assert forall|r2: int, c2: int, k: int| 0 <= r2 < side && 0 <= c2 < side implies ((exists|x: int|
                        0 <= x < now[r2]@[c2]@.len() && #[trigger] now[r2]@[c2]@[x] == k) <==> #[trigger] registered_so_far(
                        all,
                        side,
                        a as int,
                        b + 1,
                        k,
                        r2,
                        c2,
                    )) by {
                        let was = exists|x: int| 0 <= x < prev[r2]@[c2]@.len() && #[trigger] prev[r2]@[c2]@[x] == k;
                        assert(was <==> registered_so_far(all, side, a as int, b as int, k, r2, c2));
                        let rule = all[a as int];
                        if lists_cell_before(rule, b + 1, r2, c2) {
                            let i = choose|i: int| 0 <= i < b + 1 && i < rule.positions().len() && at_cell(#[trigger] rule.positions()[i], r2, c2);
                            if i < b {
                                assert(lists_cell_before(rule, b as int, r2, c2));
                            }
                        }
                        if lists_cell_before(rule, b as int, r2, c2) {
                            let i = choose|i: int| 0 <= i < b && i < rule.positions().len() && at_cell(#[trigger] rule.positions()[i], r2, c2);
                            assert(lists_cell_before(rule, b + 1, r2, c2));
                        }
                        if r2 == r && c2 == c {
                            assert(at_cell(rule.positions()[b as int], r2, c2));
                            assert(lists_cell_before(rule, b + 1, r2, c2));
                            let list = now[r2]@[c2]@;
                            assert(list[list.len() - 1] == a);
                            if was {
                                let x = choose|x: int| 0 <= x < prev[r2]@[c2]@.len() && #[trigger] prev[r2]@[c2]@[x] == k;
                                assert(list[x] == k);
                            }
                            if exists|x: int| 0 <= x < list.len() && #[trigger] list[x] == k {
                                let x = choose|x: int| 0 <= x < list.len() && #[trigger] list[x] == k;
                                if x < list.len() - 1 {
                                    assert(prev[r2]@[c2]@[x] == k);
                                }
                            }
                        } else {
                            assert(!at_cell(rule.positions()[b as int], r2, c2));
                            assert(now[r2]@[c2]@ == prev[r2]@[c2]@);
                        }
                    }
                }
                b += 1;
            }
            proof {
                assert forall|r2: int, c2: int, k: int| 0 <= r2 < side && 0 <= c2 < side implies (#[trigger] registered_so_far(
                    all,
                    side,
                    a + 1,
                    0,
                    k,
                    r2,
                    c2,
                ) <==> registered_so_far(all, side, a as int, positions@.len() as int, k, r2, c2)) by {
                    let rule = all[a as int];
                    if lists_cell(rule, r2, c2) {
                        let i = choose|i: int| 0 <= i < rule.positions().len() && at_cell(#[trigger] rule.positions()[i], r2, c2);
                        assert(lists_cell_before(rule, positions@.len() as int, r2, c2));
                    }
                    if lists_cell_before(rule, positions@.len() as int, r2, c2) {
                        let i = choose|i: int|
                            0 <= i < positions@.len() && i < rule.positions().len() && at_cell(#[trigger] rule.positions()[i], r2, c2);
                        assert(lists_cell(rule, r2, c2));
                    }
                }
            }
        } else {
            proof {
                assert(!is_live(all[a as int], side));
                assert forall|r2: int, c2: int, k: int| 0 <= r2 < side && 0 <= c2 < side implies (#[trigger] registered_so_far(
                    all,
                    side,
                    a + 1,
                    0,
                    k,
                    r2,
                    c2,
                ) <==> registered_so_far(all, side, a as int, 0, k, r2, c2)) by {}
            }
        }
        a += 1;
    }
    proof {
        assert forall|r: int, c: int| 0 <= r < side && 0 <= c < side implies holds_registered(
            #[trigger] registry@[r]@[c]@,
            all,
            side,
            r,
            c,
        ) by {
            assert forall|k: int| (exists|x: int| 0 <= x < registry@[r]@[c]@.len() && #[trigger] registry@[r]@[c]@[x] == k)
                <==> #[trigger] registered(all, side, k, r, c) by {
                assert(registered_so_far(all, side, rules@.len() as int, 0, k, r, c) <==> registered(all, side, k, r, c));
            }
        }
    }
    registry
}

/// The candidate lists of a solver that has placed nothing yet.
fn fresh_candidates(n: usize) -> (options: Vec<Vec<Vec<usize>>>)
    ensures
        lists(options@) == fresh_options(n as int),
{
    let mut options: Vec<Vec<Vec<usize>>> = Vec::new();
    let mut r: usize = 0;
    while r < n
        invariant
            r <= n,
            options@.len() == r,
            forall|i: int| 0 <= i < r ==> (#[trigger] options@[i])@.len() == n,
            forall|i: int, j: int| 0 <= i < r && 0 <= j < n ==> (#[trigger] options@[i]@[j])@.len() == n,
            forall|i: int, j: int, k: int|
                0 <= i < r && 0 <= j < n && 0 <= k < n ==> (#[trigger] options@[i]@[j]@[k]) == k + 1,
        decreases n - r,
    {
        let mut row: Vec<Vec<usize>> = Vec::new();
        let mut c: usize = 0;
        while c < n
            invariant
                c <= n,
                row@.len() == c,
                forall|j: int| 0 <= j < c ==> (#[trigger] row@[j])@.len() == n,
                forall|j: int, k: int| 0 <= j < c && 0 <= k < n ==> (#[trigger] row@[j]@[k]) == k + 1,
            decreases n - c,
        {
            let mut list: Vec<usize> = Vec::new();
            let mut v: usize = 0;
            while v < n
                invariant
                    v <= n,
                    list@.len() == v,
                    forall|k: int| 0 <= k < v ==> (#[trigger] list@[k]) == k + 1,
                decreases n - v,
            {
                v += 1;
                list.push(v);
            }
            row.push(list);
            c += 1;
        }
        options.push(row);
        r += 1;
    }
    assert(lists(options@) =~~= fresh_options(n as int));
    options
}

/// Lets the relation rules tighten the candidate lists, one rule after the
/// other.
#[verifier::rlimit(50)]
fn tighten(options: &mut Vec<Vec<Vec<usize>>>, rules: &Vec<Rule>, n: usize)
    requires
        options_ok(lists(old(options)@), n as int),
        rules_on_grid(models(rules@), n as int),
    ensures
        options_ok(lists(final(options)@), n as int),
        lists(final(options)@) == tightened(lists(old(options)@), models(rules@), rules@.len() as int),
{
    let ghost side = n as int;
    let ghost all = models(rules@);
    let ghost start = lists(options@);
    let mut k: usize = 0;
    while k < rules.len()
        invariant
            k <= rules@.len(),
            side == n,
            all == models(rules@),
            rules_on_grid(all, side),
            options_ok(lists(options@), side),
            lists(options@) == tightened(start, all, k as int),
        decreases rules@.len() - k,
    {
        let positions = rules[k].get_positions();
        assert(all_on_grid(all[k as int].positions(), side));
        let ghost before = lists(options@);
        if rules[k].is_relation() && positions.len() == 2 {
            let first = positions[0];
            let second = positions[1];
            assert(first.on_grid(side) && second.on_grid(side));
            let (r1, c1) = first.coords();
            let (r2, c2) = second.coords();
            proof {
                assert(before.len() == options@.len());
                assert(before[r1 as int].len() == options@[r1 as int]@.len());
                assert(before[r1 as int][c1 as int] == options@[r1 as int]@[c1 as int]@);
            }
            let ghost prev = options@;
            let _ = options[r1][c1].pop();
            let ghost struck = set_list(before, first, without_last(candidates(before, first)));
            proof {
                let now = lists(options@);
                assert(options@.len() == prev.len());
                assert(options@[r1 as int]@.len() == prev[r1 as int]@.len());
                assert forall|i: int| 0 <= i < side implies #[trigger] now[i] =~= struck[i] by {
                    assert(before[i].len() == side);
                    assert(before[i].len() == prev[i]@.len());
                    assert forall|j: int| 0 <= j < side implies #[trigger] now[i][j] == struck[i][j] by {
                        if i == r1 && j == c1 {
                            assert(now[i][j] =~= without_last(before[i][j]));
                        } else {
                            assert(now[i][j] == before[i][j]);
                        }
                    }
                }
                assert(now =~= struck);
                assert(options_ok(struck, side)) by {
                    assert forall|i: int, j: int, x: int|
                        0 <= i < side && 0 <= j < side && 0 <= x < struck[i][j].len() implies #[trigger] struck[i][j][x]
                        != 0 by {
                        assert(before[i][j][x] != 0);
                    }
                }
                assert(struck[r2 as int].len() == options@[r2 as int]@.len());
                assert(struck[r2 as int][c2 as int] == options@[r2 as int]@[c2 as int]@);
            }
            let ghost prev2 = options@;
            if options[r2][c2].len() > 0 {
                let _ = options[r2][c2].remove(0);
            }
            proof {
                let done = set_list(struck, second, without_first(candidates(struck, second)));
                let now = lists(options@);
                assert(options@.len() == prev2.len());
                assert(options@[r2 as int]@.len() == prev2[r2 as int]@.len());
                assert forall|i: int| 0 <= i < side implies #[trigger] now[i] =~= done[i] by {
                    assert(struck[i].len() == side);
                    assert(struck[i].len() == prev2[i]@.len());
                    assert forall|j: int| 0 <= j < side implies #[trigger] now[i][j] == done[i][j] by {
                        if i == r2 && j == c2 {
                            assert(now[i][j] =~= without_first(struck[i][j]));
                        } else {
                            assert(now[i][j] == struck[i][j]);
                        }
                    }
                }
                assert(now =~= done);
                assert(options_ok(done, side)) by {
                    assert forall|i: int, j: int, x: int|
                        0 <= i < side && 0 <= j < side && 0 <= x < done[i][j].len() implies #[trigger] done[i][j][x]
                        != 0 by {
                        if i == r2 && j == c2 && struck[i][j].len() > 0 {
                            assert(done[i][j][x] == struck[i][j][x + 1]);
                        } else {
                            assert(done[i][j][x] == struck[i][j][x]);
                        }
                    }
                }
                assert(done == tighten_one(before, all[k as int]));
            }
        }
        k += 1;
    }
}

/// The solver of one game: a copy of its board and rules, the candidates
/// of every cell, and the solution once one is found.
pub struct Solver {
    board: Board,
    solution: Option<Board>,
    rules: Vec<Rule>,
    n: usize,
    options: Vec<Vec<Vec<usize>>>,
    position_rules: Vec<Vec<Vec<usize>>>,
    is_valid: bool,
    rng: ThreadRng,
    use_randomization: bool,
}

impl Solver {
    /// The cells and the candidates of the solver, for use in contracts.
    pub closed spec fn spec_search(&self) -> Search {
        Search { cells: self.board@, options: lists(self.options@) }
    }

    /// The rules of the solver in order, for use in contracts.
    pub closed spec fn spec_rules(&self) -> Seq<RuleModel> {
        models(self.rules@)
    }

    /// The side of the solver's board, for use in contracts.
    pub closed spec fn spec_side(&self) -> usize {
        self.n
    }

    /// The cells of the solution, if one was found, for use in contracts.
    pub closed spec fn spec_solution(&self) -> Option<Seq<Seq<usize>>> {
        match self.solution {
            Some(b) => Some(b@),
            None => None,
        }
    }

    /// Whether the filled cells of the starting board could all be placed.
    pub closed spec fn spec_valid(&self) -> bool {
        self.is_valid
    }

    /// Whether the search tries the candidates of a cell in random order.
    pub closed spec fn spec_randomized(&self) -> bool {
        self.use_randomization
    }

    /// The solver's invariant.
    pub closed spec fn wf(&self) -> bool {
        &&& self.board.wf()
        &&& self.board.spec_side() == self.n
        &&& self.n <= N
        &&& rules_on_grid(models(self.rules@), self.n as int)
        &&& well_formed(self.spec_search(), self.n as int)
        &&& registry_holds(self.position_rules@, models(self.rules@), self.n as int)
        &&& self.solution matches Some(b) ==> {
            &&& b.wf()
            &&& b.spec_side() == self.n
            &&& all_filled(b@)
            &&& all_satisfied(models(self.rules@), b@, self.n as int)
        }
    }

    /// What the invariant says of the parts of the solver.
    pub proof fn lemma_wf(&self)
        requires
            self.wf(),
        ensures
            self.spec_side() <= N,
            well_formed(self.spec_search(), self.spec_side() as int),
            rules_on_grid(self.spec_rules(), self.spec_side() as int),
            self.spec_solution() matches Some(cells) ==> {
                &&& is_grid(cells, self.spec_side() as int)
                &&& all_filled(cells)
                &&& all_satisfied(self.spec_rules(), cells, self.spec_side() as int)
            },
    {
    }

    /// A solver for the game as it stands. Every cell starts with the
    /// candidates `1..=side`; each relation rule that names two cells
    /// strikes the largest candidate of its first cell and the smallest of
    /// its second; the permutation rules that span `side` cells are
    /// registered at their cells; then every filled cell of the board is
    /// replayed as a placement, down the columns from the left. The solver
    /// is valid when all of them could be made.
    #[verifier::rlimit(50)]
    pub fn new(game: Game, use_randomization: bool) -> (solver: Solver)
        requires
            game.wf(),
            game.spec_side() <= N,
        ensures
            solver.wf(),
            solver.spec_rules() == game.spec_rules(),
            solver.spec_side() == game.spec_side(),
            solver.spec_solution() is None,
            solver.spec_randomized() == use_randomization,
            solver.spec_search().cells == game.spec_board(),
            (solver.spec_search(), solver.spec_valid()) == initial(
                game.spec_rules(),
                game.spec_side() as int,
                game.spec_board(),
            ),
            forall|full: Seq<Seq<usize>>| #[trigger]
                is_solution(full, game.spec_rules(), game.spec_side() as int) && extends(
                    full,
                    game.spec_board(),
                    game.spec_side() as int,
                ) && starts_among(game.spec_rules(), game.spec_side() as int, full) ==> solver.spec_valid() && agrees(
                    solver.spec_search(),
                    full,
                    game.spec_side() as int,
                ),
    {
        let n = game.get_side();
        proof {
            game.lemma_wf();
        }
        let ghost all = game.spec_rules();
        let ghost side = n as int;
        let ghost cells = game.spec_board();
        let rules = game.rules();
        let board = game.board();
        let mut options = fresh_candidates(n);
        tighten(&mut options, &rules, n);
        let position_rules = build_registry(&rules, n);
        let ghost first = Search { cells, options: lists(options@) };
        let mut solver = Solver {
            board,
            solution: None,
            rules,
            n,
            options,
            position_rules,
            is_valid: true,
            rng: thread_source(),
            use_randomization,
        };
        assert(solver.spec_search() == first);
        let mut col: usize = 1;
        assert((col - 1) * n + 0 == 0) by (nonlinear_arith)
            requires
                col == 1,
        ;
        while col <= n
            invariant
                1 <= col <= n + 1,
                n <= N,
                side == n,
                solver.wf(),
                solver.n == n,
                all == models(solver.rules@),
                solver.solution is None,
                solver.use_randomization == use_randomization,
                solver.spec_search().cells == cells,
                is_grid(cells, side),
                (solver.spec_search(), solver.is_valid) == replayed(all, side, first, (col - 1) * n),
            decreases n + 1 - col,
        {
            let mut row: usize = 1;
            while row <= n
                invariant
                    1 <= row <= n + 1,
                    1 <= col <= n,
                    n <= N,
                    side == n,
                    solver.wf(),
                    solver.n == n,
                    all == models(solver.rules@),
                    solver.solution is None,
                    solver.use_randomization == use_randomization,
                    solver.spec_search().cells == cells,
                    is_grid(cells, side),
                    (solver.spec_search(), solver.is_valid) == replayed(all, side, first, (col - 1) * n + (row - 1)),
                decreases n + 1 - row,
            {
                let ghost i = (col - 1) * n + (row - 1);
                let ghost before = solver.spec_search();
                proof {
                    vstd::arithmetic::div_mod::lemma_fundamental_div_mod_converse(i, side, col - 1, row - 1);
                    assert((col - 1) * n >= 0) by (nonlinear_arith)
                        requires
                            col >= 1,
                            n >= 0,
                    ;
                    broadcast use Position::lemma_spec_at;
                }
                match Position::new(row, col) {
                    Some(p) => {
                        assert(p == scan_position(side, i));
                        let v = solver.board.get_value(p);
                        if v > 0 {
                            let ok = solver.place(p, v);
                            solver.is_valid = solver.is_valid && ok;
                            proof {
                                assert(cells[row - 1].len() == side);
                                assert(with_cell(cells, p, v) =~= cells) by {
                                    assert(with_cell(cells, p, v)[row - 1] =~= cells[row - 1]);
                                }
                            }
                        }
                    },
                    None => {},
                }
                row += 1;
            }
            proof {
                assert(col * n + 0 == (col - 1) * n + n) by (nonlinear_arith);
            }
            col += 1;
        }
        proof {
            assert((col - 1) * n == side * side) by (nonlinear_arith)
                requires
                    col - 1 == n,
                    side == n,
            ;
            assert forall|full: Seq<Seq<usize>>| #[trigger]
                is_solution(full, all, side) && extends(full, cells, side) && starts_among(all, side, full) implies solver.spec_valid()
                && agrees(solver.spec_search(), full, side) by {
                lemma_fresh_solver_agrees(all, side, cells, full);
            }
        }
        solver
    }

    /// Makes a puzzle of the game: solves it with candidates tried in random
    /// order, then empties two thirds of the cells of the solution, chosen
    /// at random, and hands back the game with that board. `None` where the
    /// search found no solution.
    #[verifier::rlimit(50)]
    pub fn generate(game: Game) -> (puzzle: Option<Game>)
        requires
            game.wf(),
            game.spec_side() <= N,
        ensures
            solvable(game.spec_rules(), game.spec_side() as int, game.spec_board()) ==> puzzle is Some,
            puzzle matches Some(g) ==> {
                &&& g.wf()
                &&& g.spec_rules() == game.spec_rules()
                &&& g.spec_side() == game.spec_side()
                &&& g.spec_base_rule_count() == game.spec_base_rule_count()
                &&& count_filled(g.spec_board()) == game.spec_side() * game.spec_side() - carve_count(
                    game.spec_side() as int,
                )
                &&& exists|full: Seq<Seq<usize>>|
                    {
                        &&& #[trigger] is_solution(full, game.spec_rules(), game.spec_side() as int)
                        &&& extends(full, game.spec_board(), game.spec_side() as int)
                        &&& extends(full, g.spec_board(), game.spec_side() as int)
                    }
                &&& covered(game.spec_rules(), game.spec_side() as int) && !tightens(game.spec_rules()) ==> {
                    &&& solvable(game.spec_rules(), game.spec_side() as int, g.spec_board())
                    &&& solution_of(game.spec_rules(), game.spec_side() as int, g.spec_board()) is Some
                }
            },
    {
        let mut game = game;
        let ghost given = game.spec_board();
        let ghost rules = game.spec_rules();
        let ghost side = game.spec_side() as int;
        proof {
            game.lemma_wf();
        }
        let mut solver = Solver::new(game.clone(), true);
        proof {
            if solvable(rules, side, given) {
                let full = choose|full: Seq<Seq<usize>>| #[trigger]
                    is_solution(full, rules, side) && extends(full, given, side) && starts_among(rules, side, full);
                lemma_fresh_solver_agrees(rules, side, given, full);
            }
        }
        solver.solve();
        let solved = match solver.get_solution() {
            Some(b) => b,
            None => {
                return None;
            },
        };
        let ghost full = solved@;
        let mut positions = grid_positions(solver.n);
        shuffle(&mut positions, &mut solver.rng);
        let n = solver.n;
        assert(n * n <= 81) by (nonlinear_arith)
            requires
                n <= 9,
        ;
        let count: usize = 2 * (n * n) / 3;
        let ghost order = positions@;
        proof {
            let listed = grid_positions_spec(side);
            listed.lemma_multiset_has_no_duplicates();
            order.lemma_multiset_has_no_duplicates_conv();
            assert(order.len() == listed.len()) by {
                listed.to_multiset_ensures();
                order.to_multiset_ensures();
            }
            assert forall|i: int| 0 <= i < order.len() implies (#[trigger] order[i]).on_grid(side) by {
                order.to_multiset_ensures();
                listed.to_multiset_ensures();
                assert(order.to_multiset().count(order[i]) > 0);
                assert(listed.contains(order[i]));
                let j = choose|j: int| 0 <= j < listed.len() && listed[j] == order[i];
                lemma_grid_position(side, j);
            }
            crate::board::lemma_count_filled_bound(full, side);
        }
        let mut part_board = solved;
        carve(&mut part_board, &positions, count);
        proof {
            lemma_carved_count(full, order, count as int, side);
            lemma_carved_extends(full, order, count as int, side);
            assert(is_solution(full, rules, side));
            if covered(rules, side) && !tightens(rules) {
                lemma_solvable_is_solved(rules, side, part_board@, full);
                crate::complete::lemma_plain_starts_among(rules, side, full);
                assert(solvable(rules, side, part_board@));
            }
        }
        game.set_board(part_board);
        Some(game)
    }

    /// The candidates of the cell at `pos`, in the order in which the search
    /// would try them.
    pub fn get_options(&self, pos: Position) -> (list: Vec<usize>)
        requires
            self.wf(),
            pos.on_grid(self.spec_side() as int),
        ensures
            list@ == candidates(self.spec_search().options, pos),
    {
        let (r, c) = pos.coords();
        assert(lists(self.options@)[r as int].len() == self.n);
        self.options[r][c].clone()
    }

    /// Tries to place `digit` at `pos`. The placement is made where `digit`
    /// is a candidate of the cell, no rule registered at the cell is broken
    /// by it, and every empty peer of the cell keeps a candidate: then the
    /// value is written and struck from the candidates of the empty peers.
    /// Otherwise nothing changes.
    #[verifier::rlimit(50)]
    pub fn place(&mut self, pos: Position, digit: usize) -> (ok: bool)
        requires
            old(self).wf(),
            pos.on_grid(old(self).spec_side() as int),
        ensures
            final(self).wf(),
            final(self).spec_rules() == old(self).spec_rules(),
            final(self).spec_side() == old(self).spec_side(),
            final(self).spec_solution() == old(self).spec_solution(),
            final(self).spec_valid() == old(self).spec_valid(),
            final(self).spec_randomized() == old(self).spec_randomized(),
            ok == can_place(old(self).spec_rules(), old(self).spec_side() as int, old(self).spec_search(), pos, digit),
            final(self).spec_search() == place_result(
                old(self).spec_rules(),
                old(self).spec_side() as int,
                old(self).spec_search(),
                pos,
                digit,
            ),
    {
        let (row, col) = pos.coords();
        let ghost rules = models(self.rules@);
        let ghost side = self.n as int;
        let ghost start = self.spec_search();
        let ghost cells = with_cell(start.cells, pos, digit);
        assert(start.options[row as int].len() == side);
        assert(start.options[row as int][col as int] == self.options@[row as int]@[col as int]@);
        if !contains_value(&self.options[row][col], digit) {
            return false;
        }
        let previous = self.board.get_value(pos);
        self.board.set_value(pos, digit);
        let touching = self.position_rules[row][col].clone();
        assert(touching@ =~= self.position_rules@[row as int]@[col as int]@);
        assert(holds_registered(touching@, rules, side, row as int, col as int));
        let mut a: usize = 0;
        while a < touching.len()
            invariant
                a <= touching@.len(),
                self.board.wf(),
                self.board@ == cells,
                self.board.spec_side() == side,
                side == self.n,
                pos.on_grid(side),
                row == pos.row() - 1,
                col == pos.col() - 1,
                rules == models(self.rules@),
                rules_on_grid(rules, side),
                holds_registered(touching@, rules, side, row as int, col as int),
                forall|x: int| 0 <= x < a ==> rules[#[trigger] touching@[x] as int].verdict(cells, side) != Verdict::Critical,
                well_formed(start, side),
                cells == with_cell(start.cells, pos, digit),
                previous == cell_at(start.cells, pos),
                lists(self.options@) == start.options,
                side <= N,
                self.solution == old(self).solution,
                self.is_valid == old(self).is_valid,
                self.use_randomization == old(self).use_randomization,
                self.position_rules == old(self).position_rules,
                self.rules == old(self).rules,
                self.n == old(self).n,
                old(self).wf(),
                start == old(self).spec_search(),
            decreases touching@.len() - a,
        {
            let k: usize = touching[a];
            assert(registered(rules, side, k as int, row as int, col as int));
            assert(all_on_grid(rules[k as int].positions(), side));
            let critical = match self.rules[k].check(&self.board) {
                RuleCheckResult::Critical(_) => true,
                _ => false,
            };
            if critical {
                self.board.set_value(pos, previous);
                proof {
                    assert(self.board@ =~= start.cells) by {
                        assert(self.board@[row as int] =~= start.cells[row as int]);
                    }
                    assert(breaks_rule(rules, side, cells, pos));
                }
                return false;
            }
            a += 1;
        }
        proof {
            assert(!breaks_rule(rules, side, cells, pos)) by {
                if breaks_rule(rules, side, cells, pos) {
                    let k = choose|k: int| #[trigger]
                        registered(rules, side, k, pos.row() - 1, pos.col() - 1) && rules[k].verdict(cells, side)
                            == Verdict::Critical;
                    let x = choose|x: int| 0 <= x < touching@.len() && #[trigger] touching@[x] == k;
                    assert(rules[touching@[x] as int].verdict(cells, side) != Verdict::Critical);
                }
            }
        }
        let saved = copy_options(&self.options);
        let mut a: usize = 0;
        proof {
            assert forall|r: int, c: int| !seen(rules, touching@, 0, 0, r, c) by {
                if touching@.len() > 0 {
                    lemma_seen_next(rules, touching@, 0, r, c);
                }
            }
            assert(lists(self.options@) =~~= pruned_so_far(rules, side, touching@, 0, 0, cells, start.options, pos, digit));
        }
        while a < touching.len()
            invariant
                a <= touching@.len(),
                self.board.wf(),
                self.board@ == cells,
                cells == with_cell(start.cells, pos, digit),
                self.board.spec_side() == side,
                side == self.n,
                side <= N,
                pos.on_grid(side),
                row == pos.row() - 1,
                col == pos.col() - 1,
                rules == models(self.rules@),
                rules_on_grid(rules, side),
                well_formed(start, side),
                holds_registered(touching@, rules, side, row as int, col as int),
                lists(saved@) == start.options,
                previous == cell_at(start.cells, pos),
                lists(self.options@) == pruned_so_far(rules, side, touching@, a as int, 0, cells, start.options, pos, digit),
                forall|r: int, c: int|
                    0 <= r < side && 0 <= c < side && seen(rules, touching@, a as int, 0, r, c) && !at_cell(pos, r, c)
                        && cells[r][c] == 0 ==> (#[trigger] start.options[r][c]).filter(other_value(digit)).len() > 0,
                self.solution == old(self).solution,
                self.is_valid == old(self).is_valid,
                self.use_randomization == old(self).use_randomization,
                self.position_rules == old(self).position_rules,
                self.rules == old(self).rules,
                self.n == old(self).n,
                old(self).wf(),
                start == old(self).spec_search(),
            decreases touching@.len() - a,
        {
            let k: usize = touching[a];
            assert(registered(rules, side, k as int, row as int, col as int));
            assert(all_on_grid(rules[k as int].positions(), side));
            let positions = self.rules[k].get_positions();
            let mut b: usize = 0;
            while b < positions.len()
                invariant
                    b <= positions@.len(),
                    a < touching@.len(),
                    k == touching@[a as int],
                    registered(rules, side, k as int, row as int, col as int),
                    positions@ == rules[k as int].positions(),
                    all_on_grid(positions@, side),
                    self.board.wf(),
                    self.board@ == cells,
                    cells == with_cell(start.cells, pos, digit),
                    self.board.spec_side() == side,
                    side == self.n,
                    side <= N,
                    pos.on_grid(side),
                    row == pos.row() - 1,
                    col == pos.col() - 1,
                    rules == models(self.rules@),
                    rules_on_grid(rules, side),
                    well_formed(start, side),
                    holds_registered(touching@, rules, side, row as int, col as int),
                    lists(saved@) == start.options,
                    previous == cell_at(start.cells, pos),
                    lists(self.options@) == pruned_so_far(
                        rules,
                        side,
                        touching@,
                        a as int,
                        b as int,
                        cells,
                        start.options,
                        pos,
                        digit,
                    ),
                    forall|r: int, c: int|
                        0 <= r < side && 0 <= c < side && seen(rules, touching@, a as int, b as int, r, c) && !at_cell(
                            pos,
                            r,
                            c,
                        ) && cells[r][c] == 0 ==> (#[trigger] start.options[r][c]).filter(other_value(digit)).len() > 0,
                    self.solution == old(self).solution,
                    self.is_valid == old(self).is_valid,
                    self.use_randomization == old(self).use_randomization,
                    self.position_rules == old(self).position_rules,
                    self.rules == old(self).rules,
                    self.n == old(self).n,
                    old(self).wf(),
                    start == old(self).spec_search(),
                decreases positions@.len() - b,
            {
                let q = positions[b];
                let (r, c) = q.coords();
                assert(q.on_grid(side));
                let ghost before = lists(self.options@);
                proof {
                    assert forall|r2: int, c2: int|
                        seen(rules, touching@, a as int, b + 1, r2, c2) <==> seen(rules, touching@, a as int, b as int, r2, c2)
                            || at_cell(q, r2, c2) by {
                        lemma_seen_step(rules, touching@, a as int, b as int, r2, c2);
                    }
                    assert(cells[r as int].len() == side);
                    assert(start.options[r as int].len() == side);
                    let current = pruned_so_far(rules, side, touching@, a as int, b as int, cells, start.options, pos, digit);
                    assert(current.len() == side);
                    assert(current[r as int].len() == side);
                    assert(before.len() == self.options@.len());
                    assert(before[r as int].len() == self.options@[r as int]@.len());
                    assert(self.options@.len() == side);
                    assert(self.options@[r as int]@.len() == side);
                    if q == pos {
                        assert(at_cell(pos, r as int, c as int));
                    } else {
                        if at_cell(pos, r as int, c as int) {
                            Position::lemma_same_coordinates(pos, q);
                        }
                    }
                }
                if q != pos && self.board.get_value(q) == 0 {
                    assert(lists(saved@)[r as int][c as int] == saved@[r as int]@[c as int]@);
                    let kept = remove_value(&saved[r][c], digit);
                    if kept.len() == 0 {
                        self.board.set_value(pos, previous);
                        self.options = saved;
                        proof {
                            assert(self.board@ =~= start.cells) by {
                                assert(self.board@[row as int] =~= start.cells[row as int]);
                            }
                            assert(registered(rules, side, k as int, r as int, c as int)) by {
                                assert(at_cell(rules[k as int].positions()[b as int], r as int, c as int));
                            }
                            assert(is_peer(rules, side, pos, r as int, c as int));
                            assert(reaches(rules, side, cells, pos, r as int, c as int));
                        }
                        return false;
                    }
                    let ghost prev = self.options@;
                    self.options[r][c] = kept;
                    proof {
                        let next = pruned_so_far(rules, side, touching@, a as int, b + 1, cells, start.options, pos, digit);
                        let now = lists(self.options@);
                        assert(self.options@.len() == prev.len());
                        assert(self.options@[r as int]@.len() == prev[r as int]@.len());
                        assert forall|r2: int| 0 <= r2 < side implies #[trigger] now[r2] =~= next[r2] by {
                            assert(before[r2].len() == side);
                            assert(before[r2].len() == prev[r2]@.len());
                            assert forall|c2: int| 0 <= c2 < side implies #[trigger] now[r2][c2] == next[r2][c2] by {
                                if r2 == r && c2 == c {
                                    assert(now[r2][c2] == kept@);
                                    assert(at_cell(q, r2, c2));
                                } else {
                                    assert(!at_cell(q, r2, c2));
                                    assert(now[r2][c2] == before[r2][c2]);
                                }
                            }
                        }
                        assert(now =~= next);
                    }
                } else {
                    proof {
                        assert(lists(self.options@) =~~= pruned_so_far(
                            rules,
                            side,
                            touching@,
                            a as int,
                            b + 1,
                            cells,
                            start.options,
                            pos,
                            digit,
                        ));
                    }
                }
                b += 1;
            }
            proof {
                assert forall|r2: int, c2: int|
                    seen(rules, touching@, a + 1, 0, r2, c2) <==> seen(
                        rules,
                        touching@,
                        a as int,
                        positions@.len() as int,
                        r2,
                        c2,
                    ) by {
                    lemma_seen_next(rules, touching@, a as int, r2, c2);
                }
                assert(pruned_so_far(rules, side, touching@, a + 1, 0, cells, start.options, pos, digit) =~~= pruned_so_far(
                    rules,
                    side,
                    touching@,
                    a as int,
                    positions@.len() as int,
                    cells,
                    start.options,
                    pos,
                    digit,
                ));
            }
            a += 1;
        }
        proof {
            assert forall|r2: int, c2: int|
                seen(rules, touching@, touching@.len() as int, 0, r2, c2) <==> exists|k: int| #[trigger]
                    registered(rules, side, k, pos.row() - 1, pos.col() - 1) && registered(rules, side, k, r2, c2) by {
                lemma_seen_all(rules, side, touching@, pos, r2, c2);
            }
            assert(pruned_so_far(rules, side, touching@, touching@.len() as int, 0, cells, start.options, pos, digit)
                =~~= pruned(rules, side, cells, start.options, pos, digit));
            assert(can_place(rules, side, start, pos, digit));
            lemma_place_well_formed(rules, side, start, pos, digit);
        }
        true
    }

    /// Takes back the value at `pos`: empties the cell and appends the value
    /// to the candidates of every empty peer of the cell that lacks it,
    /// whether or not another filled cell still excludes it there. An empty
    /// cell leaves everything as it was.
    #[verifier::rlimit(50)]
    pub fn unplace(&mut self, pos: Position)
        requires
            old(self).wf(),
            pos.on_grid(old(self).spec_side() as int),
        ensures
            final(self).wf(),
            final(self).spec_rules() == old(self).spec_rules(),
            final(self).spec_side() == old(self).spec_side(),
            final(self).spec_solution() == old(self).spec_solution(),
            final(self).spec_valid() == old(self).spec_valid(),
            final(self).spec_randomized() == old(self).spec_randomized(),
            final(self).spec_search() == unplace_result(
                old(self).spec_rules(),
                old(self).spec_side() as int,
                old(self).spec_search(),
                pos,
            ),
    {
        let (row, col) = pos.coords();
        let ghost rules = models(self.rules@);
        let ghost side = self.n as int;
        let ghost start = self.spec_search();
        let ghost cells = with_cell(start.cells, pos, 0);
        let value = self.board.get_value(pos);
        if value == 0 {
            return;
        }
        self.board.set_value(pos, 0);
        let touching = self.position_rules[row][col].clone();
        assert(touching@ =~= self.position_rules@[row as int]@[col as int]@);
        assert(holds_registered(touching@, rules, side, row as int, col as int));
        let mut a: usize = 0;
        proof {
            assert forall|r: int, c: int| !seen(rules, touching@, 0, 0, r, c) by {
                if touching@.len() > 0 {
                    lemma_seen_next(rules, touching@, 0, r, c);
                }
            }
            assert(lists(self.options@) =~~= restored_so_far(rules, side, touching@, 0, 0, cells, start.options, pos, value));
        }
        while a < touching.len()
            invariant
                a <= touching@.len(),
                value != 0,
                value == cell_at(start.cells, pos),
                self.board.wf(),
                self.board@ == cells,
                cells == with_cell(start.cells, pos, 0),
                self.board.spec_side() == side,
                side == self.n,
                side <= N,
                pos.on_grid(side),
                row == pos.row() - 1,
                col == pos.col() - 1,
                rules == models(self.rules@),
                rules_on_grid(rules, side),
                well_formed(start, side),
                holds_registered(touching@, rules, side, row as int, col as int),
                lists(self.options@) == restored_so_far(rules, side, touching@, a as int, 0, cells, start.options, pos, value),
                self.solution == old(self).solution,
                self.is_valid == old(self).is_valid,
                self.use_randomization == old(self).use_randomization,
                self.position_rules == old(self).position_rules,
                self.rules == old(self).rules,
                self.n == old(self).n,
                old(self).wf(),
                start == old(self).spec_search(),
            decreases touching@.len() - a,
        {
            let k: usize = touching[a];
            assert(registered(rules, side, k as int, row as int, col as int));
            assert(all_on_grid(rules[k as int].positions(), side));
            let positions = self.rules[k].get_positions();
            let mut b: usize = 0;
            while b < positions.len()
                invariant
                    b <= positions@.len(),
                    a < touching@.len(),
                    k == touching@[a as int],
                    positions@ == rules[k as int].positions(),
                    all_on_grid(positions@, side),
                    value != 0,
                    value == cell_at(start.cells, pos),
                    self.board.wf(),
                    self.board@ == cells,
                    cells == with_cell(start.cells, pos, 0),
                    self.board.spec_side() == side,
                    side == self.n,
                    side <= N,
                    pos.on_grid(side),
                    row == pos.row() - 1,
                    col == pos.col() - 1,
                    rules == models(self.rules@),
                    rules_on_grid(rules, side),
                    well_formed(start, side),
                    holds_registered(touching@, rules, side, row as int, col as int),
                    lists(self.options@) == restored_so_far(
                        rules,
                        side,
                        touching@,
                        a as int,
                        b as int,
                        cells,
                        start.options,
                        pos,
                        value,
                    ),
                    self.solution == old(self).solution,
                    self.is_valid == old(self).is_valid,
                    self.use_randomization == old(self).use_randomization,
                    self.position_rules == old(self).position_rules,
                    self.rules == old(self).rules,
                    self.n == old(self).n,
                    old(self).wf(),
                    start == old(self).spec_search(),
                decreases positions@.len() - b,
            {
                let q = positions[b];
                let (r, c) = q.coords();
                assert(q.on_grid(side));
                let ghost before = lists(self.options@);
                let ghost current = restored_so_far(rules, side, touching@, a as int, b as int, cells, start.options, pos, value);
                let ghost next = restored_so_far(rules, side, touching@, a as int, b + 1, cells, start.options, pos, value);
                proof {
                    assert forall|r2: int, c2: int|
                        seen(rules, touching@, a as int, b + 1, r2, c2) <==> seen(rules, touching@, a as int, b as int, r2, c2)
                            || at_cell(q, r2, c2) by {
                        lemma_seen_step(rules, touching@, a as int, b as int, r2, c2);
                    }
                    assert(cells[r as int].len() == side);
                    assert(start.options[r as int].len() == side);
                    assert(current.len() == side);
                    assert(current[r as int].len() == side);
                    assert(before.len() == self.options@.len());
                    assert(before[r as int].len() == self.options@[r as int]@.len());
                    assert(self.options@.len() == side);
                    assert(self.options@[r as int]@.len() == side);
                    assert(before[r as int][c as int] == self.options@[r as int]@[c as int]@);
                    assert(start.options[r as int][c as int].push(value).last() == value);
                    if q != pos {
                        if at_cell(pos, r as int, c as int) {
                            Position::lemma_same_coordinates(pos, q);
                        }
                    }
                }
                if q != pos && self.board.get_value(q) == 0 && !contains_value(&self.options[r][c], value) {
                    let ghost prev = self.options@;
                    self.options[r][c].push(value);
                    proof {
                        let now = lists(self.options@);
                        assert(self.options@.len() == prev.len());
                        assert(self.options@[r as int]@.len() == prev[r as int]@.len());
                        assert forall|r2: int| 0 <= r2 < side implies #[trigger] now[r2] =~= next[r2] by {
                            assert(before[r2].len() == side);
                            assert(before[r2].len() == prev[r2]@.len());
                            assert forall|c2: int| 0 <= c2 < side implies #[trigger] now[r2][c2] == next[r2][c2] by {
                                if r2 == r && c2 == c {
                                    assert(now[r2][c2] == before[r2][c2].push(value));
                                    assert(at_cell(q, r2, c2));
                                } else {
                                    assert(!at_cell(q, r2, c2));
                                    assert(now[r2][c2] == before[r2][c2]);
                                }
                            }
                        }
                        assert(now =~= next);
                    }
                } else {
                    proof {
                        assert forall|r2: int| 0 <= r2 < side implies #[trigger] current[r2] =~= next[r2] by {
                            assert forall|c2: int| 0 <= c2 < side implies #[trigger] current[r2][c2] == next[r2][c2] by {
                                if r2 == r && c2 == c {
                                    assert(at_cell(q, r2, c2));
                                } else {
                                    assert(!at_cell(q, r2, c2));
                                }
                            }
                        }
                        assert(current =~= next);
                    }
                }
                b += 1;
            }
            proof {
                assert forall|r2: int, c2: int|
                    seen(rules, touching@, a + 1, 0, r2, c2) <==> seen(
                        rules,
                        touching@,
                        a as int,
                        positions@.len() as int,
                        r2,
                        c2,
                    ) by {
                    lemma_seen_next(rules, touching@, a as int, r2, c2);
                }
                assert(restored_so_far(rules, side, touching@, a + 1, 0, cells, start.options, pos, value) =~~= restored_so_far(
                    rules,
                    side,
                    touching@,
                    a as int,
                    positions@.len() as int,
                    cells,
                    start.options,
                    pos,
                    value,
                ));
            }
            a += 1;
        }
        proof {
            assert forall|r2: int, c2: int|
                seen(rules, touching@, touching@.len() as int, 0, r2, c2) <==> exists|k: int| #[trigger]
                    registered(rules, side, k, pos.row() - 1, pos.col() - 1) && registered(rules, side, k, r2, c2) by {
                lemma_seen_all(rules, side, touching@, pos, r2, c2);
            }
            assert(restored_so_far(rules, side, touching@, touching@.len() as int, 0, cells, start.options, pos, value)
                =~~= restored(rules, side, cells, start.options, pos, value));
            lemma_unplace_well_formed(rules, side, start, pos);
        }
    }

    /// The verdict of the rules taken together: broken where one of them is
    /// broken, else pending where one is pending, else met.
    pub fn check_rules(&self) -> (verdict: Verdict)
        requires
            self.wf(),
        ensures
            verdict == overall(self.spec_rules(), self.spec_search().cells, self.spec_side() as int),
    {
        let ghost rules = models(self.rules@);
        let ghost cells = self.board@;
        let ghost side = self.n as int;
        let mut critical = false;
        let mut pending = false;
        let mut k: usize = 0;
        while k < self.rules.len()
            invariant
                k <= self.rules@.len(),
                self.wf(),
                rules == models(self.rules@),
                cells == self.board@,
                side == self.n,
                critical <==> exists|j: int| 0 <= j < k && (#[trigger] rules[j]).verdict(cells, side) == Verdict::Critical,
                pending <==> exists|j: int| 0 <= j < k && (#[trigger] rules[j]).verdict(cells, side) == Verdict::Unfulfilled,
            decreases self.rules@.len() - k,
        {
            assert(all_on_grid(rules[k as int].positions(), side));
            match self.rules[k].check(&self.board) {
                RuleCheckResult::Critical(_) => {
                    critical = true;
                },
                RuleCheckResult::Unfulfilled(_) => {
                    pending = true;
                },
                RuleCheckResult::Satisfied => {},
            }
            k += 1;
        }
        if critical {
            Verdict::Critical
        } else if pending {
            Verdict::Unfulfilled
        } else {
            Verdict::Satisfied
        }
    }

    /// The empty cell that the search fills next: one with the fewest
    /// candidates among the empty cells that have any, and of those the
    /// first in the order of the scan, which goes down the columns from the
    /// left. `None` where no empty cell has a candidate.
    pub fn get_next_position(&self) -> (next: Option<Position>)
        requires
            self.wf(),
        ensures
            is_next(self.spec_search(), self.spec_side() as int, next),
    {
        let ghost s = self.spec_search();
        let ghost side = self.n as int;
        let mut best: Option<Position> = None;
        let mut best_len: usize = 0;
        let mut col: usize = 1;
        while col <= self.n
            invariant
                1 <= col <= self.n + 1,
                self.wf(),
                s == self.spec_search(),
                side == self.n,
                chosen_among(s, side, best, 0, col - 1),
                best matches Some(p) ==> best_len == candidates(s.options, p).len(),
            decreases self.n + 1 - col,
        {
            let mut row: usize = 1;
            while row <= self.n
                invariant
                    1 <= row <= self.n + 1,
                    1 <= col <= self.n,
                    self.wf(),
                    s == self.spec_search(),
                    side == self.n,
                    chosen_among(s, side, best, row - 1, col - 1),
                    best matches Some(p) ==> best_len == candidates(s.options, p).len(),
                decreases self.n + 1 - row,
            {
                let here = Position::new(row, col);
                match here {
                    Some(p) => {
                        assert(s.options[row - 1].len() == side);
                        assert(s.options[row - 1][col - 1] == self.options@[row - 1]@[col - 1]@);
                        if self.board.get_value(p) == 0 {
                            let len = self.options[row - 1][col - 1].len();
                            if len > 0 && (best.is_none() || len < best_len) {
                                best = Some(p);
                                best_len = len;
                            }
                        }
                    },
                    None => {},
                }
                row += 1;
            }
            col += 1;
        }
        best
    }

    /// Searches for a completion of the board as it stands: fills the next
    /// cell with each of its candidates in turn, in the order of the list or
    /// in a random order, and goes on from each placement that can be made.
    /// The first board that is full with every rule met is kept as the
    /// solution and left in place. Where none is found the board and the
    /// kept solution are as before the call.
    #[verifier::rlimit(50)]
    pub fn solve_recursive(&mut self) -> (found: bool)
        requires
            old(self).wf(),
        ensures
            final(self).wf(),
            final(self).spec_rules() == old(self).spec_rules(),
            final(self).spec_side() == old(self).spec_side(),
            final(self).spec_valid() == old(self).spec_valid(),
            final(self).spec_randomized() == old(self).spec_randomized(),
            found ==> {
                &&& final(self).spec_solution() == Some(final(self).spec_search().cells)
                &&& extends(final(self).spec_search().cells, old(self).spec_search().cells, old(self).spec_side() as int)
            },
            !found ==> {
                &&& grows(old(self).spec_search(), final(self).spec_search(), old(self).spec_side() as int)
                &&& final(self).spec_solution() == old(self).spec_solution()
            },
            forall|full: Seq<Seq<usize>>| #[trigger]
                is_solution(full, old(self).spec_rules(), old(self).spec_side() as int) && agrees(
                    old(self).spec_search(),
                    full,
                    old(self).spec_side() as int,
                ) ==> found,
            !old(self).spec_randomized() ==> (Outcome {
                found,
                state: final(self).spec_search(),
                kept: final(self).spec_solution(),
            }) == search(
                old(self).spec_rules(),
                old(self).spec_side() as int,
                old(self).spec_search(),
                old(self).spec_solution(),
            ),
        decreases empties(old(self).spec_search().cells, old(self).spec_side() as int),
    {
        let ghost rules = models(self.rules@);
        let ghost side = self.n as int;
        let ghost start = self.spec_search();
        proof {
            crate::board::lemma_count_filled_bound(start.cells, side);
        }
        let ghost kept = self.spec_solution();
        let ghost bound = empties(start.cells, side);
        let next = self.get_next_position();
        proof {
            lemma_next_unique(start, side, next, next);
        }
        match next {
            Some(pos) => {
                let mut opt = self.get_options(pos);
                let ghost listed = opt@;
                if self.use_randomization {
                    shuffle(&mut opt, &mut self.rng);
                }
                let ghost whole = try_values(rules, side, start, kept, pos, opt@, 0, bound);
                proof {
                    assert(grows(start, start, side));
                    listed.to_multiset_ensures();
                    opt@.to_multiset_ensures();
                    assert forall|full: Seq<Seq<usize>>| #[trigger]
                        is_solution(full, rules, side) && agrees(start, full, side) implies exists|j: int|
                        0 <= j < opt@.len() && #[trigger] opt@[j] == cell_at(full, pos) by {
                        assert(start.options[pos.row() - 1][pos.col() - 1].contains(cell_at(full, pos)));
                        assert(listed.contains(cell_at(full, pos)));
                        assert(listed.to_multiset().count(cell_at(full, pos)) > 0);
                        assert(opt@.to_multiset().count(cell_at(full, pos)) > 0);
                        assert(opt@.contains(cell_at(full, pos)));
                        let j = choose|j: int| 0 <= j < opt@.len() && opt@[j] == cell_at(full, pos);
                        assert(opt@[j] == cell_at(full, pos));
                    }
                }
                let mut i: usize = 0;
                while i < opt.len()
                    invariant
                        i <= opt@.len(),
                        self.wf(),
                        old(self).wf(),
                        rules == models(self.rules@),
                        rules == old(self).spec_rules(),
                        side == self.n,
                        self.n == old(self).n,
                        start == old(self).spec_search(),
                        self.spec_search().cells == start.cells,
                        grows(start, self.spec_search(), side),
                        forall|full: Seq<Seq<usize>>| #[trigger]
                            is_solution(full, rules, side) && agrees(start, full, side) ==> exists|j: int|
                                i <= j < opt@.len() && #[trigger] opt@[j] == cell_at(full, pos),
                        self.spec_solution() == old(self).spec_solution(),
                        self.is_valid == old(self).is_valid,
                        self.use_randomization == old(self).use_randomization,
                        pos.on_grid(side),
                        cell_at(start.cells, pos) == 0,
                        count_filled(start.cells) <= side * side,
                        bound == empties(start.cells, side),
                        kept == old(self).spec_solution(),
                        !self.use_randomization ==> whole == search(rules, side, start, kept),
                        !self.use_randomization ==> whole == try_values(
                            rules,
                            side,
                            self.spec_search(),
                            self.spec_solution(),
                            pos,
                            opt@,
                            i as int,
                            bound,
                        ),
                    decreases opt@.len() - i,
                {
                    let value = opt[i];
                    let ghost before = self.spec_search();
                    proof {
                        assert(start.cells[pos.row() - 1].len() == side);
                        self.lemma_wf();
                    }
                    let ghost mut placed = false;
                    if self.place(pos, value) {
                        proof {
                            placed = true;
                        }
                        proof {
                            let j = choose|j: int| 0 <= j < candidates(before.options, pos).len() && candidates(before.options, pos)[j] == value;
                            assert(before.options[pos.row() - 1][pos.col() - 1][j] != 0);
                            crate::board::lemma_with_cell_count(start.cells, pos, value);
                            crate::board::lemma_count_filled_bound(with_cell(start.cells, pos, value), side);
                        }
                        if self.solve_recursive() {
                            proof {
                                let last = self.spec_search().cells;
                                let mid = with_cell(start.cells, pos, value);
                                assert forall|r: int, c: int|
                                    0 <= r < side && 0 <= c < side && start.cells[r][c] != 0 implies #[trigger] last[r][c]
                                    == start.cells[r][c] by {
                                    assert(mid[r][c] == start.cells[r][c]);
                                }
                            }
                            return true;
                        }
                    }
                    let ghost deeper = self.spec_search();
                    proof {
                        self.lemma_wf();
                    }
                    self.unplace(pos);
                    proof {
                        assert(self.spec_search().cells =~= start.cells) by {
                            assert(self.spec_search().cells[pos.row() - 1] =~= start.cells[pos.row() - 1]);
                        }
                        if placed {
                            lemma_taken_back(rules, side, before, pos, value, deeper);
                        } else {
                            assert(deeper == before);
                            assert(self.spec_search() == before);
                            assert(grows(before, before, side));
                        }
                        lemma_grows_on(start, before, self.spec_search(), side);
                        assert forall|full: Seq<Seq<usize>>| #[trigger]
                            is_solution(full, rules, side) && agrees(start, full, side) implies exists|j: int|
                            i + 1 <= j < opt@.len() && #[trigger] opt@[j] == cell_at(full, pos) by {
                            let j = choose|j: int| i <= j < opt@.len() && #[trigger] opt@[j] == cell_at(full, pos);
                            assert(j != i) by {
                                if j == i {
                                    lemma_agrees_on(start, before, full, side);
                                    lemma_place_agreed(rules, side, before, pos, full);
                                    assert(placed);
                                }
                            }
                            assert(opt@[j] == cell_at(full, pos));
                        }
                    }
                    i += 1;
                }
                false
            },
            None => {
                proof {
                    self.lemma_wf();
                    assert(grows(start, start, side));
                    assert forall|full: Seq<Seq<usize>>| #[trigger]
                        is_solution(full, rules, side) && agrees(start, full, side) implies all_filled(start.cells)
                        && overall(rules, start.cells, side) == Verdict::Satisfied by {
                        lemma_leaf(rules, side, start, full);
                    }
                }
                if self.board.is_filled() && self.check_rules() == Verdict::Satisfied {
                    self.solution = Some(self.board.clone());
                    true
                } else {
                    false
                }
            },
        }
    }

    /// Looks for a solution and keeps the outcome. A solver whose starting
    /// board could not be placed keeps none, without a search.
    pub fn solve(&mut self)
        requires
            old(self).wf(),
        ensures
            final(self).wf(),
            final(self).spec_rules() == old(self).spec_rules(),
            final(self).spec_side() == old(self).spec_side(),
            final(self).spec_valid() == old(self).spec_valid(),
            final(self).spec_randomized() == old(self).spec_randomized(),
            !old(self).spec_valid() ==> final(self).spec_solution() is None && final(self).spec_search() == old(
                self,
            ).spec_search(),
            final(self).spec_solution() matches Some(cells) ==> {
                &&& is_solution(cells, old(self).spec_rules(), old(self).spec_side() as int)
                &&& extends(cells, old(self).spec_search().cells, old(self).spec_side() as int)
                &&& cells == final(self).spec_search().cells
            },
            forall|full: Seq<Seq<usize>>| #[trigger]
                is_solution(full, old(self).spec_rules(), old(self).spec_side() as int) && agrees(
                    old(self).spec_search(),
                    full,
                    old(self).spec_side() as int,
                ) && old(self).spec_valid() ==> final(self).spec_solution() is Some,
            !old(self).spec_randomized() ==> final(self).spec_solution() == solved(
                old(self).spec_rules(),
                old(self).spec_side() as int,
                old(self).spec_search(),
                old(self).spec_valid(),
                old(self).spec_solution(),
            ),
    {
        if !self.is_valid {
            self.solution = None;
            return;
        }
        let found = self.solve_recursive();
        if !found {
            self.solution = None;
        }
    }

    /// A copy of the solution, if the last search found one.
    pub fn get_solution(&self) -> (solution: Option<Board>)
        requires
            self.wf(),
        ensures
            match solution {
                Some(b) => self.spec_solution() == Some(b@) && b.wf() && b.spec_side() == self.spec_side(),
                None => self.spec_solution() is None,
            },
    {
        match &self.solution {
            Some(b) => Some(b.clone()),
            None => None,
        }
    }
}

} // verus!
