//! Carving a puzzle out of a solved board: the cells are emptied in a
//! given order, two thirds of them.

use crate::board::{all_filled, cell_at, count_filled, is_grid, with_cell, Board, Position, N};
use crate::rules::all_on_grid;
use crate::search::{at_cell, extends};
use vstd::prelude::*;

verus! {

/// How many cells are emptied to make a puzzle of a solved grid: two
/// thirds of them, rounded down.
pub open spec fn carve_count(side: int) -> int {
    2 * (side * side) / 3
}

/// The cells of a grid of the given side, row by row.
pub open spec fn grid_positions_spec(side: int) -> Seq<Position> {
    Seq::new((side * side) as nat, |i: int| Position::spec_at((i / side + 1) as usize, (i % side + 1) as usize))
}

/// The cell with number `i` of the cells of a grid lies on the grid, and
/// no other number names it.
pub proof fn lemma_grid_position(side: int, i: int)
    requires
        0 <= side <= N,
        0 <= i < side * side,
    ensures
        grid_positions_spec(side)[i].on_grid(side),
        grid_positions_spec(side)[i].row() == i / side + 1,
        grid_positions_spec(side)[i].col() == i % side + 1,
        i == (i / side) * side + i % side,
{
    broadcast use Position::lemma_spec_at;
    vstd::arithmetic::div_mod::lemma_fundamental_div_mod(i, side);
    assert(0 <= i / side < side) by (nonlinear_arith)
        requires
            0 <= i < side * side,
            side > 0,
    ;
    assert((i / side) * side == side * (i / side)) by (nonlinear_arith);
    assert(0 <= i % side < side);
}

/// The cells of a grid of side `n`, row by row.
pub fn grid_positions(n: usize) -> (positions: Vec<Position>)
    requires
        n <= N,
    ensures
        positions@ == grid_positions_spec(n as int),
        positions@.no_duplicates(),
{
    let ghost side = n as int;
    let mut positions: Vec<Position> = Vec::new();
    let mut row: usize = 1;
    assert((row - 1) * n == 0) by (nonlinear_arith)
        requires
            row == 1,
    ;
    while row <= n
        invariant
            1 <= row <= n + 1,
            n <= N,
            side == n,
            positions@.len() == (row - 1) * n,
            forall|i: int| 0 <= i < positions@.len() ==> #[trigger] positions@[i] == Position::spec_at(
                (i / side + 1) as usize,
                (i % side + 1) as usize,
            ),
        decreases n + 1 - row,
    {
        let mut col: usize = 1;
        while col <= n
            invariant
                1 <= row <= n,
                1 <= col <= n + 1,
                n <= N,
                side == n,
                positions@.len() == (row - 1) * n + (col - 1),
                forall|i: int| 0 <= i < positions@.len() ==> #[trigger] positions@[i] == Position::spec_at(
                    (i / side + 1) as usize,
                    (i % side + 1) as usize,
                ),
            decreases n + 1 - col,
        {
            proof {
                vstd::arithmetic::div_mod::lemma_fundamental_div_mod_converse(
                    positions@.len() as int,
                    side,
                    row - 1,
                    col - 1,
                );
            }
            match Position::new(row, col) {
                Some(p) => {
                    positions.push(p);
                },
                None => {},
            }
            col += 1;
        }
        proof {
            assert(row * n == (row - 1) * n + n) by (nonlinear_arith);
        }
        row += 1;
    }
    proof {
        assert((row - 1) * n == side * side) by (nonlinear_arith)
            requires
                row - 1 == n,
                side == n,
        ;
        assert(positions@ =~= grid_positions_spec(side));
        assert forall|i: int, j: int| 0 <= i < positions@.len() && 0 <= j < positions@.len() && i != j implies positions@[i]
            != positions@[j] by {
            lemma_grid_position(side, i);
            lemma_grid_position(side, j);
        }
    }
    positions
}

/// The grid after the first `count` positions of `order` were emptied.
pub open spec fn carved(cells: Seq<Seq<usize>>, order: Seq<Position>, count: int) -> Seq<Seq<usize>>
    decreases count,
{
    if count <= 0 {
        cells
    } else {
        with_cell(carved(cells, order, count - 1), order[count - 1], 0)
    }
}

/// Carving keeps the shape of the grid, and every cell that it leaves
/// filled holds what it held.
pub proof fn lemma_carved_extends(cells: Seq<Seq<usize>>, order: Seq<Position>, count: int, side: int)
    requires
        is_grid(cells, side),
        all_on_grid(order, side),
        0 <= count <= order.len(),
    ensures
        is_grid(carved(cells, order, count), side),
        extends(cells, carved(cells, order, count), side),
        forall|r: int, c: int|
            0 <= r < side && 0 <= c < side && !(exists|i: int| 0 <= i < count && at_cell(#[trigger] order[i], r, c))
                ==> carved(cells, order, count)[r][c] == cells[r][c],
    decreases count,
{
    if count > 0 {
        lemma_carved_extends(cells, order, count - 1, side);
        let before = carved(cells, order, count - 1);
        let p = order[count - 1];
        assert(p.on_grid(side));
        assert(before[p.row() - 1].len() == side);
        let after = carved(cells, order, count);
        assert forall|r: int, c: int|
            0 <= r < side && 0 <= c < side && !(exists|i: int| 0 <= i < count && at_cell(#[trigger] order[i], r, c))
            implies after[r][c] == cells[r][c] by {
            assert(!at_cell(order[count - 1], r, c));
            if exists|i: int| 0 <= i < count - 1 && at_cell(#[trigger] order[i], r, c) {
                let i = choose|i: int| 0 <= i < count - 1 && at_cell(#[trigger] order[i], r, c);
                assert(at_cell(order[i], r, c));
            }
        }
    }
}

/// Carving `count` different cells out of a grid without an empty cell
/// leaves `count` cells fewer filled.
pub proof fn lemma_carved_count(cells: Seq<Seq<usize>>, order: Seq<Position>, count: int, side: int)
    requires
        is_grid(cells, side),
        all_filled(cells),
        all_on_grid(order, side),
        order.no_duplicates(),
        0 <= count <= order.len(),
    ensures
        count_filled(carved(cells, order, count)) == count_filled(cells) - count,
    decreases count,
{
    if count > 0 {
        lemma_carved_count(cells, order, count - 1, side);
        lemma_carved_extends(cells, order, count - 1, side);
        let before = carved(cells, order, count - 1);
        let p = order[count - 1];
        assert(p.on_grid(side));
        assert(before[p.row() - 1].len() == side);
        assert(cell_at(before, p) == cell_at(cells, p)) by {
            if exists|i: int| 0 <= i < count - 1 && at_cell(#[trigger] order[i], p.row() - 1, p.col() - 1) {
                let i = choose|i: int| 0 <= i < count - 1 && at_cell(#[trigger] order[i], p.row() - 1, p.col() - 1);
                Position::lemma_same_coordinates(order[i], p);
            }
        }
        assert(cells[p.row() - 1][p.col() - 1] != 0);
        crate::board::lemma_with_cell_count(before, p, 0);
    }
}

/// Empties the cells at the first `count` positions of `order`.
pub fn carve(board: &mut Board, order: &Vec<Position>, count: usize)
    requires
        old(board).wf(),
        all_on_grid(order@, old(board).spec_side() as int),
        count <= order@.len(),
    ensures
        final(board).wf(),
        final(board).spec_side() == old(board).spec_side(),
        final(board)@ == carved(old(board)@, order@, count as int),
{
    let mut i: usize = 0;
    while i < count
        invariant
            i <= count <= order@.len(),
            board.wf(),
            board.spec_side() == old(board).spec_side(),
            all_on_grid(order@, board.spec_side() as int),
            board@ == carved(old(board)@, order@, i as int),
        decreases count - i,
    {
        board.set_value(order[i], 0);
        i += 1;
    }
}

} // verus!
