//! Grid coordinates and the grid of cell values.

use crate::text::{number_text, render_number};
use vstd::prelude::*;

verus! {

/// The largest grid side that a [`Position`] can address.
pub const N: usize = 9;

/// A cell coordinate, 1-indexed, with row and column both in `1..=N`.
#[derive(Clone, Copy, Debug, PartialEq, Eq, Structural, Hash)]
pub struct Position {
    row: usize,
    col: usize,
}

impl Position {
    #[verifier::type_invariant]
    spec fn in_range(self) -> bool {
        Self::addressable(self.row, self.col)
    }

    /// The row of this position, for use in contracts.
    pub closed spec fn spec_row(&self) -> usize {
        self.row
    }

    /// The column of this position, for use in contracts.
    pub closed spec fn spec_col(&self) -> usize {
        self.col
    }

    /// The position with the given row and column, for use in contracts.
    pub closed spec fn spec_at(row: usize, col: usize) -> Position {
        Position { row, col }
    }

    /// The position made of a row and a column has that row and column.
    pub broadcast proof fn lemma_spec_at(row: usize, col: usize)
        ensures
            (#[trigger] Self::spec_at(row, col)).row() == row,
            Self::spec_at(row, col).col() == col,
    {
    }

    /// The linear index of this position, for use in contracts.
    pub open spec fn spec_index(&self) -> int {
        (self.row() - 1) + (self.col() - 1) * N
    }

    /// Whether `row` and `col` name a cell: both lie in `1..=N`.
    pub open spec fn addressable(row: usize, col: usize) -> bool {
        1 <= row <= N && 1 <= col <= N
    }

    /// Whether this position lies on a grid of the given side.
    pub open spec fn on_grid(&self, side: int) -> bool {
        1 <= self.row() <= side && 1 <= self.col() <= side
    }

    /// Two positions with the same row and column are the same position.
    pub proof fn lemma_same_coordinates(p: Position, q: Position)
        requires
            p.row() == q.row(),
            p.col() == q.col(),
        ensures
            p == q,
    {
    }

    /// Makes the position `(row, col)`. Coordinates outside `1..=N` name no
    /// cell and give `None`.
    pub fn new(row: usize, col: usize) -> (res: Option<Position>)
        ensures
            res is Some <==> Self::addressable(row, col),
            res matches Some(p) ==> p.row() == row && p.col() == col && p == Self::spec_at(row, col),
    {
        if 1 <= row && row <= N && 1 <= col && col <= N {
            Some(Position { row, col })
        } else {
            None
        }
    }

    /// The position whose linear index is `index`: the inverse of
    /// [`Position::index`]. Indices from `N * N` on name no cell.
    pub fn from_index(index: usize) -> (res: Option<Position>)
        ensures
            res is Some <==> index < N * N,
            res matches Some(p) ==> {
                &&& p.row() == index % N + 1
                &&& p.col() == index / N + 1
                &&& p.spec_index() == index
                &&& p == Self::spec_at((index % N + 1) as usize, (index / N + 1) as usize)
            },
    {
        let row: usize = index % N + 1;
        let col: usize = index / N + 1;
        Position::new(row, col)
    }

    /// The zero-based `(row, column)` pair of this position.
    pub fn coords(&self) -> (rc: (usize, usize))
        ensures
            rc.0 == self.row() - 1,
            rc.1 == self.col() - 1,
            rc.0 < N,
            rc.1 < N,
    {
        proof {
            use_type_invariant(self);
        }
        (self.row - 1, self.col - 1)
    }

    /// The linear index of this position, counting down the columns:
    /// `(row - 1) + (col - 1) * N`.
    pub fn index(&self) -> (i: usize)
        ensures
            i == self.spec_index(),
            i < N * N,
    {
        proof {
            use_type_invariant(self);
        }
        (self.row - 1) + (self.col - 1) * N
    }

    /// The colour of the sub-block that holds this position, on a grid cut
    /// into blocks of `r` rows and `c` columns: 7 or 8, alternating with the
    /// sum of the block's row and column numbers.
    pub fn default_color(&self, r: usize, c: usize) -> (color: usize)
        requires
            r > 0,
            c > 0,
        ensures
            color == 7 + ((self.row() - 1) / (r as int) + (self.col() - 1) / (c as int)) % 2,
    {
        proof {
            use_type_invariant(self);
        }
        let block_row: usize = (self.row - 1) / r;
        let block_col: usize = (self.col - 1) / c;
        assert(block_row <= self.row - 1) by (nonlinear_arith)
            requires
                block_row == (self.row - 1) as int / (r as int),
                r > 0,
                self.row >= 1,
        ;
        assert(block_col <= self.col - 1) by (nonlinear_arith)
            requires
                block_col == (self.col - 1) as int / (c as int),
                c > 0,
                self.col >= 1,
        ;
        7 + ((block_row + block_col) % 2)
    }

    /// The row, in `1..=N`.
    #[verifier::when_used_as_spec(spec_row)]
    pub fn row(&self) -> (r: usize)
        ensures
            r == self.spec_row(),
            1 <= r <= N,
    {
        proof {
            use_type_invariant(self);
        }
        self.row
    }

    /// The column, in `1..=N`.
    #[verifier::when_used_as_spec(spec_col)]
    pub fn col(&self) -> (c: usize)
        ensures
            c == self.spec_col(),
            1 <= c <= N,
    {
        proof {
            use_type_invariant(self);
        }
        self.col
    }
}

/// The rows of a grid of cells, as sequences.
pub open spec fn rows_view(rows: Seq<Vec<usize>>) -> Seq<Seq<usize>> {
    Seq::new(rows.len(), |r: int| rows[r]@)
}

/// Whether `cells` is a square grid of the given side.
pub open spec fn is_grid(cells: Seq<Seq<usize>>, side: int) -> bool {
    &&& cells.len() == side
    &&& forall|r: int| 0 <= r < side ==> (#[trigger] cells[r]).len() == side
}

/// The value that `cells` holds at `pos`; 0 stands for an empty cell.
pub open spec fn cell_at(cells: Seq<Seq<usize>>, pos: Position) -> usize {
    cells[pos.row() - 1][pos.col() - 1]
}

/// The grid `cells` with the value at `pos` replaced by `value`.
pub open spec fn with_cell(cells: Seq<Seq<usize>>, pos: Position, value: usize) -> Seq<Seq<usize>> {
    cells.update(pos.row() - 1, cells[pos.row() - 1].update(pos.col() - 1, value))
}

/// How many cells of one row are filled.
pub open spec fn row_filled(row: Seq<usize>) -> nat
    decreases row.len(),
{
    if row.len() == 0 {
        0
    } else {
        row_filled(row.drop_last()) + if row.last() != 0 {
            1nat
        } else {
            0nat
        }
    }
}

/// How many cells of a grid are filled.
pub open spec fn count_filled(cells: Seq<Seq<usize>>) -> nat
    decreases cells.len(),
{
    if cells.len() == 0 {
        0
    } else {
        count_filled(cells.drop_last()) + row_filled(cells.last())
    }
}

/// Whether no cell of the grid is empty.
pub open spec fn all_filled(cells: Seq<Seq<usize>>) -> bool {
    forall|r: int, c: int| 0 <= r < cells.len() && 0 <= c < cells[r].len() ==> #[trigger] cells[r][c] != 0
}

/// A row holds at most as many filled cells as it has cells, and exactly
/// that many when none is empty.
pub proof fn lemma_row_filled_bound(row: Seq<usize>)
    ensures
        row_filled(row) <= row.len(),
        row_filled(row) == row.len() <==> (forall|c: int| 0 <= c < row.len() ==> #[trigger] row[c] != 0),
    decreases row.len(),
{
    if row.len() > 0 {
        let front = row.drop_last();
        lemma_row_filled_bound(front);
        assert(forall|c: int| 0 <= c < front.len() ==> front[c] == row[c]);
        if row_filled(row) == row.len() {
            assert(row.last() != 0);
            assert forall|c: int| 0 <= c < row.len() implies #[trigger] row[c] != 0 by {
                if c < front.len() {
                    assert(front[c] != 0);
                }
            }
        }
        if forall|c: int| 0 <= c < row.len() ==> #[trigger] row[c] != 0 {
            assert(row[row.len() - 1] != 0);
            assert forall|c: int| 0 <= c < front.len() implies #[trigger] front[c] != 0 by {
                assert(row[c] != 0);
            }
        }
    }
}

/// Writing one cell of a row changes its count by that cell alone.
pub proof fn lemma_row_filled_update(row: Seq<usize>, c: int, value: usize)
    requires
        0 <= c < row.len(),
    ensures
        row_filled(row.update(c, value)) + (if row[c] != 0 { 1nat } else { 0nat })
            == row_filled(row) + (if value != 0 { 1nat } else { 0nat }),
    decreases row.len(),
{
    let after = row.update(c, value);
    if c == row.len() - 1 {
        assert(after.drop_last() =~= row.drop_last());
    } else {
        lemma_row_filled_update(row.drop_last(), c, value);
        assert(after.drop_last() =~= row.drop_last().update(c, value));
    }
}

/// Replacing one row of a grid changes its count by that row alone.
pub proof fn lemma_count_filled_update(cells: Seq<Seq<usize>>, r: int, row: Seq<usize>)
    requires
        0 <= r < cells.len(),
    ensures
        count_filled(cells.update(r, row)) + row_filled(cells[r]) == count_filled(cells) + row_filled(row),
    decreases cells.len(),
{
    let after = cells.update(r, row);
    if r == cells.len() - 1 {
        assert(after.drop_last() =~= cells.drop_last());
    } else {
        lemma_count_filled_update(cells.drop_last(), r, row);
        assert(after.drop_last() =~= cells.drop_last().update(r, row));
    }
}

/// A grid whose rows all have `width` cells holds at most `len * width`
/// filled cells, and exactly that many when none is empty.
pub proof fn lemma_count_filled_bound(cells: Seq<Seq<usize>>, width: int)
    requires
        forall|r: int| 0 <= r < cells.len() ==> (#[trigger] cells[r]).len() == width,
    ensures
        count_filled(cells) <= cells.len() * width,
        count_filled(cells) == cells.len() * width <==> all_filled(cells),
    decreases cells.len(),
{
    if cells.len() > 0 {
        let front = cells.drop_last();
        let last = cells.last();
        assert(forall|r: int| 0 <= r < front.len() ==> front[r] == cells[r]);
        lemma_count_filled_bound(front, width);
        lemma_row_filled_bound(last);
        assert(cells.len() * width == front.len() * width + width) by (nonlinear_arith)
            requires
                cells.len() == front.len() + 1,
        ;
        if count_filled(cells) == cells.len() * width {
            assert(all_filled(front));
            assert forall|r: int, c: int| 0 <= r < cells.len() && 0 <= c < cells[r].len() implies #[trigger] cells[r][c] != 0 by {
                if r < front.len() {
                    assert(front[r][c] != 0);
                } else {
                    assert(last[c] != 0);
                }
            }
        }
        if all_filled(cells) {
            assert forall|r: int, c: int| 0 <= r < front.len() && 0 <= c < front[r].len() implies #[trigger] front[r][c] != 0 by {
                assert(cells[r][c] != 0);
            }
            assert forall|c: int| 0 <= c < last.len() implies #[trigger] last[c] != 0 by {
                assert(cells[cells.len() - 1][c] != 0);
            }
        }
    } else {
        assert(cells.len() * width == 0) by (nonlinear_arith)
            requires
                cells.len() == 0,
        ;
    }
}

/// Writing one cell of a grid changes its count by that cell alone.
pub proof fn lemma_with_cell_count(cells: Seq<Seq<usize>>, pos: Position, value: usize)
    requires
        1 <= pos.row() <= cells.len(),
        1 <= pos.col() <= cells[pos.row() - 1].len(),
    ensures
        count_filled(with_cell(cells, pos, value)) + (if cell_at(cells, pos) != 0 { 1nat } else { 0nat })
            == count_filled(cells) + (if value != 0 { 1nat } else { 0nat }),
{
    let r = pos.row() - 1;
    let c = pos.col() - 1;
    lemma_row_filled_update(cells[r], c, value);
    lemma_count_filled_update(cells, r, cells[r].update(c, value));
}

/// The text of one cell: `_` for an empty cell, else its number.
pub open spec fn cell_text(value: usize) -> Seq<char> {
    if value == 0 {
        "_"@
    } else {
        number_text(value)
    }
}

/// The text of the cells of a row, each followed by a blank.
pub open spec fn cells_text(row: Seq<usize>) -> Seq<char>
    decreases row.len(),
{
    if row.len() == 0 {
        Seq::empty()
    } else {
        cells_text(row.drop_last()) + cell_text(row.last()) + " "@
    }
}

/// The text of the rows of a grid, each on a line of its own.
pub open spec fn rows_text(cells: Seq<Seq<usize>>) -> Seq<char>
    decreases cells.len(),
{
    if cells.len() == 0 {
        Seq::empty()
    } else {
        rows_text(cells.drop_last()) + cells_text(cells.last()) + "\n"@
    }
}

/// The text of a grid: its rows, and an empty line after them.
pub open spec fn grid_text(cells: Seq<Seq<usize>>) -> Seq<char> {
    rows_text(cells) + "\n"@
}

/// A square grid of cell values. A cell holds 0 while it is empty, and any
/// other number once it is filled; the board itself puts no bound on the
/// numbers written to it.
#[derive(Debug)]
pub struct Board {
    side: usize,
    filled: usize,
    board: Vec<Vec<usize>>,
}

impl View for Board {
    type V = Seq<Seq<usize>>;

    /// The rows of the board, each a sequence of cell values.
    closed spec fn view(&self) -> Seq<Seq<usize>> {
        rows_view(self.board@)
    }
}

impl Clone for Board {
    /// A copy of the board that shares nothing with it.
    fn clone(&self) -> (copy: Board)
        ensures
            copy@ == self@,
            copy.spec_side() == self.spec_side(),
            copy.spec_filled() == self.spec_filled(),
    {
        let copy = Board { side: self.side, filled: self.filled, board: self.board.clone() };
        assert(copy@ =~= self@);
        copy
    }
}

impl Board {
    /// The side of the board, for use in contracts.
    pub closed spec fn spec_side(&self) -> usize {
        self.side
    }

    /// The occupancy counter of the board, for use in contracts.
    pub closed spec fn spec_filled(&self) -> usize {
        self.filled
    }

    /// The board's invariant: a square grid of its side, with the occupancy
    /// counter equal to the number of filled cells.
    pub open spec fn wf(&self) -> bool {
        &&& is_grid(self@, self.spec_side() as int)
        &&& self.spec_filled() == count_filled(self@)
        &&& self.spec_side() * self.spec_side() <= usize::MAX
    }

    /// An empty board of the given side.
    pub fn new(side: usize) -> (b: Board)
        requires
            side * side <= usize::MAX,
        ensures
            b.wf(),
            b.spec_side() == side,
            forall|r: int, c: int| 0 <= r < side && 0 <= c < side ==> b@[r][c] == 0,
    {
        let mut rows: Vec<Vec<usize>> = Vec::new();
        let mut r: usize = 0;
        while r < side
            invariant
                r <= side,
                rows@.len() == r,
                forall|i: int| 0 <= i < r ==> (#[trigger] rows@[i])@.len() == side,
                forall|i: int, j: int| 0 <= i < r && 0 <= j < side ==> (#[trigger] rows@[i]@[j]) == 0,
            decreases side - r,
        {
            let mut row: Vec<usize> = Vec::new();
            let mut c: usize = 0;
            while c < side
                invariant
                    c <= side,
                    row@.len() == c,
                    forall|j: int| 0 <= j < c ==> (#[trigger] row@[j]) == 0,
                decreases side - c,
            {
                row.push(0);
                c += 1;
            }
            rows.push(row);
            r += 1;
        }
        let b = Board { side, filled: 0, board: rows };
        proof {
            assert(is_grid(b@, side as int));
            lemma_count_filled_bound(b@, side as int);
            lemma_count_empty(b@);
        }
        b
    }

    /// The board with the given rows, as when one is read back from
    /// storage. Rows that do not make a square are refused, and so is a
    /// square with more cells than the machine can count.
    pub fn from_rows(rows: Vec<Vec<usize>>) -> (res: Option<Board>)
        ensures
            res is Some <==> is_grid(rows_view(rows@), rows@.len() as int) && rows@.len() * rows@.len() <= usize::MAX,
            res matches Some(b) ==> b.wf() && b@ == rows_view(rows@) && b.spec_side() == rows@.len(),
    {
        let side = rows.len();
        let ghost cells = rows_view(rows@);
        let mut r: usize = 0;
        while r < side
            invariant
                r <= side,
                side == rows@.len(),
                cells == rows_view(rows@),
                forall|i: int| 0 <= i < r ==> (#[trigger] cells[i]).len() == side,
            decreases side - r,
        {
            if rows[r].len() != side {
                assert(cells[r as int].len() != side);
                return None;
            }
            r += 1;
        }
        if side.checked_mul(side).is_none() {
            return None;
        }
        let mut filled: usize = 0;
        let mut r: usize = 0;
        assert(cells.subrange(0, 0) =~= Seq::<Seq<usize>>::empty());
        while r < side
            invariant
                r <= side,
                side == rows@.len(),
                side * side <= usize::MAX,
                cells == rows_view(rows@),
                is_grid(cells, side as int),
                filled == count_filled(cells.subrange(0, r as int)),
            decreases side - r,
        {
            let row = &rows[r];
            let ghost line = cells[r as int];
            assert(line == row@);
            let mut in_row: usize = 0;
            let mut c: usize = 0;
            assert(line.subrange(0, 0) =~= Seq::<usize>::empty());
            while c < side
                invariant
                    c <= side,
                    line == row@,
                    line.len() == side,
                    in_row == row_filled(line.subrange(0, c as int)),
                    in_row <= c,
                decreases side - c,
            {
                assert(line.subrange(0, c + 1).drop_last() =~= line.subrange(0, c as int));
                if row[c] != 0 {
                    in_row += 1;
                }
                c += 1;
            }
            proof {
                assert(line.subrange(0, side as int) =~= line);
                assert(cells.subrange(0, r + 1).drop_last() =~= cells.subrange(0, r as int));
                assert(cells.subrange(0, r + 1).last() == line);
                assert forall|i: int| 0 <= i < r + 1 implies (#[trigger] cells.subrange(0, r + 1)[i]).len() == side by {
                    assert(cells.subrange(0, r + 1)[i] == cells[i]);
                }
                lemma_count_filled_bound(cells.subrange(0, r + 1), side as int);
                assert((r + 1) * side <= side * side) by (nonlinear_arith)
                    requires
                        r + 1 <= side,
                ;
            }
            filled = filled + in_row;
            r += 1;
        }
        assert(cells.subrange(0, side as int) =~= cells);
        let b = Board { side, filled, board: rows };
        assert(b@ =~= cells);
        Some(b)
    }

    /// The rows of the board, each a list of cell values.
    pub fn rows(&self) -> (rows: Vec<Vec<usize>>)
        ensures
            rows_view(rows@) == self@,
    {
        let rows = self.board.clone();
        assert(rows_view(rows@) =~~= self@);
        rows
    }

    /// The board as text: one line for each row, each cell followed by a
    /// blank, `_` standing for an empty cell, and an empty line at the end.
    pub fn to_text(&self) -> (text: String)
        requires
            self.wf(),
        ensures
            text@ == grid_text(self@),
    {
        let mut text = String::new();
        let ghost cells = self@;
        let mut r: usize = 0;
        assert(cells.subrange(0, 0) =~= Seq::<Seq<usize>>::empty());
        while r < self.board.len()
            invariant
                r <= self.board@.len(),
                cells == self@,
                cells.len() == self.board@.len(),
                text@ == rows_text(cells.subrange(0, r as int)),
            decreases self.board@.len() - r,
        {
            let row = &self.board[r];
            let ghost line = cells[r as int];
            assert(line == row@);
            let ghost before = text@;
            let mut c: usize = 0;
            assert(line.subrange(0, 0) =~= Seq::<usize>::empty());
            assert(before + Seq::<char>::empty() =~= before);
            while c < row.len()
                invariant
                    c <= row@.len(),
                    line == row@,
                    text@ == before + cells_text(line.subrange(0, c as int)),
                decreases row@.len() - c,
            {
                proof {
                    assert(line.subrange(0, c + 1).drop_last() =~= line.subrange(0, c as int));
                    assert(line.subrange(0, c + 1).last() == line[c as int]);
                    assert(before + cells_text(line.subrange(0, c + 1)) =~= before + cells_text(line.subrange(0, c as int))
                        + cell_text(line[c as int]) + " "@);
                }
                if row[c] == 0 {
                    text.append("_");
                } else {
                    text.append(render_number(row[c]).as_str());
                }
                text.append(" ");
                c += 1;
            }
            proof {
                assert(line.subrange(0, line.len() as int) =~= line);
                assert(cells.subrange(0, r + 1).drop_last() =~= cells.subrange(0, r as int));
                assert(cells.subrange(0, r + 1).last() == line);
                assert(rows_text(cells.subrange(0, r + 1)) =~= before + cells_text(line) + "\n"@);
            }
            text.append("\n");
            r += 1;
        }
        assert(cells.subrange(0, cells.len() as int) =~= cells);
        text.append("\n");
        text
    }

    /// Writes `value` to the cell at `pos`; writing 0 empties the cell.
    pub fn set_value(&mut self, pos: Position, value: usize)
        requires
            old(self).wf(),
            pos.on_grid(old(self).spec_side() as int),
        ensures
            final(self).wf(),
            final(self).spec_side() == old(self).spec_side(),
            final(self)@ == with_cell(old(self)@, pos, value),
    {
        let (r, c) = pos.coords();
        assert(self@[r as int] == self.board@[r as int]@);
        let before: usize = self.board[r][c];
        proof {
            lemma_with_cell_count(self@, pos, value);
            lemma_count_filled_bound(self@, self.side as int);
            lemma_count_filled_bound(with_cell(self@, pos, value), self.side as int);
        }
        if before == 0 && value != 0 {
            self.filled = self.filled + 1;
        } else if before != 0 && value == 0 {
            self.filled = self.filled - 1;
        }
        self.board[r][c] = value;
        assert(self@ =~= with_cell(old(self)@, pos, value));
    }

    /// The value of the cell at `pos`, 0 if it is empty.
    pub fn get_value(&self, pos: Position) -> (value: usize)
        requires
            self.wf(),
            pos.on_grid(self.spec_side() as int),
        ensures
            value == cell_at(self@, pos),
    {
        let (r, c) = pos.coords();
        assert(self@[r as int] == self.board@[r as int]@);
        self.board[r][c]
    }

    /// Empties the cell at `pos`.
    pub fn clear_value(&mut self, pos: Position)
        requires
            old(self).wf(),
            pos.on_grid(old(self).spec_side() as int),
        ensures
            final(self).wf(),
            final(self).spec_side() == old(self).spec_side(),
            final(self)@ == with_cell(old(self)@, pos, 0),
    {
        self.set_value(pos, 0);
    }

    /// The side of the board.
    pub fn get_side(&self) -> (side: usize)
        ensures
            side == self.spec_side(),
    {
        self.side
    }

    /// The number of cells of the board.
    pub fn get_size(&self) -> (size: usize)
        requires
            self.wf(),
        ensures
            size == self.spec_side() * self.spec_side(),
    {
        self.side * self.side
    }

    /// Whether every cell of the board is filled.
    pub fn is_filled(&self) -> (full: bool)
        requires
            self.wf(),
        ensures
            full <==> all_filled(self@),
    {
        proof {
            lemma_count_filled_bound(self@, self.side as int);
        }
        self.filled == self.side * self.side
    }
}

/// A grid without a filled cell counts zero.
proof fn lemma_count_empty(cells: Seq<Seq<usize>>)
    requires
        forall|r: int, c: int| 0 <= r < cells.len() && 0 <= c < cells[r].len() ==> #[trigger] cells[r][c] == 0,
    ensures
        count_filled(cells) == 0,
    decreases cells.len(),
{
    if cells.len() > 0 {
        let front = cells.drop_last();
        assert forall|r: int, c: int| 0 <= r < front.len() && 0 <= c < front[r].len() implies #[trigger] front[r][c] == 0 by {
            assert(cells[r][c] == 0);
        }
        lemma_count_empty(front);
        lemma_row_empty(cells.last());
    }
}

/// A row without a filled cell counts zero.
proof fn lemma_row_empty(row: Seq<usize>)
    requires
        forall|c: int| 0 <= c < row.len() ==> #[trigger] row[c] == 0,
    ensures
        row_filled(row) == 0,
    decreases row.len(),
{
    if row.len() > 0 {
        let front = row.drop_last();
        assert forall|c: int| 0 <= c < front.len() implies #[trigger] front[c] == 0 by {
            assert(row[c] == 0);
        }
        lemma_row_empty(front);
    }
}

} // verus!
