//! A game: one board, the structural rules of its grid, and the custom
//! rules added to it.

use crate::board::{all_filled, cell_at, is_grid, with_cell, Board, Position, N};
use crate::rules::{all_on_grid, PermutationRule, Rule, RuleCheckResult, RuleModel, Verdict};
use vstd::arithmetic::div_mod::{lemma_fundamental_div_mod, lemma_fundamental_div_mod_converse};
use vstd::prelude::*;

verus! {

/// How many of the numbers `lo..=hi` a position can hold as a coordinate.
pub open spec fn span(lo: int, hi: int) -> int {
    let top = if hi <= N { hi } else { N as int };
    if lo <= top {
        top - lo + 1
    } else {
        0
    }
}

/// Whether `positions` lists, row by row, the cells of the rows
/// `row_lo..=row_hi` and the columns `col_lo..=col_hi` that a position can
/// name.
pub open spec fn is_box(positions: Seq<Position>, row_lo: int, row_hi: int, col_lo: int, col_hi: int) -> bool {
    let height = span(row_lo, row_hi);
    let width = span(col_lo, col_hi);
    &&& positions.len() == height * width
    &&& forall|i: int| 0 <= i < positions.len() ==> {
        &&& (#[trigger] positions[i]).row() == row_lo + i / width
        &&& positions[i].col() == col_lo + i % width
    }
}

/// How many blocks of `block` lines it takes to cover `side` lines.
pub open spec fn block_count(side: int, block: int) -> int {
    if side % block == 0 {
        side / block
    } else {
        side / block + 1
    }
}

/// The last line of the block with number `k`, on a grid of `side` lines
/// cut into blocks of `block` lines.
pub open spec fn block_end(side: int, block: int, k: int) -> int {
    if (k + 1) * block <= side {
        (k + 1) * block
    } else {
        side
    }
}

/// Whether `rule` is the structural rule with number `k` of a grid of the
/// given side, cut into blocks of `block_rows` rows and `block_cols` columns:
/// first the rows from the top, then the columns from the left, then the
/// blocks row by row. A block that the grid cuts short keeps the cells that
/// are on the grid.
pub open spec fn is_structural_rule(rule: RuleModel, k: int, side: int, block_rows: int, block_cols: int) -> bool {
    &&& rule is Permutation
    &&& rule.index() == k
    &&& if k < side {
        is_box(rule.positions(), k + 1, k + 1, 1, side)
    } else if k < 2 * side {
        is_box(rule.positions(), 1, side, k - side + 1, k - side + 1)
    } else {
        let across = block_count(side, block_cols);
        let bi = (k - 2 * side) / across;
        let bj = (k - 2 * side) % across;
        is_box(
            rule.positions(),
            bi * block_rows + 1,
            block_end(side, block_rows, bi),
            bj * block_cols + 1,
            block_end(side, block_cols, bj),
        )
    }
}

/// How many structural rules a grid has.
pub open spec fn structural_count(side: int, block_rows: int, block_cols: int) -> int {
    2 * side + block_count(side, block_rows) * block_count(side, block_cols)
}

/// Whether every position of every rule lies on a grid of the given side.
pub open spec fn rules_on_grid(rules: Seq<RuleModel>, side: int) -> bool {
    forall|k: int| 0 <= k < rules.len() ==> all_on_grid((#[trigger] rules[k]).positions(), side)
}

/// The messages of the rules whose verdict on the grid is `verdict`, in the
/// order of the rules.
pub open spec fn messages(rules: Seq<RuleModel>, cells: Seq<Seq<usize>>, side: int, verdict: Verdict) -> Seq<Seq<char>>
    decreases rules.len(),
{
    if rules.len() == 0 {
        Seq::empty()
    } else {
        let front = messages(rules.drop_last(), cells, side, verdict);
        if rules.last().verdict(cells, side) == verdict {
            front.push(rules.last().message(cells, side))
        } else {
            front
        }
    }
}

/// Whether every rule is met on the grid.
pub open spec fn all_satisfied(rules: Seq<RuleModel>, cells: Seq<Seq<usize>>, side: int) -> bool {
    forall|k: int| 0 <= k < rules.len() ==> (#[trigger] rules[k]).verdict(cells, side) == Verdict::Satisfied
}

/// The texts of a list of strings.
pub open spec fn texts(list: Seq<String>) -> Seq<Seq<char>> {
    Seq::new(list.len(), |i: int| list[i]@)
}

/// The lines of a report: each text followed by a line break.
pub open spec fn lines(list: Seq<Seq<char>>) -> Seq<char>
    decreases list.len(),
{
    if list.len() == 0 {
        Seq::empty()
    } else {
        lines(list.drop_last()) + list.last() + "\n"@
    }
}

/// No rule has the verdict exactly when the list of its messages is empty.
pub proof fn lemma_messages_empty(rules: Seq<RuleModel>, cells: Seq<Seq<usize>>, side: int, verdict: Verdict)
    ensures
        messages(rules, cells, side, verdict).len() == 0 <==> forall|k: int|
            0 <= k < rules.len() ==> (#[trigger] rules[k]).verdict(cells, side) != verdict,
    decreases rules.len(),
{
    if rules.len() > 0 {
        let front = rules.drop_last();
        lemma_messages_empty(front, cells, side, verdict);
        assert(forall|k: int| 0 <= k < front.len() ==> front[k] == rules[k]);
        if messages(rules, cells, side, verdict).len() == 0 {
            assert forall|k: int| 0 <= k < rules.len() implies (#[trigger] rules[k]).verdict(cells, side)
                != verdict by {
                if k < front.len() {
                    assert(front[k].verdict(cells, side) != verdict);
                }
            }
        } else if rules.last().verdict(cells, side) != verdict {
            let k = choose|k: int| 0 <= k < front.len() && (#[trigger] front[k]).verdict(cells, side) == verdict;
            assert(rules[k].verdict(cells, side) == verdict);
        } else {
            assert(rules[rules.len() - 1].verdict(cells, side) == verdict);
        }
    }
}


/// The cells of the rows `row_lo..=row_hi` and the columns
/// `col_lo..=col_hi` that a position can name, row by row.
fn box_positions(row_lo: usize, row_hi: usize, col_lo: usize, col_hi: usize) -> (positions: Vec<Position>)
    requires
        row_lo >= 1,
        col_lo >= 1,
    ensures
        is_box(positions@, row_lo as int, row_hi as int, col_lo as int, col_hi as int),
        forall|i: int| 0 <= i < positions@.len() ==> {
            &&& row_lo <= (#[trigger] positions@[i]).row() <= row_hi
            &&& col_lo <= positions@[i].col() <= col_hi
        },
{
    let row_top: usize = if row_hi <= N { row_hi } else { N };
    let col_top: usize = if col_hi <= N { col_hi } else { N };
    let mut positions: Vec<Position> = Vec::new();
    if row_lo > row_top || col_lo > col_top {
        assert(span(row_lo as int, row_hi as int) * span(col_lo as int, col_hi as int) == 0) by (nonlinear_arith)
            requires
                span(row_lo as int, row_hi as int) == 0 || span(col_lo as int, col_hi as int) == 0,
        ;
        return positions;
    }
    let width: usize = col_top - col_lo + 1;
    let mut r: usize = row_lo;
    assert((r - row_lo) * width == 0) by (nonlinear_arith)
        requires
            r == row_lo,
    ;
    while r <= row_top
        invariant
            1 <= row_lo <= r <= row_top + 1,
            row_top <= N,
            row_top <= row_hi,
            1 <= col_lo <= col_top <= N,
            col_top <= col_hi,
            width == col_top - col_lo + 1,
            positions@.len() == (r - row_lo) * width,
            forall|i: int| 0 <= i < positions@.len() ==> {
                &&& (#[trigger] positions@[i]).row() == row_lo + i / (width as int)
                &&& positions@[i].col() == col_lo + i % (width as int)
                &&& row_lo <= positions@[i].row() <= row_hi
                &&& col_lo <= positions@[i].col() <= col_hi
            },
        decreases row_top + 1 - r,
    {
        let mut c: usize = col_lo;
        while c <= col_top
            invariant
                1 <= row_lo <= r <= row_top <= N,
                row_top <= row_hi,
                1 <= col_lo <= c <= col_top + 1,
                col_top <= N,
                col_top <= col_hi,
                width == col_top - col_lo + 1,
                positions@.len() == (r - row_lo) * width + (c - col_lo),
                forall|i: int| 0 <= i < positions@.len() ==> {
                    &&& (#[trigger] positions@[i]).row() == row_lo + i / (width as int)
                    &&& positions@[i].col() == col_lo + i % (width as int)
                    &&& row_lo <= positions@[i].row() <= row_hi
                    &&& col_lo <= positions@[i].col() <= col_hi
                },
            decreases col_top + 1 - c,
        {
            let here = Position::new(r, c);
            proof {
                lemma_fundamental_div_mod_converse(
                    positions@.len() as int,
                    width as int,
                    r - row_lo,
                    c - col_lo,
                );
            }
            match here {
                Some(p) => {
                    positions.push(p);
                },
                None => {},
            }
            c += 1;
        }
        assert((r + 1 - row_lo) * width == (r - row_lo) * width + width) by (nonlinear_arith);
        r += 1;
    }
    positions
}

/// How many blocks of `block` lines it takes to cover `side` lines.
fn blocks_to_cover(side: usize, block: usize) -> (count: usize)
    requires
        block >= 1,
    ensures
        count == block_count(side as int, block as int),
        count <= side,
{
    proof {
        lemma_fundamental_div_mod(side as int, block as int);
        assert(side as int / (block as int) <= side) by (nonlinear_arith)
            requires
                side >= 0,
                block >= 1,
        ;
        if side % block != 0 {
            assert(side as int / (block as int) < side) by (nonlinear_arith)
                requires
                    side as int == (block as int) * (side as int / (block as int)) + (side as int % (block as int)),
                    side as int % (block as int) > 0,
                    block >= 1,
                    side as int / (block as int) >= 0,
            ;
        }
    }
    if side % block == 0 {
        side / block
    } else {
        side / block + 1
    }
}

/// The block with number `k` starts on the grid, and ends where the next
/// one would start or where the grid ends.
proof fn lemma_block_start(side: int, block: int, k: int)
    requires
        block >= 1,
        side >= 0,
        0 <= k < block_count(side, block),
    ensures
        0 <= k * block < side,
        (k + 1) * block == k * block + block,
{
    lemma_fundamental_div_mod(side, block);
    let q = side / block;
    assert(k * block <= (side / block) * block - block || (side % block != 0 && k * block <= (side / block) * block))
        by (nonlinear_arith)
        requires
            block >= 1,
            0 <= k,
            side % block == 0 ==> k <= side / block - 1,
            side % block != 0 ==> k <= side / block,
    ;
    assert(block * (side / block) == (side / block) * block) by (nonlinear_arith);
    assert(0 <= k * block) by (nonlinear_arith)
        requires
            0 <= k,
            block >= 1,
    ;
    assert((k + 1) * block == k * block + block) by (nonlinear_arith);
}

/// One board with the rules that constrain it. The rules up to the base
/// count are the structural ones, made with the game and never removed;
/// those after it are custom rules, which callers number from 0.
#[derive(Debug)]
pub struct Game {
    board: Board,
    rules: Vec<Rule>,
    base_rule_count: usize,
}

impl Clone for Game {
    /// A copy of the game that shares nothing with it.
    fn clone(&self) -> (copy: Game)
        ensures
            copy.spec_board() == self.spec_board(),
            copy.spec_side() == self.spec_side(),
            copy.spec_rules() == self.spec_rules(),
            copy.spec_base_rule_count() == self.spec_base_rule_count(),
            self.wf() ==> copy.wf(),
    {
        let copy = Game {
            board: self.board.clone(),
            rules: clone_rules(&self.rules),
            base_rule_count: self.base_rule_count,
        };
        copy
    }
}

/// The models of a list of rules.
pub open spec fn models(rules: Seq<Rule>) -> Seq<RuleModel> {
    Seq::new(rules.len(), |k: int| rules[k]@)
}

/// A copy of a list of rules.
pub fn clone_rules(rules: &Vec<Rule>) -> (copy: Vec<Rule>)
    ensures
        models(copy@) == models(rules@),
{
    let mut copy: Vec<Rule> = Vec::new();
    let mut k: usize = 0;
    while k < rules.len()
        invariant
            k <= rules.len(),
            copy@.len() == k,
            forall|j: int| 0 <= j < k ==> (#[trigger] copy@[j])@ == rules@[j]@,
        decreases rules.len() - k,
    {
        copy.push(rules[k].clone());
        k += 1;
    }
    assert(models(copy@) =~= models(rules@));
    copy
}

impl Game {
    /// The cells of the game's board, for use in contracts.
    pub closed spec fn spec_board(&self) -> Seq<Seq<usize>> {
        self.board@
    }

    /// The side of the game's board, for use in contracts.
    pub closed spec fn spec_side(&self) -> usize {
        self.board.spec_side()
    }

    /// The rules of the game in order, for use in contracts.
    pub closed spec fn spec_rules(&self) -> Seq<RuleModel> {
        models(self.rules@)
    }

    /// The number of structural rules, for use in contracts.
    pub closed spec fn spec_base_rule_count(&self) -> usize {
        self.base_rule_count
    }

    /// The game's invariant: a well-formed board, rules whose positions all
    /// lie on it, and a base count within the rule list.
    pub closed spec fn wf(&self) -> bool {
        &&& self.board.wf()
        &&& self.base_rule_count <= self.rules@.len()
        &&& rules_on_grid(models(self.rules@), self.board.spec_side() as int)
    }

    /// What the invariant says of the parts of the game.
    pub proof fn lemma_wf(&self)
        requires
            self.wf(),
        ensures
            is_grid(self.spec_board(), self.spec_side() as int),
            self.spec_side() * self.spec_side() <= usize::MAX,
            self.spec_base_rule_count() <= self.spec_rules().len(),
            rules_on_grid(self.spec_rules(), self.spec_side() as int),
    {
    }

    /// A game on an empty board of the given side, with its structural
    /// rules: one permutation rule for each row, then one for each column,
    /// then one for each block of `block_rows` rows and `block_cols` columns,
    /// numbered from 0 in that order.
    #[verifier::rlimit(50)]
    pub fn new(side: usize, block_rows: usize, block_cols: usize) -> (game: Game)
        requires
            block_rows >= 1,
            block_cols >= 1,
            side * side + 2 * side <= usize::MAX,
        ensures
            game.wf(),
            game.spec_side() == side,
            forall|r: int, c: int| 0 <= r < side && 0 <= c < side ==> game.spec_board()[r][c] == 0,
            game.spec_rules().len() == structural_count(side as int, block_rows as int, block_cols as int),
            forall|k: int| 0 <= k < game.spec_rules().len() ==> is_structural_rule(
                #[trigger] game.spec_rules()[k],
                k,
                side as int,
                block_rows as int,
                block_cols as int,
            ),
            game.spec_base_rule_count() == game.spec_rules().len(),
    {
        let down: usize = blocks_to_cover(side, block_rows);
        let across: usize = blocks_to_cover(side, block_cols);
        assert(down * across <= side * side) by (nonlinear_arith)
            requires
                down <= side,
                across <= side,
        ;
        let mut rules: Vec<Rule> = Vec::new();
        let mut rc: usize = 0;
        let mut row: usize = 1;
        while row <= side
            invariant
                1 <= row <= side + 1,
                side * side + 2 * side <= usize::MAX,
                rc == row - 1,
                rules@.len() == rc,
                rules_on_grid(models(rules@), side as int),
                forall|k: int| 0 <= k < rc ==> is_structural_rule(
                    #[trigger] models(rules@)[k],
                    k,
                    side as int,
                    block_rows as int,
                    block_cols as int,
                ),
            decreases side + 1 - row,
        {
            let positions = box_positions(row, row, 1, side);
            let rule = Rule::Permutation(PermutationRule::new(positions, rc));
            let ghost before = models(rules@);
            rules.push(rule);
            proof {
                assert(models(rules@) =~= before.push(rule@));
                assert(all_on_grid(rule@.positions(), side as int));
            }
            rc += 1;
            row += 1;
        }
        let mut col: usize = 1;
        while col <= side
            invariant
                1 <= col <= side + 1,
                side * side + 2 * side <= usize::MAX,
                rc == side + col - 1,
                rules@.len() == rc,
                rules_on_grid(models(rules@), side as int),
                forall|k: int| 0 <= k < rc ==> is_structural_rule(
                    #[trigger] models(rules@)[k],
                    k,
                    side as int,
                    block_rows as int,
                    block_cols as int,
                ),
            decreases side + 1 - col,
        {
            let positions = box_positions(1, side, col, col);
            let rule = Rule::Permutation(PermutationRule::new(positions, rc));
            let ghost before = models(rules@);
            rules.push(rule);
            proof {
                assert(models(rules@) =~= before.push(rule@));
                assert(all_on_grid(rule@.positions(), side as int));
            }
            rc += 1;
            col += 1;
        }
        let mut bi: usize = 0;
        assert(bi * across == 0) by (nonlinear_arith)
            requires
                bi == 0,
        ;
        while bi < down
            invariant
                bi <= down,
                block_rows >= 1,
                block_cols >= 1,
                down == block_count(side as int, block_rows as int),
                across == block_count(side as int, block_cols as int),
                down * across <= side * side,
                side * side + 2 * side <= usize::MAX,
                rc == 2 * side + bi * across,
                rules@.len() == rc,
                rules_on_grid(models(rules@), side as int),
                forall|k: int| 0 <= k < rc ==> is_structural_rule(
                    #[trigger] models(rules@)[k],
                    k,
                    side as int,
                    block_rows as int,
                    block_cols as int,
                ),
            decreases down - bi,
        {
            proof {
                lemma_block_start(side as int, block_rows as int, bi as int);
                assert((bi + 1) * across <= down * across) by (nonlinear_arith)
                    requires
                        bi + 1 <= down,
                        across >= 0,
                ;
                assert((bi + 1) * across == bi * across + across) by (nonlinear_arith);
            }
            let row_lo: usize = bi * block_rows + 1;
            let row_hi: usize = if block_rows <= side - bi * block_rows {
                bi * block_rows + block_rows
            } else {
                side
            };
            let mut bj: usize = 0;
            while bj < across
                invariant
                    bj <= across,
                    bi < down,
                    block_rows >= 1,
                    block_cols >= 1,
                    down == block_count(side as int, block_rows as int),
                    across == block_count(side as int, block_cols as int),
                    (bi + 1) * across <= down * across,
                    (bi + 1) * across == bi * across + across,
                    down * across <= side * side,
                    side * side + 2 * side <= usize::MAX,
                    row_lo == bi * block_rows + 1,
                    1 <= row_lo <= side,
                    row_hi == block_end(side as int, block_rows as int, bi as int),
                    row_hi <= side,
                    rc == 2 * side + bi * across + bj,
                    rules@.len() == rc,
                    rules_on_grid(models(rules@), side as int),
                    forall|k: int| 0 <= k < rc ==> is_structural_rule(
                        #[trigger] models(rules@)[k],
                        k,
                        side as int,
                        block_rows as int,
                        block_cols as int,
                    ),
                decreases across - bj,
            {
                proof {
                    lemma_block_start(side as int, block_cols as int, bj as int);
                    lemma_fundamental_div_mod_converse(rc - 2 * side, across as int, bi as int, bj as int);
                }
                let col_lo: usize = bj * block_cols + 1;
                let col_hi: usize = if block_cols <= side - bj * block_cols {
                    bj * block_cols + block_cols
                } else {
                    side
                };
                let positions = box_positions(row_lo, row_hi, col_lo, col_hi);
                let rule = Rule::Permutation(PermutationRule::new(positions, rc));
                let ghost before = models(rules@);
                rules.push(rule);
                proof {
                    assert(models(rules@) =~= before.push(rule@));
                    assert(all_on_grid(rule@.positions(), side as int));
                    assert(is_structural_rule(rule@, rc as int, side as int, block_rows as int, block_cols as int));
                }
                rc += 1;
                bj += 1;
            }
            bi += 1;
        }
        let game = Game { board: Board::new(side), rules, base_rule_count: rc };
        game
    }

    /// Appends `rule` to the rules of the game.
    pub fn add_rule(&mut self, rule: Rule)
        requires
            old(self).wf(),
            all_on_grid(rule@.positions(), old(self).spec_side() as int),
        ensures
            final(self).wf(),
            final(self).spec_rules() == old(self).spec_rules().push(rule@),
            final(self).spec_board() == old(self).spec_board(),
            final(self).spec_side() == old(self).spec_side(),
            final(self).spec_base_rule_count() == old(self).spec_base_rule_count(),
    {
        self.rules.push(rule);
        assert(models(self.rules@) =~= models(old(self).rules@).push(rule@));
    }

    /// Appends `pos` to the custom rule with number `index`.
    pub fn add_position_to_rule(&mut self, index: usize, pos: Position)
        requires
            old(self).wf(),
            old(self).spec_base_rule_count() + index < old(self).spec_rules().len(),
            pos.on_grid(old(self).spec_side() as int),
        ensures
            final(self).wf(),
            final(self).spec_rules() == old(self).spec_rules().update(
                old(self).spec_base_rule_count() + index,
                old(self).spec_rules()[old(self).spec_base_rule_count() + index].with_positions(
                    old(self).spec_rules()[old(self).spec_base_rule_count() + index].positions().push(pos),
                ),
            ),
            final(self).spec_board() == old(self).spec_board(),
            final(self).spec_side() == old(self).spec_side(),
            final(self).spec_base_rule_count() == old(self).spec_base_rule_count(),
    {
        assert(self.rules.len() == self.rules@.len());
        let at: usize = self.base_rule_count + index;
        let ghost before = models(self.rules@);
        assert(all_on_grid(before[at as int].positions(), self.board.spec_side() as int));
        self.rules[at].add_position(pos);
        proof {
            let after = before[at as int].with_positions(before[at as int].positions().push(pos));
            assert(models(self.rules@) =~= before.update(at as int, after));
            assert forall|k: int| 0 <= k < self.rules@.len() implies all_on_grid(
                (#[trigger] models(self.rules@)[k]).positions(),
                self.board.spec_side() as int,
            ) by {
                assert(all_on_grid(before[k].positions(), self.board.spec_side() as int));
            }
        }
    }

    /// Takes `pos` out of the custom rule with number `index`, where the
    /// rule's kind lets positions be taken out.
    pub fn remove_position_from_rule(&mut self, index: usize, pos: Position)
        requires
            old(self).wf(),
            old(self).spec_base_rule_count() + index < old(self).spec_rules().len(),
        ensures
            final(self).wf(),
            final(self).spec_rules() == old(self).spec_rules().update(
                old(self).spec_base_rule_count() + index,
                removal(old(self).spec_rules()[old(self).spec_base_rule_count() + index], pos),
            ),
            final(self).spec_board() == old(self).spec_board(),
            final(self).spec_side() == old(self).spec_side(),
            final(self).spec_base_rule_count() == old(self).spec_base_rule_count(),
    {
        assert(self.rules.len() == self.rules@.len());
        let at: usize = self.base_rule_count + index;
        let ghost before = models(self.rules@);
        assert(all_on_grid(before[at as int].positions(), self.board.spec_side() as int));
        self.rules[at].remove_position(pos);
        proof {
            assert(models(self.rules@) =~= before.update(at as int, removal(before[at as int], pos)));
            lemma_without_on_grid(before[at as int].positions(), pos, self.board.spec_side() as int);
            assert forall|k: int| 0 <= k < self.rules@.len() implies all_on_grid(
                (#[trigger] models(self.rules@)[k]).positions(),
                self.board.spec_side() as int,
            ) by {
                assert(all_on_grid(before[k].positions(), self.board.spec_side() as int));
            }
        }
    }

    /// A copy of the custom rule with number `index`.
    pub fn get_rule(&self, index: usize) -> (rule: Rule)
        requires
            self.wf(),
            self.spec_base_rule_count() + index < self.spec_rules().len(),
        ensures
            rule@ == self.spec_rules()[self.spec_base_rule_count() + index],
    {
        assert(self.rules.len() == self.rules@.len());
        self.rules[self.base_rule_count + index].clone()
    }

    /// Judges every rule on the board. The first list holds the messages of
    /// the broken rules, the second those of the pending ones, each in the
    /// order of the rules; a list without a message is `None`.
    pub fn check_rules(&self) -> (res: (Option<Vec<String>>, Option<Vec<String>>))
        requires
            self.wf(),
        ensures
            reports(res.0) == messages(self.spec_rules(), self.spec_board(), self.spec_side() as int, Verdict::Critical),
            reports(res.1) == messages(
                self.spec_rules(),
                self.spec_board(),
                self.spec_side() as int,
                Verdict::Unfulfilled,
            ),
            res.0 matches Some(list) ==> list@.len() > 0,
            res.1 matches Some(list) ==> list@.len() > 0,
    {
        let mut violations: Vec<String> = Vec::new();
        let mut pending: Vec<String> = Vec::new();
        let ghost rules = models(self.rules@);
        let ghost cells = self.board@;
        let ghost side = self.board.spec_side() as int;
        let mut k: usize = 0;
        while k < self.rules.len()
            invariant
                k <= self.rules@.len(),
                self.wf(),
                rules == models(self.rules@),
                cells == self.board@,
                side == self.board.spec_side() as int,
                texts(violations@) == messages(rules.subrange(0, k as int), cells, side, Verdict::Critical),
                texts(pending@) == messages(rules.subrange(0, k as int), cells, side, Verdict::Unfulfilled),
            decreases self.rules@.len() - k,
        {
            proof {
                assert(rules.subrange(0, k + 1).drop_last() =~= rules.subrange(0, k as int));
                assert(rules.subrange(0, k + 1).last() == rules[k as int]);
                assert(all_on_grid(rules[k as int].positions(), side));
            }
            let ghost seen_violations = texts(violations@);
            let ghost seen_pending = texts(pending@);
            match self.rules[k].check(&self.board) {
                RuleCheckResult::Critical(text) => {
                    violations.push(text);
                    assert(texts(violations@) =~= seen_violations.push(text@));
                },
                RuleCheckResult::Unfulfilled(text) => {
                    pending.push(text);
                    assert(texts(pending@) =~= seen_pending.push(text@));
                },
                RuleCheckResult::Satisfied => {},
            }
            k += 1;
        }
        assert(rules.subrange(0, rules.len() as int) =~= rules);
        (
            if violations.len() == 0 {
                None
            } else {
                Some(violations)
            },
            if pending.len() == 0 {
                None
            } else {
                Some(pending)
            },
        )
    }

    /// Whether the game is won: the board is full and every rule is met.
    pub fn is_won(&self) -> (won: bool)
        requires
            self.wf(),
        ensures
            won <==> all_filled(self.spec_board()) && all_satisfied(
                self.spec_rules(),
                self.spec_board(),
                self.spec_side() as int,
            ),
    {
        let (violations, pending) = self.check_rules();
        proof {
            lemma_messages_empty(self.spec_rules(), self.spec_board(), self.spec_side() as int, Verdict::Critical);
            lemma_messages_empty(
                self.spec_rules(),
                self.spec_board(),
                self.spec_side() as int,
                Verdict::Unfulfilled,
            );
        }
        violations.is_none() && pending.is_none() && self.board.is_filled()
    }

    /// A copy of the board.
    pub fn board(&self) -> (board: Board)
        requires
            self.wf(),
        ensures
            board.wf(),
            board@ == self.spec_board(),
            board.spec_side() == self.spec_side(),
    {
        self.board.clone()
    }

    /// A copy of the rules, structural ones first.
    pub fn rules(&self) -> (rules: Vec<Rule>)
        ensures
            models(rules@) == self.spec_rules(),
    {
        clone_rules(&self.rules)
    }

    /// Writes `value` to the cell at `pos`. Without a position nothing
    /// changes.
    pub fn set_value(&mut self, pos: Option<Position>, value: usize)
        requires
            old(self).wf(),
            pos matches Some(p) ==> p.on_grid(old(self).spec_side() as int),
        ensures
            final(self).wf(),
            final(self).spec_board() == match pos {
                Some(p) => with_cell(old(self).spec_board(), p, value),
                None => old(self).spec_board(),
            },
            final(self).spec_rules() == old(self).spec_rules(),
            final(self).spec_side() == old(self).spec_side(),
            final(self).spec_base_rule_count() == old(self).spec_base_rule_count(),
    {
        match pos {
            Some(p) => self.board.set_value(p, value),
            None => {},
        }
    }

    /// The value of the cell at `pos`, 0 if the cell is empty or no
    /// position is given.
    pub fn get_value(&self, pos: Option<Position>) -> (value: usize)
        requires
            self.wf(),
            pos matches Some(p) ==> p.on_grid(self.spec_side() as int),
        ensures
            value == match pos {
                Some(p) => cell_at(self.spec_board(), p),
                None => 0,
            },
    {
        match pos {
            Some(p) => self.board.get_value(p),
            None => 0,
        }
    }

    /// The side of the board.
    pub fn get_side(&self) -> (side: usize)
        ensures
            side == self.spec_side(),
    {
        self.board.get_side()
    }

    /// The number of structural rules; custom rules are numbered from there.
    pub fn get_base_rule_count(&self) -> (count: usize)
        ensures
            count == self.spec_base_rule_count(),
    {
        self.base_rule_count
    }

    /// Replaces the board of the game.
    pub fn set_board(&mut self, board: Board)
        requires
            old(self).wf(),
            board.wf(),
            rules_on_grid(old(self).spec_rules(), board.spec_side() as int),
        ensures
            final(self).wf(),
            final(self).spec_board() == board@,
            final(self).spec_side() == board.spec_side(),
            final(self).spec_rules() == old(self).spec_rules(),
            final(self).spec_base_rule_count() == old(self).spec_base_rule_count(),
    {
        self.board = board;
    }

    /// A report of the rules that are not met: a heading and the messages of
    /// the broken rules, then a heading and those of the pending ones, one
    /// message to a line.
    pub fn get_rules_state(&self) -> (state: String)
        requires
            self.wf(),
        ensures
            state@ == "Violated rules: \n"@ + lines(
                messages(self.spec_rules(), self.spec_board(), self.spec_side() as int, Verdict::Critical),
            ) + "Pending rules: \n"@ + lines(
                messages(self.spec_rules(), self.spec_board(), self.spec_side() as int, Verdict::Unfulfilled),
            ),
    {
        let (violations, pendings) = self.check_rules();
        let mut state = String::from_str("Violated rules: \n");
        append_lines(&mut state, &violations);
        state.append("Pending rules: \n");
        append_lines(&mut state, &pendings);
        state
    }

    /// A game made of the given parts, as when one is read back from
    /// storage. The parts are refused when the base count is beyond the
    /// rules or when a rule names a cell off the board.
    pub fn from_parts(board: Board, rules: Vec<Rule>, base_rule_count: usize) -> (game: Option<Game>)
        requires
            board.wf(),
        ensures
            game is Some <==> base_rule_count <= rules@.len() && rules_on_grid(
                models(rules@),
                board.spec_side() as int,
            ),
            game matches Some(g) ==> {
                &&& g.wf()
                &&& g.spec_board() == board@
                &&& g.spec_side() == board.spec_side()
                &&& g.spec_rules() == models(rules@)
                &&& g.spec_base_rule_count() == base_rule_count
            },
    {
        if base_rule_count > rules.len() {
            return None;
        }
        let side = board.get_side();
        let mut k: usize = 0;
        while k < rules.len()
            invariant
                k <= rules@.len(),
                side == board.spec_side(),
                forall|j: int| 0 <= j < k ==> all_on_grid((#[trigger] models(rules@)[j]).positions(), side as int),
            decreases rules@.len() - k,
        {
            let positions = rules[k].get_positions();
            let mut i: usize = 0;
            while i < positions.len()
                invariant
                    i <= positions@.len(),
                    k < rules@.len(),
                    side == board.spec_side(),
                    positions@ == models(rules@)[k as int].positions(),
                    forall|j: int| 0 <= j < i ==> (#[trigger] positions@[j]).on_grid(side as int),
                decreases positions@.len() - i,
            {
                if positions[i].row() > side || positions[i].col() > side {
                    assert(!positions@[i as int].on_grid(side as int));
                    assert(!all_on_grid(models(rules@)[k as int].positions(), side as int));
                    return None;
                }
                i += 1;
            }
            k += 1;
        }
        Some(Game { board, rules, base_rule_count })
    }
}

/// The rule `rule` after `pos` was taken out of it: a relation rule as it
/// was, any other without the occurrences of `pos`.
pub open spec fn removal(rule: RuleModel, pos: Position) -> RuleModel {
    if rule is Relation {
        rule
    } else {
        rule.with_positions(crate::rules::without(rule.positions(), pos))
    }
}

/// The messages that a list of `check_rules` stands for: none for `None`.
pub open spec fn reports(list: Option<Vec<String>>) -> Seq<Seq<char>> {
    match list {
        Some(v) => texts(v@),
        None => Seq::empty(),
    }
}

/// Taking a position out of a list leaves the others where they were: on
/// the grid if they were on it.
proof fn lemma_without_on_grid(positions: Seq<Position>, pos: Position, side: int)
    requires
        all_on_grid(positions, side),
    ensures
        all_on_grid(crate::rules::without(positions, pos), side),
{
    let kept = crate::rules::without(positions, pos);
    assert forall|i: int| 0 <= i < kept.len() implies (#[trigger] kept[i]).on_grid(side) by {
        assert(kept.contains(kept[i]));
        positions.lemma_filter_contains_rev(crate::rules::other_than(pos), kept[i]);
        let j = choose|j: int| 0 <= j < positions.len() && positions[j] == kept[i];
        assert(positions[j].on_grid(side));
    }
}

/// Appends each message of the list to `state`, followed by a line break.
fn append_lines(state: &mut String, list: &Option<Vec<String>>)
    ensures
        final(state)@ == old(state)@ + lines(reports(*list)),
{
    match list {
        Some(v) => {
            let mut i: usize = 0;
            assert(texts(v@).subrange(0, 0) =~= Seq::<Seq<char>>::empty());
            assert(old(state)@ + lines(Seq::<Seq<char>>::empty()) =~= old(state)@);
            while i < v.len()
                invariant
                    i <= v@.len(),
                    state@ == old(state)@ + lines(texts(v@).subrange(0, i as int)),
                decreases v@.len() - i,
            {
                proof {
                    let all = texts(v@);
                    assert(all.subrange(0, i + 1).drop_last() =~= all.subrange(0, i as int));
                    assert(all.subrange(0, i + 1).last() == v@[i as int]@);
                    assert(old(state)@ + lines(all.subrange(0, i + 1)) =~= old(state)@ + lines(
                        all.subrange(0, i as int),
                    ) + v@[i as int]@ + "\n"@);
                }
                state.append(v[i].as_str());
                state.append("\n");
                i += 1;
            }
            assert(texts(v@).subrange(0, v@.len() as int) =~= texts(v@));
        },
        None => {
            assert(old(state)@ + lines(Seq::<Seq<char>>::empty()) =~= old(state)@);
        },
    }
}

} // verus!
