//! The three kinds of rule and their three-way verdict on a board.

use crate::board::{cell_at, Board, Position};
use crate::text::{number_text, positions_text, render_number, render_positions};
use vstd::prelude::*;

verus! {

/// What a rule says of a board: broken for good, not yet met, or met.
#[derive(Clone, Copy, Debug, PartialEq, Eq, Structural)]
pub enum Verdict {
    Critical,
    Unfulfilled,
    Satisfied,
}

/// The outcome of checking a rule, with a diagnostic message where the rule
/// is not met.
#[derive(Debug)]
pub enum RuleCheckResult {
    Critical(String),
    Unfulfilled(String),
    Satisfied,
}

impl RuleCheckResult {
    /// The verdict that this outcome carries, for use in contracts.
    pub open spec fn spec_verdict(&self) -> Verdict {
        match self {
            RuleCheckResult::Critical(_) => Verdict::Critical,
            RuleCheckResult::Unfulfilled(_) => Verdict::Unfulfilled,
            RuleCheckResult::Satisfied => Verdict::Satisfied,
        }
    }

    /// The message that this outcome carries, empty when the rule is met.
    pub open spec fn spec_message(&self) -> Seq<char> {
        match self {
            RuleCheckResult::Critical(text) => text@,
            RuleCheckResult::Unfulfilled(text) => text@,
            RuleCheckResult::Satisfied => Seq::empty(),
        }
    }

    /// The verdict that this outcome carries.
    #[verifier::when_used_as_spec(spec_verdict)]
    pub fn verdict(&self) -> (v: Verdict)
        ensures
            v == self.spec_verdict(),
    {
        match self {
            RuleCheckResult::Critical(_) => Verdict::Critical,
            RuleCheckResult::Unfulfilled(_) => Verdict::Unfulfilled,
            RuleCheckResult::Satisfied => Verdict::Satisfied,
        }
    }
}

/// Whether every position of the list lies on a grid of the given side.
pub open spec fn all_on_grid(positions: Seq<Position>, side: int) -> bool {
    forall|i: int| 0 <= i < positions.len() ==> (#[trigger] positions[i]).on_grid(side)
}

/// The values that a grid holds at the listed positions, in the list's order.
pub open spec fn values_at(cells: Seq<Seq<usize>>, positions: Seq<Position>) -> Seq<usize> {
    Seq::new(positions.len(), |i: int| cell_at(cells, positions[i]))
}

/// The sum of a sequence of values.
pub open spec fn sum_of(values: Seq<usize>) -> nat
    decreases values.len(),
{
    if values.len() == 0 {
        0
    } else {
        sum_of(values.drop_last()) + values.last() as nat
    }
}

/// Whether two different places of the sequence hold the same filled value.
pub open spec fn repeats_value(values: Seq<usize>) -> bool {
    exists|i: int, j: int| 0 <= i < j < values.len() && values[i] != 0 && #[trigger] values[i] == #[trigger] values[j]
}

/// Whether some place of the sequence is empty.
pub open spec fn has_empty(values: Seq<usize>) -> bool {
    exists|i: int| 0 <= i < values.len() && #[trigger] values[i] == 0
}

/// Whether every number of `1..=side` occurs in the sequence.
pub open spec fn covers(values: Seq<usize>, side: int) -> bool {
    forall|v: usize| 1 <= v <= side ==> #[trigger] values.contains(v)
}

/// The verdict of a sum rule with the given target on the values of its
/// cells: an empty cell counts as 0, and only the total is looked at.
pub open spec fn sum_verdict(values: Seq<usize>, target: usize) -> Verdict {
    if sum_of(values) > target {
        Verdict::Critical
    } else if sum_of(values) < target {
        Verdict::Unfulfilled
    } else {
        Verdict::Satisfied
    }
}

/// The verdict of a permutation rule on the values of its cells, on a board
/// of the given side. A rule that does not span `side` cells is not judged.
/// One that does is broken by a repeated value, pending while a cell is
/// empty, and met when its cells hold each of `1..=side`.
pub open spec fn permutation_verdict(values: Seq<usize>, side: int) -> Verdict {
    if values.len() != side {
        Verdict::Satisfied
    } else if repeats_value(values) {
        Verdict::Critical
    } else if has_empty(values) {
        Verdict::Unfulfilled
    } else if covers(values, side) {
        Verdict::Satisfied
    } else {
        Verdict::Critical
    }
}

/// Whether `least` is the smallest of the values.
pub open spec fn is_least(values: Seq<usize>, least: int) -> bool {
    &&& exists|i: int| 0 <= i < values.len() && #[trigger] values[i] == least
    &&& forall|i: int| 0 <= i < values.len() ==> #[trigger] values[i] >= least
}

/// Whether `greatest` is the largest of the values.
pub open spec fn is_greatest(values: Seq<usize>, greatest: int) -> bool {
    &&& exists|i: int| 0 <= i < values.len() && #[trigger] values[i] == greatest
    &&& forall|i: int| 0 <= i < values.len() ==> #[trigger] values[i] <= greatest
}

/// Of `side` different filled values, each of `1..=side` occurs exactly
/// when none of them lies beyond `side`.
pub proof fn lemma_covers_within(values: Seq<usize>, side: int)
    requires
        values.len() == side,
        side <= usize::MAX,
        !repeats_value(values),
        !has_empty(values),
    ensures
        covers(values, side) <==> (forall|i: int| 0 <= i < values.len() ==> #[trigger] values[i] <= side),
{
    let ints = Seq::new(values.len(), |i: int| values[i] as int);
    assert forall|i: int, j: int| 0 <= i < ints.len() && 0 <= j < ints.len() && i != j implies ints[i] != ints[j] by {
        if i < j {
            assert(!(values[i] != 0 && values[i] == values[j]));
        } else {
            assert(!(values[j] != 0 && values[j] == values[i]));
        }
        assert(values[i] != 0 && values[j] != 0);
    }
    ints.unique_seq_to_set();
    let held = ints.to_set();
    let wanted = vstd::set_lib::set_int_range(1, side + 1);
    vstd::set_lib::lemma_int_range(1, side + 1);
    assert(held.finite());
    if covers(values, side) {
        assert forall|v: int| wanted.contains(v) implies held.contains(v) by {
            assert(values.contains(v as usize));
            let i = choose|i: int| 0 <= i < values.len() && values[i] == v as usize;
            assert(ints[i] == v);
        }
        vstd::set_lib::lemma_subset_equality(wanted, held);
        assert forall|i: int| 0 <= i < values.len() implies #[trigger] values[i] <= side by {
            assert(ints[i] == values[i]);
            assert(held.contains(ints[i]));
        }
    }
    if forall|i: int| 0 <= i < values.len() ==> #[trigger] values[i] <= side {
        assert forall|v: int| held.contains(v) implies wanted.contains(v) by {
            let i = choose|i: int| 0 <= i < ints.len() && ints[i] == v;
            assert(values[i] != 0);
            assert(values[i] <= side);
        }
        vstd::set_lib::lemma_subset_equality(held, wanted);
        assert forall|v: usize| 1 <= v <= side implies #[trigger] values.contains(v) by {
            assert(wanted.contains(v as int));
            assert(held.contains(v as int));
            let i = choose|i: int| 0 <= i < ints.len() && ints[i] == v as int;
            assert(values[i] == v);
        }
    }
}

/// A permutation rule whose cells are all filled with different values is
/// met exactly when the smallest of them is 1 and the largest is the side
/// of the board.
pub proof fn lemma_permutation_by_extremes(values: Seq<usize>, side: int)
    requires
        1 <= side <= usize::MAX,
        values.len() == side,
        !repeats_value(values),
        !has_empty(values),
    ensures
        permutation_verdict(values, side) == Verdict::Satisfied <==> is_least(values, 1) && is_greatest(values, side),
{
    lemma_covers_within(values, side);
    if covers(values, side) {
        assert(values.contains(1usize));
        assert(values.contains(side as usize));
        let i = choose|i: int| 0 <= i < values.len() && values[i] == 1usize;
        let j = choose|j: int| 0 <= j < values.len() && values[j] == side as usize;
        assert(values[i] == 1 && values[j] == side);
        assert forall|k: int| 0 <= k < values.len() implies #[trigger] values[k] >= 1 by {
            assert(values[k] != 0);
        }
    }
}

/// The verdict of a relation rule on the values of its cells. A rule that
/// does not name two cells is not judged. One that does is pending while
/// either is empty, and met when the first is less than the second.
pub open spec fn relation_verdict(values: Seq<usize>) -> Verdict {
    if values.len() != 2 {
        Verdict::Satisfied
    } else if values[0] == 0 || values[1] == 0 {
        Verdict::Unfulfilled
    } else if values[0] >= values[1] {
        Verdict::Critical
    } else {
        Verdict::Satisfied
    }
}


/// What a rule is, apart from how it is stored: its kind, its positions in
/// order, its stable index, and for a sum rule its target.
pub enum RuleModel {
    Sum { positions: Seq<Position>, target: usize, index: usize },
    Permutation { positions: Seq<Position>, index: usize },
    Relation { positions: Seq<Position>, index: usize },
}

impl RuleModel {
    /// The positions of the rule, in order.
    pub open spec fn positions(self) -> Seq<Position> {
        match self {
            RuleModel::Sum { positions, .. } => positions,
            RuleModel::Permutation { positions, .. } => positions,
            RuleModel::Relation { positions, .. } => positions,
        }
    }

    /// The stable index of the rule.
    pub open spec fn index(self) -> usize {
        match self {
            RuleModel::Sum { index, .. } => index,
            RuleModel::Permutation { index, .. } => index,
            RuleModel::Relation { index, .. } => index,
        }
    }

    /// The rule with its positions replaced.
    pub open spec fn with_positions(self, positions: Seq<Position>) -> RuleModel {
        match self {
            RuleModel::Sum { target, index, .. } => RuleModel::Sum { positions, target, index },
            RuleModel::Permutation { index, .. } => RuleModel::Permutation { positions, index },
            RuleModel::Relation { index, .. } => RuleModel::Relation { positions, index },
        }
    }

    /// The verdict of the rule on a grid of the given side.
    pub open spec fn verdict(self, cells: Seq<Seq<usize>>, side: int) -> Verdict {
        match self {
            RuleModel::Sum { positions, target, .. } => sum_verdict(values_at(cells, positions), target),
            RuleModel::Permutation { positions, .. } => permutation_verdict(values_at(cells, positions), side),
            RuleModel::Relation { positions, .. } => relation_verdict(values_at(cells, positions)),
        }
    }

    /// The message that goes with the rule's verdict on a grid of the given
    /// side, empty when the rule is met.
    pub open spec fn message(self, cells: Seq<Seq<usize>>, side: int) -> Seq<char> {
        match self {
            RuleModel::Sum { positions, target, .. } => {
                if self.verdict(cells, side) == Verdict::Satisfied {
                    Seq::empty()
                } else {
                    sum_message(positions, target, shown_sum(values_at(cells, positions)))
                }
            },
            RuleModel::Permutation { positions, .. } => match self.verdict(cells, side) {
                Verdict::Critical => permutation_message(positions),
                Verdict::Unfulfilled => permutation_message(positions) + ", (elements are missing)"@,
                Verdict::Satisfied => Seq::empty(),
            },
            RuleModel::Relation { positions, .. } => match self.verdict(cells, side) {
                Verdict::Critical => relation_message(positions) + " should be in increasing order"@,
                Verdict::Unfulfilled => relation_message(positions) + " are not both filled"@,
                Verdict::Satisfied => Seq::empty(),
            },
        }
    }
}

/// The total of the values as a message shows it: the sum, or the largest
/// number of the machine where the sum is beyond it.
pub open spec fn shown_sum(values: Seq<usize>) -> usize {
    if sum_of(values) > usize::MAX {
        usize::MAX
    } else {
        sum_of(values) as usize
    }
}

/// The message of a sum rule that is not met.
pub open spec fn sum_message(positions: Seq<Position>, target: usize, shown: usize) -> Seq<char> {
    "(sum): positions "@ + positions_text(positions) + " should sum to "@ + number_text(target)
        + ", currently "@ + number_text(shown)
}

/// The message of a broken permutation rule, and the start of that of a
/// pending one.
pub open spec fn permutation_message(positions: Seq<Position>) -> Seq<char> {
    "(permutation): positions "@ + positions_text(positions) + " should be a permutation"@
}

/// The start of the message of a relation rule that is not met.
pub open spec fn relation_message(positions: Seq<Position>) -> Seq<char> {
    "(relation): positions "@ + positions_text(positions)
}

/// The sum of a sequence grows by the element pushed to it.
pub proof fn lemma_sum_of_prefix(values: Seq<usize>, i: int)
    requires
        0 <= i < values.len(),
    ensures
        sum_of(values.subrange(0, i + 1)) == sum_of(values.subrange(0, i)) + values[i],
{
    assert(values.subrange(0, i + 1).drop_last() =~= values.subrange(0, i));
}

/// The values that the board holds at the listed positions.
pub fn collect_values(positions: &Vec<Position>, board: &Board) -> (values: Vec<usize>)
    requires
        board.wf(),
        all_on_grid(positions@, board.spec_side() as int),
    ensures
        values@ == values_at(board@, positions@),
{
    let mut values: Vec<usize> = Vec::new();
    let mut i: usize = 0;
    while i < positions.len()
        invariant
            i <= positions.len(),
            board.wf(),
            all_on_grid(positions@, board.spec_side() as int),
            values@.len() == i,
            forall|k: int| 0 <= k < i ==> #[trigger] values@[k] == cell_at(board@, positions@[k]),
        decreases positions.len() - i,
    {
        values.push(board.get_value(positions[i]));
        i += 1;
    }
    assert(values@ =~= values_at(board@, positions@));
    values
}

/// Whether `x` occurs among the values.
pub fn contains_value(values: &Vec<usize>, x: usize) -> (found: bool)
    ensures
        found == values@.contains(x),
{
    let mut i: usize = 0;
    while i < values.len()
        invariant
            i <= values.len(),
            forall|k: int| 0 <= k < i ==> values@[k] != x,
        decreases values.len() - i,
    {
        if values[i] == x {
            return true;
        }
        i += 1;
    }
    false
}

/// Whether a filled value occurs at two places of the list.
fn find_repeat(values: &Vec<usize>) -> (found: bool)
    ensures
        found == repeats_value(values@),
{
    let mut j: usize = 0;
    while j < values.len()
        invariant
            j <= values.len(),
            forall|a: int, b: int| 0 <= a < b < j && values@[a] != 0 ==> values@[a] != values@[b],
        decreases values.len() - j,
    {
        let mut i: usize = 0;
        while i < j
            invariant
                i <= j < values.len(),
                forall|a: int| 0 <= a < i && values@[a] != 0 ==> values@[a] != values@[j as int],
            decreases j - i,
        {
            if values[i] != 0 && values[i] == values[j] {
                return true;
            }
            i += 1;
        }
        j += 1;
    }
    false
}

/// Whether every number of `1..=side` occurs among the values.
fn holds_all(values: &Vec<usize>, side: usize) -> (all: bool)
    ensures
        all == covers(values@, side as int),
{
    let mut v: usize = 0;
    while v < side
        invariant
            v <= side,
            forall|w: usize| 1 <= w <= v ==> #[trigger] values@.contains(w),
        decreases side - v,
    {
        v += 1;
        if !contains_value(values, v) {
            return false;
        }
    }
    true
}

/// The total of the values, cut off at the largest number of the machine,
/// and whether the total is beyond that number.
fn total_of(values: &Vec<usize>) -> (res: (usize, bool))
    ensures
        res.0 == shown_sum(values@),
        res.1 == (sum_of(values@) > usize::MAX),
{
    let mut total: usize = 0;
    let mut beyond = false;
    let mut i: usize = 0;
    while i < values.len()
        invariant
            i <= values.len(),
            total == shown_sum(values@.subrange(0, i as int)),
            beyond == (sum_of(values@.subrange(0, i as int)) > usize::MAX),
        decreases values.len() - i,
    {
        proof {
            lemma_sum_of_prefix(values@, i as int);
        }
        let v: usize = values[i];
        if beyond || v > usize::MAX - total {
            total = usize::MAX;
            beyond = true;
        } else {
            total = total + v;
        }
        i += 1;
    }
    assert(values@.subrange(0, values@.len() as int) =~= values@);
    (total, beyond)
}

/// A rule on the sum of the values of its cells.
#[derive(Debug)]
pub struct SumRule {
    pub positions: Vec<Position>,
    pub sum: usize,
    index: usize,
}

impl View for SumRule {
    type V = RuleModel;

    closed spec fn view(&self) -> RuleModel {
        RuleModel::Sum { positions: self.positions@, target: self.sum, index: self.index }
    }
}

impl Clone for SumRule {
    fn clone(&self) -> (copy: SumRule)
        ensures
            copy@ == self@,
    {
        SumRule { positions: self.positions.clone(), sum: self.sum, index: self.index }
    }
}

impl SumRule {
    /// A sum rule over `positions` with target `sum` and stable index `index`.
    pub fn new(positions: Vec<Position>, sum: usize, index: usize) -> (rule: SumRule)
        ensures
            rule@ == (RuleModel::Sum { positions: positions@, target: sum, index }),
    {
        SumRule { positions, sum, index }
    }

    /// The target of the rule.
    pub fn get_sum(&self) -> (sum: usize)
        ensures
            self@ matches RuleModel::Sum { target, .. } && sum == target,
    {
        self.sum
    }

    /// Judges the rule on the board: broken when the values of its cells sum
    /// to more than the target, pending when to less, met when to the target,
    /// whether or not every cell is filled.
    pub fn check(&self, board: &Board) -> (res: RuleCheckResult)
        requires
            board.wf(),
            all_on_grid(self@.positions(), board.spec_side() as int),
        ensures
            res.spec_verdict() == self@.verdict(board@, board.spec_side() as int),
            res.spec_message() == self@.message(board@, board.spec_side() as int),
    {
        let values = collect_values(&self.positions, board);
        let (total, beyond) = total_of(&values);
        if !beyond && total == self.sum {
            RuleCheckResult::Satisfied
        } else {
            let mut text = String::from_str("(sum): positions ");
            text.append(render_positions(&self.positions).as_str());
            text.append(" should sum to ");
            text.append(render_number(self.sum).as_str());
            text.append(", currently ");
            text.append(render_number(total).as_str());
            if !beyond && total < self.sum {
                RuleCheckResult::Unfulfilled(text)
            } else {
                RuleCheckResult::Critical(text)
            }
        }
    }
}


/// A rule that its cells, once filled, hold each of `1..=side` exactly once.
#[derive(Debug)]
pub struct PermutationRule {
    pub positions: Vec<Position>,
    index: usize,
}

impl View for PermutationRule {
    type V = RuleModel;

    closed spec fn view(&self) -> RuleModel {
        RuleModel::Permutation { positions: self.positions@, index: self.index }
    }
}

impl Clone for PermutationRule {
    fn clone(&self) -> (copy: PermutationRule)
        ensures
            copy@ == self@,
    {
        PermutationRule { positions: self.positions.clone(), index: self.index }
    }
}

impl PermutationRule {
    /// A permutation rule over `positions` with stable index `index`.
    pub fn new(positions: Vec<Position>, index: usize) -> (rule: PermutationRule)
        ensures
            rule@ == (RuleModel::Permutation { positions: positions@, index }),
    {
        PermutationRule { positions, index }
    }

    /// Judges the rule on the board. A rule that does not span as many cells
    /// as the board has rows is met. Otherwise it is broken when two of its
    /// cells hold the same value, else pending while one of them is empty,
    /// else met when they hold each of `1..=side`, and broken when not.
    pub fn check(&self, board: &Board) -> (res: RuleCheckResult)
        requires
            board.wf(),
            all_on_grid(self@.positions(), board.spec_side() as int),
        ensures
            res.spec_verdict() == self@.verdict(board@, board.spec_side() as int),
            res.spec_message() == self@.message(board@, board.spec_side() as int),
    {
        let side = board.get_side();
        if self.positions.len() != side {
            return RuleCheckResult::Satisfied;
        }
        let values = collect_values(&self.positions, board);
        let repeated = find_repeat(&values);
        let pending = !repeated && contains_value(&values, 0);
        if !repeated && !pending && holds_all(&values, side) {
            return RuleCheckResult::Satisfied;
        }
        let mut text = String::from_str("(permutation): positions ");
        text.append(render_positions(&self.positions).as_str());
        text.append(" should be a permutation");
        if pending {
            text.append(", (elements are missing)");
            RuleCheckResult::Unfulfilled(text)
        } else {
            RuleCheckResult::Critical(text)
        }
    }
}

/// A rule that the first of its two cells holds less than the second.
#[derive(Debug)]
pub struct RelationRule {
    pub positions: Vec<Position>,
    index: usize,
}

impl View for RelationRule {
    type V = RuleModel;

    closed spec fn view(&self) -> RuleModel {
        RuleModel::Relation { positions: self.positions@, index: self.index }
    }
}

impl Clone for RelationRule {
    fn clone(&self) -> (copy: RelationRule)
        ensures
            copy@ == self@,
    {
        RelationRule { positions: self.positions.clone(), index: self.index }
    }
}

impl RelationRule {
    /// A relation rule with stable index `index` that names no cell yet.
    pub fn new(index: usize) -> (rule: RelationRule)
        ensures
            rule@ == (RuleModel::Relation { positions: Seq::empty(), index }),
    {
        RelationRule { positions: Vec::new(), index }
    }

    /// Appends `pos` to the positions of the rule.
    pub fn add_position(&mut self, pos: Position)
        ensures
            final(self)@ == old(self)@.with_positions(old(self)@.positions().push(pos)),
    {
        self.positions.push(pos);
    }

    /// Judges the rule on the board. A rule that does not name two cells is
    /// met. Otherwise it is pending while either cell is empty, broken when
    /// the first holds no less than the second, and met when it holds less.
    pub fn check(&self, board: &Board) -> (res: RuleCheckResult)
        requires
            board.wf(),
            all_on_grid(self@.positions(), board.spec_side() as int),
        ensures
            res.spec_verdict() == self@.verdict(board@, board.spec_side() as int),
            res.spec_message() == self@.message(board@, board.spec_side() as int),
    {
        if self.positions.len() != 2 {
            return RuleCheckResult::Satisfied;
        }
        let first = board.get_value(self.positions[0]);
        let second = board.get_value(self.positions[1]);
        if first != 0 && second != 0 && first < second {
            return RuleCheckResult::Satisfied;
        }
        let mut text = String::from_str("(relation): positions ");
        text.append(render_positions(&self.positions).as_str());
        if first == 0 || second == 0 {
            text.append(" are not both filled");
            RuleCheckResult::Unfulfilled(text)
        } else {
            text.append(" should be in increasing order");
            RuleCheckResult::Critical(text)
        }
    }
}

/// The test that a position is not `pos`.
pub open spec fn other_than(pos: Position) -> spec_fn(Position) -> bool {
    |p: Position| p != pos
}

/// The positions of the list other than `pos`, in the list's order.
pub open spec fn without(positions: Seq<Position>, pos: Position) -> Seq<Position> {
    positions.filter(other_than(pos))
}

/// The positions of the list other than `pos`, in the list's order.
fn without_position(positions: &Vec<Position>, pos: Position) -> (kept: Vec<Position>)
    ensures
        kept@ == without(positions@, pos),
{
    let mut kept: Vec<Position> = Vec::new();
    let mut i: usize = 0;
    proof {
        reveal(Seq::filter);
    }
    while i < positions.len()
        invariant
            i <= positions.len(),
            kept@ == without(positions@.subrange(0, i as int), pos),
        decreases positions.len() - i,
    {
        proof {
            reveal(Seq::filter);
            assert(positions@.subrange(0, i + 1).drop_last() =~= positions@.subrange(0, i as int));
        }
        if positions[i] != pos {
            kept.push(positions[i]);
        }
        i += 1;
    }
    assert(positions@.subrange(0, positions@.len() as int) =~= positions@);
    kept
}

/// A constraint on a board: a sum, a permutation or a relation.
#[derive(Debug)]
pub enum Rule {
    Sum(SumRule),
    Permutation(PermutationRule),
    Relation(RelationRule),
}

impl View for Rule {
    type V = RuleModel;

    open spec fn view(&self) -> RuleModel {
        match self {
            Rule::Sum(r) => r@,
            Rule::Permutation(r) => r@,
            Rule::Relation(r) => r@,
        }
    }
}

impl Clone for Rule {
    fn clone(&self) -> (copy: Rule)
        ensures
            copy@ == self@,
    {
        match self {
            Rule::Sum(r) => Rule::Sum(r.clone()),
            Rule::Permutation(r) => Rule::Permutation(r.clone()),
            Rule::Relation(r) => Rule::Relation(r.clone()),
        }
    }
}

impl Rule {
    /// Judges the rule on the board, as its kind does.
    pub fn check(&self, board: &Board) -> (res: RuleCheckResult)
        requires
            board.wf(),
            all_on_grid(self@.positions(), board.spec_side() as int),
        ensures
            res.spec_verdict() == self@.verdict(board@, board.spec_side() as int),
            res.spec_message() == self@.message(board@, board.spec_side() as int),
    {
        match self {
            Rule::Sum(r) => r.check(board),
            Rule::Permutation(r) => r.check(board),
            Rule::Relation(r) => r.check(board),
        }
    }

    /// The positions of the rule, in order.
    pub fn get_positions(&self) -> (positions: Vec<Position>)
        ensures
            positions@ == self@.positions(),
    {
        match self {
            Rule::Sum(r) => r.positions.clone(),
            Rule::Permutation(r) => r.positions.clone(),
            Rule::Relation(r) => r.positions.clone(),
        }
    }

    /// Appends `pos` to the positions of the rule.
    pub fn add_position(&mut self, pos: Position)
        ensures
            final(self)@ == old(self)@.with_positions(old(self)@.positions().push(pos)),
    {
        match self {
            Rule::Sum(r) => r.positions.push(pos),
            Rule::Permutation(r) => r.positions.push(pos),
            Rule::Relation(r) => r.positions.push(pos),
        }
    }

    /// Takes every occurrence of `pos` out of a sum or a permutation rule. A
    /// relation rule keeps its positions.
    pub fn remove_position(&mut self, pos: Position)
        ensures
            old(self)@ is Relation ==> final(self)@ == old(self)@,
            !(old(self)@ is Relation) ==> final(self)@ == old(self)@.with_positions(
                without(old(self)@.positions(), pos),
            ),
    {
        match self {
            Rule::Sum(r) => {
                r.positions = without_position(&r.positions, pos);
            },
            Rule::Permutation(r) => {
                r.positions = without_position(&r.positions, pos);
            },
            Rule::Relation(_) => {},
        }
    }

    /// Whether the rule is a permutation rule.
    pub fn is_permutation(&self) -> (yes: bool)
        ensures
            yes == (self@ is Permutation),
    {
        match self {
            Rule::Permutation(_) => true,
            _ => false,
        }
    }

    /// Whether the rule is a relation rule.
    pub fn is_relation(&self) -> (yes: bool)
        ensures
            yes == (self@ is Relation),
    {
        match self {
            Rule::Relation(_) => true,
            _ => false,
        }
    }

    /// The target of a sum rule; a rule of another kind has none.
    pub fn get_sum(&self) -> (sum: Option<usize>)
        ensures
            sum == match self@ {
                RuleModel::Sum { target, .. } => Some(target),
                _ => None,
            },
    {
        match self {
            Rule::Sum(r) => Some(r.get_sum()),
            Rule::Permutation(r) => {
                assert(r@ is Permutation);
                None
            },
            Rule::Relation(r) => {
                assert(r@ is Relation);
                None
            },
        }
    }

    /// The stable index of the rule.
    pub fn get_index(&self) -> (index: usize)
        ensures
            index == self@.index(),
    {
        match self {
            Rule::Sum(r) => r.index,
            Rule::Permutation(r) => r.index,
            Rule::Relation(r) => r.index,
        }
    }
}

} // verus!
