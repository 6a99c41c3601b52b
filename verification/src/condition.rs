//! Conditions: the comparisons that a rule makes on the census of a cell.

use vstd::prelude::*;
use crate::census::{count_of, Census};

verus! {

/// A comparison operator of the condition language.
#[derive(Clone, Copy, Debug, PartialEq, Eq, Structural)]
pub enum Op {
    Eq,
    Gt,
    Ge,
    Lt,
    Le,
    Ne,
}

/// The right-hand side of a condition: the count of a state, or a number.
#[derive(Debug, PartialEq)]
pub enum CompareTo {
    State(String),
    Value(usize),
}

/// One comparison: the count of `state` against `compare_to`.
#[derive(Debug, PartialEq)]
pub struct Condition {
    pub state: String,
    pub op: Op,
    pub compare_to: CompareTo,
}

/// What a `CompareTo` holds.
pub ghost enum CompareToView {
    State(Seq<char>),
    Value(usize),
}

/// What a `Condition` holds.
pub ghost struct ConditionView {
    pub state: Seq<char>,
    pub op: Op,
    pub compare_to: CompareToView,
}

impl Op {
    /// What the operator says of two counts.
    pub open spec fn holds(self, left: int, right: int) -> bool {
        match self {
            Op::Eq => left == right,
            Op::Gt => left > right,
            Op::Ge => left >= right,
            Op::Lt => left < right,
            Op::Le => left <= right,
            Op::Ne => left != right,
        }
    }

    /// Applies the operator to two counts.
    pub fn apply(self, left: usize, right: usize) -> (yes: bool)
        ensures
            yes == self.holds(left as int, right as int),
    {
        match self {
            Op::Eq => left == right,
            Op::Gt => left > right,
            Op::Ge => left >= right,
            Op::Lt => left < right,
            Op::Le => left <= right,
            Op::Ne => left != right,
        }
    }
}

impl CompareToView {
    /// The number compared against, under a tally.
    pub open spec fn value(self, tally: Map<Seq<char>, usize>) -> int {
        match self {
            CompareToView::State(name) => count_of(tally, name) as int,
            CompareToView::Value(v) => v as int,
        }
    }
}

impl ConditionView {
    /// The condition holds under a tally. A state without an entry counts 0.
    pub open spec fn holds(self, tally: Map<Seq<char>, usize>) -> bool {
        self.op.holds(count_of(tally, self.state) as int, self.compare_to.value(tally))
    }
}

/// Every condition of the list holds under the tally.
pub open spec fn all_hold(conditions: Seq<ConditionView>, tally: Map<Seq<char>, usize>) -> bool {
    forall|i: int| 0 <= i < conditions.len() ==> (#[trigger] conditions[i]).holds(tally)
}

impl View for CompareTo {
    type V = CompareToView;

    open spec fn view(&self) -> CompareToView {
        match self {
            CompareTo::State(name) => CompareToView::State(name@),
            CompareTo::Value(v) => CompareToView::Value(*v),
        }
    }
}

impl View for Condition {
    type V = ConditionView;

    open spec fn view(&self) -> ConditionView {
        ConditionView { state: self.state@, op: self.op, compare_to: self.compare_to@ }
    }
}

/// What a list of conditions holds.
pub open spec fn conditions_view(conditions: Seq<Condition>) -> Seq<ConditionView> {
    Seq::new(conditions.len(), |i: int| conditions[i]@)
}

impl CompareTo {
    /// The number compared against, under a census.
    pub fn value(&self, census: &Census) -> (value: usize)
        ensures
            value == self@.value(census@),
    {
        match self {
            CompareTo::State(name) => census.count(name.as_str()),
            CompareTo::Value(v) => *v,
        }
    }
}

impl Condition {
    /// Whether the condition holds under a census.
    pub fn evaluate(&self, census: &Census) -> (yes: bool)
        ensures
            yes == self@.holds(census@),
    {
        let left = census.count(self.state.as_str());
        let right = self.compare_to.value(census);
        self.op.apply(left, right)
    }
}

/// Whether every condition of the list holds under a census.
pub fn evaluate_all(conditions: &Vec<Condition>, census: &Census) -> (yes: bool)
    ensures
        yes == all_hold(conditions_view(conditions@), census@),
{
    let mut i: usize = 0;
    while i < conditions.len()
        invariant
            i <= conditions.len(),
            forall|k: int| 0 <= k < i ==> (#[trigger] conditions_view(conditions@)[k]).holds(census@),
        decreases conditions.len() - i,
    {
        if !conditions[i].evaluate(census) {
            assert(!conditions_view(conditions@)[i as int].holds(census@));
            return false;
        }
        i = i + 1;
    }
    true
}

} // verus!
