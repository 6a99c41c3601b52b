//! The states of a ruleset: the rules by which a cell in a state passes to
//! the next.

use vstd::prelude::*;
use crate::census::Census;
use crate::colour::{ColourView, RulesetColour};
use crate::condition::{all_hold, conditions_view, evaluate_all, Condition, ConditionView};
use crate::rule_parsing::{parse_rule, rule_conditions, ParseError, ParseErrorView};

verus! {

/// What a rule does to a cell: the state it puts the cell in, and the colour
/// it paints the cell, where that is not the colour of the state.
#[derive(Debug, PartialEq)]
pub struct RulesetOutcome {
    pub next: String,
    pub paint: Option<RulesetColour>,
}

/// What a `RulesetOutcome` holds.
pub ghost struct OutcomeView {
    pub next: Seq<char>,
    pub paint: Option<ColourView>,
}

impl View for RulesetOutcome {
    type V = OutcomeView;

    open spec fn view(&self) -> OutcomeView {
        OutcomeView {
            next: self.next@,
            paint: match self.paint {
                Some(colour) => Some(colour@),
                None => None,
            },
        }
    }
}

impl Clone for RulesetOutcome {
    fn clone(&self) -> (copy: Self)
        ensures
            copy@ == self@,
    {
        RulesetOutcome {
            next: self.next.clone(),
            paint: match &self.paint {
                Some(colour) => Some(colour.clone()),
                None => None,
            },
        }
    }
}

/// What an optional outcome holds.
pub open spec fn outcome_view(outcome: Option<RulesetOutcome>) -> Option<OutcomeView> {
    match outcome {
        Some(o) => Some(o@),
        None => None,
    }
}

/// A rule ready to be evaluated: its conditions, and its outcome.
pub ghost struct RuleView {
    pub conditions: Seq<ConditionView>,
    pub outcome: OutcomeView,
}

/// One state of a ruleset: its colour, its rules as they are written, in the
/// order in which they are declared, what happens to a cell when no rule
/// fires, and the rules as `parse_rules` has read them.
#[derive(Debug)]
pub struct RulesetState {
    pub colour: RulesetColour,
    pub rules: Vec<(String, RulesetOutcome)>,
    pub otherwise: Option<RulesetOutcome>,
    pub parsed_rules: Vec<(Vec<Condition>, RulesetOutcome)>,
}

/// What a `RulesetState` holds.
pub ghost struct StateView {
    pub colour: ColourView,
    pub rules: Seq<(Seq<char>, OutcomeView)>,
    pub otherwise: Option<OutcomeView>,
    pub parsed_rules: Seq<RuleView>,
}

impl View for RulesetState {
    type V = StateView;

    open spec fn view(&self) -> StateView {
        StateView {
            colour: self.colour@,
            rules: Seq::new(self.rules@.len(), |i: int| (self.rules@[i].0@, self.rules@[i].1@)),
            otherwise: outcome_view(self.otherwise),
            parsed_rules: Seq::new(
                self.parsed_rules@.len(),
                |i: int|
                    RuleView {
                        conditions: conditions_view(self.parsed_rules@[i].0@),
                        outcome: self.parsed_rules@[i].1@,
                    },
            ),
        }
    }
}

impl StateView {
    /// Rule `i` fires under the tally: each of its conditions holds.
    pub open spec fn fires(self, i: int, tally: Map<Seq<char>, usize>) -> bool {
        0 <= i < self.parsed_rules.len() && all_hold(self.parsed_rules[i].conditions, tally)
    }

    /// Rule `i` fires under the tally, and no rule declared before it does.
    pub open spec fn fires_first(self, i: int, tally: Map<Seq<char>, usize>) -> bool {
        self.fires(i, tally) && forall|j: int| 0 <= j < i ==> !self.fires(j, tally)
    }

    /// What happens to a cell in this state under the tally: the outcome of
    /// the first rule that fires; where none fires, the fallback; where there
    /// is none, nothing.
    pub open spec fn outcome_for(self, tally: Map<Seq<char>, usize>) -> Option<OutcomeView> {
        if exists|i: int| self.fires_first(i, tally) {
            Some(self.parsed_rules[choose|i: int| self.fires_first(i, tally)].outcome)
        } else {
            self.otherwise
        }
    }

    /// Rule `i` does not parse.
    pub open spec fn is_broken(self, i: int) -> bool {
        0 <= i < self.rules.len() && rule_conditions(self.rules[i].0) is Err
    }

    /// Rule `i` is the first that does not parse.
    pub open spec fn is_first_broken(self, i: int) -> bool {
        self.is_broken(i) && forall|j: int| 0 <= j < i ==> !self.is_broken(j)
    }

    /// The parsed rules are the rules as written, one for one and in the same
    /// order: each has the conditions that the text of its rule writes, and
    /// the outcome of its rule.
    pub open spec fn is_compiled(self) -> bool {
        &&& self.parsed_rules.len() == self.rules.len()
        &&& forall|i: int|
            0 <= i < self.rules.len() ==> rule_conditions(self.rules[i].0) == Ok::<
                Seq<ConditionView>,
                crate::rule_parsing::Mismatch,
            >((#[trigger] self.parsed_rules[i]).conditions) && self.parsed_rules[i].outcome
                == self.rules[i].1
    }
}

/// The first rule that fires decides, in the order in which the rules are
/// declared, whatever rules behind it fire as well.
pub proof fn lemma_first_firing_rule_decides(state: StateView, tally: Map<Seq<char>, usize>, i: int)
    requires
        state.fires_first(i, tally),
    ensures
        state.outcome_for(tally) == Some(state.parsed_rules[i].outcome),
{
    let first = choose|k: int| state.fires_first(k, tally);
    if first < i {
        assert(!state.fires(first, tally));
    }
    if i < first {
        assert(!state.fires(i, tally));
    }
}

/// Of two rules that fire, the one declared behind the other never decides
/// by its place: what decides is a rule declared no later than the first
/// of the two.
pub proof fn lemma_earlier_rule_goes_first(
    state: StateView,
    tally: Map<Seq<char>, usize>,
    i: int,
    j: int,
)
    requires
        i < j,
        state.fires(i, tally),
        state.fires(j, tally),
    ensures
        exists|k: int|
            0 <= k <= i && state.fires_first(k, tally) && state.outcome_for(tally) == Some(
                #[trigger] state.parsed_rules[k].outcome,
            ),
{
    let k = lemma_some_rule_fires_first(state, tally, i);
    lemma_first_firing_rule_decides(state, tally, k);
}

/// Where a rule fires, some rule is the first to fire.
pub proof fn lemma_some_rule_fires_first(
    state: StateView,
    tally: Map<Seq<char>, usize>,
    i: int,
) -> (first: int)
    requires
        state.fires(i, tally),
    ensures
        0 <= first <= i,
        state.fires_first(first, tally),
    decreases i,
{
    if exists|j: int| 0 <= j < i && state.fires(j, tally) {
        let j = choose|j: int| 0 <= j < i && state.fires(j, tally);
        lemma_some_rule_fires_first(state, tally, j)
    } else {
        i
    }
}

/// Where no rule fires, the fallback decides; and where there is none,
/// nothing happens.
pub proof fn lemma_fallback_decides(state: StateView, tally: Map<Seq<char>, usize>)
    requires
        forall|i: int| !state.fires(i, tally),
    ensures
        state.outcome_for(tally) == state.otherwise,
{
}

/// A rule that does not parse.
#[derive(Debug, PartialEq)]
pub struct RuleError {
    /// The position of the rule among the rules of its state.
    pub index: usize,
    /// The text of the rule.
    pub rule: String,
    /// Where the text stops being a condition list.
    pub error: ParseError,
}

/// What a `RuleError` holds.
pub ghost struct RuleErrorView {
    pub index: int,
    pub rule: Seq<char>,
    pub error: ParseErrorView,
}

impl View for RuleError {
    type V = RuleErrorView;

    open spec fn view(&self) -> RuleErrorView {
        RuleErrorView { index: self.index as int, rule: self.rule@, error: self.error@ }
    }
}

impl StateView {
    /// The error that reports rule `i`, which does not parse.
    pub open spec fn rule_error(self, i: int) -> RuleErrorView {
        RuleErrorView {
            index: i,
            rule: self.rules[i].0,
            error: rule_conditions(self.rules[i].0)->Err_0.report(self.rules[i].0),
        }
    }
}

impl RulesetState {
    /// A state with the rules as written, none of them parsed yet.
    pub fn new(
        colour: RulesetColour,
        rules: Vec<(String, RulesetOutcome)>,
        otherwise: Option<RulesetOutcome>,
    ) -> (state: RulesetState)
        ensures
            state.colour == colour,
            state.rules == rules,
            state.otherwise == otherwise,
            state.parsed_rules@.len() == 0,
    {
        RulesetState { colour, rules, otherwise, parsed_rules: Vec::new() }
    }

    /// Decides what happens to a cell in this state whose neighbours are as
    /// `neighbours` counts them. The parsed rules are tried in the order in
    /// which they are declared, and the first that fires decides.
    pub fn transition(&self, neighbours: &Census) -> (outcome: Option<&RulesetOutcome>)
        ensures
            match outcome {
                Some(o) => self@.outcome_for(neighbours@) == Some(o@),
                None => self@.outcome_for(neighbours@) is None,
            },
    {
        let ghost state = self@;
        let ghost tally = neighbours@;
        let mut i: usize = 0;
        while i < self.parsed_rules.len()
            invariant
                state == self@,
                tally == neighbours@,
                i <= self.parsed_rules@.len(),
                forall|j: int| 0 <= j < i ==> !state.fires(j, tally),
            decreases self.parsed_rules.len() - i,
        {
            if evaluate_all(&self.parsed_rules[i].0, neighbours) {
                proof {
                    assert(state.fires_first(i as int, tally));
                    let first = choose|k: int| state.fires_first(k, tally);
                    assert(first == i) by {
                        if first < i {
                            assert(!state.fires(first, tally));
                        }
                    }
                }
                return Some(&self.parsed_rules[i].1);
            }
            i = i + 1;
        }
        proof {
            assert forall|k: int| !state.fires_first(k, tally) by {
                if state.fires_first(k, tally) {
                    assert(!state.fires(k, tally));
                }
            }
        }
        match &self.otherwise {
            Some(o) => Some(o),
            None => None,
        }
    }

    /// Parses the rules as written, in the order in which they are declared.
    /// Where each parses, the parsed rules take their place; at the first
    /// that does not, the state is left as it was.
    pub fn parse_rules(&mut self) -> (r: Result<(), RuleError>)
        ensures
            final(self).colour == old(self).colour,
            final(self).rules == old(self).rules,
            final(self).otherwise == old(self).otherwise,
            match r {
                Ok(_) => final(self)@.is_compiled(),
                Err(e) => old(self)@.is_first_broken(e@.index) && e@ == old(self)@.rule_error(
                    e@.index,
                ) && final(self).parsed_rules == old(self).parsed_rules,
            },
    {
        let ghost state = self@;
        let mut parsed: Vec<(Vec<Condition>, RulesetOutcome)> = Vec::new();
        let mut i: usize = 0;
        while i < self.rules.len()
            invariant
                *self == *old(self),
                state == self@,
                i <= self.rules@.len(),
                parsed@.len() == i,
                forall|j: int|
                    0 <= j < i ==> rule_conditions(state.rules[j].0) == Ok::<
                        Seq<ConditionView>,
                        crate::rule_parsing::Mismatch,
                    >(conditions_view((#[trigger] parsed@[j]).0@)) && parsed@[j].1@
                        == state.rules[j].1,
            decreases self.rules.len() - i,
        {
            match parse_rule(self.rules[i].0.as_str()) {
                Ok(conditions) => {
                    parsed.push((conditions, self.rules[i].1.clone()));
                },
                Err(error) => {
                    assert(state.is_first_broken(i as int)) by {
                        assert forall|j: int| 0 <= j < i implies !state.is_broken(j) by {
                            assert(conditions_view(parsed@[j].0@) == conditions_view(parsed@[j].0@));
                        }
                    }
                    return Err(RuleError { index: i, rule: self.rules[i].0.clone(), error });
                },
            }
            i = i + 1;
        }
        self.parsed_rules = parsed;
        Ok(())
    }
}

} // verus!
