//! Rulesets: the states of an automaton under their names, the state that a
//! grid starts in, and the neighbourhood over which a cell counts.

use vstd::prelude::*;
use vstd::hash_map::StringHashMap;
use crate::cell::{Cell, CellView};
use crate::census::Census;
use crate::colour::{ColourView, RulesetColour};
use crate::neighbourhood::Neighbourhood;
use crate::state::{OutcomeView, RuleError, RuleErrorView, RulesetOutcome, RulesetState, StateView};

verus! {

/// What a ruleset holds: its states under their names, in the order in which
/// they are declared.
pub ghost struct RulesetView {
    pub default_state: Seq<char>,
    pub neighbourhood: Neighbourhood,
    pub states: Seq<(Seq<char>, StateView)>,
}

/// What a list of named states holds.
pub open spec fn states_view(states: Seq<(String, RulesetState)>) -> Seq<(Seq<char>, StateView)> {
    Seq::new(states.len(), |i: int| (states[i].0@, states[i].1@))
}

impl StateView {
    /// The number of outcomes that the state declares: one for each rule,
    /// and the fallback.
    pub open spec fn outcome_count(self) -> int {
        self.rules.len() + (if self.otherwise is Some {
            1int
        } else {
            0int
        })
    }

    /// The outcomes that the state declares: those of its rules, in their
    /// order, and then the fallback.
    pub open spec fn outcome_at(self, k: int) -> OutcomeView {
        if k < self.rules.len() {
            self.rules[k].1
        } else {
            self.otherwise->Some_0
        }
    }

    /// The number of places at which the state may write a colour: its own,
    /// and one for each outcome.
    pub open spec fn colour_count(self) -> int {
        1 + self.outcome_count()
    }

    /// The colours that the state writes: its own, and then the paint of
    /// each outcome that has one.
    pub open spec fn colour_at(self, k: int) -> Option<ColourView> {
        if k == 0 {
            Some(self.colour)
        } else {
            self.outcome_at(k - 1).paint
        }
    }
}

impl RulesetView {
    /// The state at position `i` has the name `name`.
    pub open spec fn is_at(self, i: int, name: Seq<char>) -> bool {
        0 <= i < self.states.len() && self.states[i].0 == name
    }

    /// The ruleset has a state of the name `name`.
    pub open spec fn has_state(self, name: Seq<char>) -> bool {
        exists|i: int| self.is_at(i, name)
    }

    /// The state of the name `name`, where there is one.
    pub open spec fn state(self, name: Seq<char>) -> StateView {
        self.states[choose|i: int| self.is_at(i, name)].1
    }

    /// The cell in the state of the name `name`, in the colour of that state.
    pub open spec fn cell_in(self, name: Seq<char>) -> CellView {
        CellView { state: name, colour: self.state(name).colour.rgba() }
    }

    /// A rule of state `i` does not parse.
    pub open spec fn is_broken(self, i: int) -> bool {
        0 <= i < self.states.len() && exists|j: int| self.states[i].1.is_broken(j)
    }

    /// The name of state `i` is that of a state before it.
    pub open spec fn is_duplicate(self, i: int) -> bool {
        0 <= i < self.states.len() && exists|j: int| 0 <= j < i && self.is_at(j, self.states[i].0)
    }

    /// Outcome `k` of state `i` names a state that the ruleset does not have.
    pub open spec fn is_dangling(self, i: int, k: int) -> bool {
        &&& 0 <= i < self.states.len()
        &&& 0 <= k < self.states[i].1.outcome_count()
        &&& !self.has_state(self.states[i].1.outcome_at(k).next)
    }

    /// Colour `k` of state `i` is a text that writes no colour.
    pub open spec fn is_unresolvable(self, i: int, k: int) -> bool {
        &&& 0 <= i < self.states.len()
        &&& 0 <= k < self.states[i].1.colour_count()
        &&& self.states[i].1.colour_at(k) matches Some(colour) && !colour.is_resolvable()
    }

    /// Every rule of every state parses.
    pub open spec fn grammar_ok(self) -> bool {
        forall|i: int| !self.is_broken(i)
    }

    /// No two states have the same name.
    pub open spec fn names_ok(self) -> bool {
        forall|i: int| !self.is_duplicate(i)
    }

    /// The state that a grid starts in is a state of the ruleset.
    pub open spec fn default_ok(self) -> bool {
        self.has_state(self.default_state)
    }

    /// Every outcome names a state of the ruleset.
    pub open spec fn outcomes_ok(self) -> bool {
        forall|i: int, k: int| !self.is_dangling(i, k)
    }

    /// Every colour is four bytes or a text that writes a colour.
    pub open spec fn colours_ok(self) -> bool {
        forall|i: int, k: int| !self.is_unresolvable(i, k)
    }

    /// Nothing is wrong with the ruleset as it is written.
    pub open spec fn is_loadable(self) -> bool {
        &&& self.grammar_ok()
        &&& self.names_ok()
        &&& self.default_ok()
        &&& self.outcomes_ok()
        &&& self.colours_ok()
    }

    /// The ruleset can be run: nothing is wrong with it as it is written, and
    /// the rules of each state are parsed.
    pub open spec fn is_sound(self) -> bool {
        &&& self.is_loadable()
        &&& forall|i: int| 0 <= i < self.states.len() ==> (#[trigger] self.states[i]).1.is_compiled()
    }

    /// The ruleset is `written` with its rules parsed, and the same otherwise.
    pub open spec fn is_compilation_of(self, written: RulesetView) -> bool {
        &&& self.default_state == written.default_state
        &&& self.neighbourhood == written.neighbourhood
        &&& self.states.len() == written.states.len()
        &&& forall|i: int|
            0 <= i < self.states.len() ==> {
                let state = (#[trigger] self.states[i]).1;
                let from = written.states[i].1;
                &&& self.states[i].0 == written.states[i].0
                &&& state.colour == from.colour
                &&& state.rules == from.rules
                &&& state.otherwise == from.otherwise
                &&& state.is_compiled()
            }
    }

    /// The cell that follows `cell` when its neighbours are as `tally` counts
    /// them. The state of the cell decides by its rules. The new cell has the
    /// colour that the outcome paints, or else the colour of its new state.
    /// The cell stays as it is where its state decides nothing, and where
    /// the ruleset does not have its state or the state that the outcome names.
    pub open spec fn next_cell(self, cell: CellView, tally: Map<Seq<char>, usize>) -> CellView {
        if !self.has_state(cell.state) {
            cell
        } else {
            match self.state(cell.state).outcome_for(tally) {
                None => cell,
                Some(outcome) => if !self.has_state(outcome.next) {
                    cell
                } else {
                    CellView {
                        state: outcome.next,
                        colour: match outcome.paint {
                            Some(paint) => paint.rgba(),
                            None => self.state(outcome.next).colour.rgba(),
                        },
                    }
                },
            }
        }
    }
}

/// A cell whose state has no rule that fires and no fallback stays as it is,
/// in its state and in its colour.
pub proof fn lemma_cell_stays(ruleset: RulesetView, cell: CellView, tally: Map<Seq<char>, usize>)
    requires
        ruleset.has_state(cell.state) ==> {
            &&& forall|i: int| !ruleset.state(cell.state).fires(i, tally)
            &&& ruleset.state(cell.state).otherwise is None
        },
    ensures
        ruleset.next_cell(cell, tally) == cell,
{
}

/// A cell whose state has no rule that fires passes to the state that the
/// fallback names, in the colour that the fallback paints or else in the
/// colour of that state.
pub proof fn lemma_cell_falls_back(
    ruleset: RulesetView,
    cell: CellView,
    tally: Map<Seq<char>, usize>,
    fallback: OutcomeView,
)
    requires
        ruleset.has_state(cell.state),
        forall|i: int| !ruleset.state(cell.state).fires(i, tally),
        ruleset.state(cell.state).otherwise == Some(fallback),
        ruleset.has_state(fallback.next),
    ensures
        ruleset.next_cell(cell, tally).state == fallback.next,
        ruleset.next_cell(cell, tally).colour == (match fallback.paint {
            Some(paint) => paint.rgba(),
            None => ruleset.state(fallback.next).colour.rgba(),
        }),
{
}

/// In a sound ruleset every outcome that decides names a state of the
/// ruleset: a cell in a state of the ruleset passes to the state that the
/// outcome names, and never stays for want of that state.
pub proof fn lemma_outcome_resolves(
    ruleset: RulesetView,
    cell: CellView,
    tally: Map<Seq<char>, usize>,
    outcome: OutcomeView,
)
    requires
        ruleset.is_sound(),
        ruleset.has_state(cell.state),
        ruleset.state(cell.state).outcome_for(tally) == Some(outcome),
    ensures
        ruleset.has_state(outcome.next),
        ruleset.next_cell(cell, tally).state == outcome.next,
{
    let i = choose|i: int| ruleset.is_at(i, cell.state);
    let state = ruleset.states[i].1;
    assert(state.is_compiled());
    if exists|k: int| state.fires_first(k, tally) {
        let k = choose|k: int| state.fires_first(k, tally);
        assert(state.parsed_rules[k].outcome == state.rules[k].1);
        assert(state.outcome_at(k) == outcome);
        assert(!ruleset.is_dangling(i, k));
    } else {
        let k = state.rules.len() as int;
        assert(state.outcome_at(k) == outcome);
        assert(!ruleset.is_dangling(i, k));
    }
}

/// A ruleset: the states of an automaton under their names, checked and
/// ready to be run.
pub struct Ruleset {
    default_state: String,
    neighbourhood: Neighbourhood,
    states: Vec<(String, RulesetState)>,
    index: StringHashMap<usize>,
}

impl View for Ruleset {
    type V = RulesetView;

    closed spec fn view(&self) -> RulesetView {
        RulesetView {
            default_state: self.default_state@,
            neighbourhood: self.neighbourhood,
            states: states_view(self.states@),
        }
    }
}

/// The index holds the position of each state under its name, and nothing else.
pub open spec fn is_index_of(index: Map<Seq<char>, usize>, states: Seq<(Seq<char>, StateView)>) -> bool {
    &&& forall|i: int|
        0 <= i < states.len() ==> index.contains_key(#[trigger] states[i].0) && index[states[i].0]
            == i
    &&& forall|name: Seq<char>| #[trigger]
        index.contains_key(name) ==> 0 <= index[name] < states.len() && states[index[name] as int].0
            == name
}

impl Ruleset {
    #[verifier::type_invariant]
    closed spec fn inv(&self) -> bool {
        is_index_of(self.index@, states_view(self.states@))
    }

    /// The name of the state that a grid starts in.
    pub fn default_state(&self) -> (name: &String)
        ensures
            name@ == self@.default_state,
    {
        &self.default_state
    }

    /// The neighbourhood over which a cell counts.
    pub fn neighbourhood(&self) -> (neighbourhood: Neighbourhood)
        ensures
            neighbourhood == self@.neighbourhood,
    {
        self.neighbourhood
    }

    /// The states under their names, in the order in which they are declared.
    pub fn states(&self) -> (states: &Vec<(String, RulesetState)>)
        ensures
            states_view(states@) == self@.states,
            self@.names_ok(),
    {
        proof {
            use_type_invariant(self);
            let view = self@;
            assert forall|i: int| !view.is_duplicate(i) by {
                if view.is_duplicate(i) {
                    let j = choose|j: int| 0 <= j < i && view.is_at(j, view.states[i].0);
                    assert(self.index@[view.states[j].0] == j);
                    assert(self.index@[view.states[i].0] == i);
                }
            }
        }
        &self.states
    }

    /// The state of the name `name`, if the ruleset has one.
    pub fn state(&self, name: &str) -> (state: Option<&RulesetState>)
        ensures
            match state {
                Some(s) => self@.has_state(name@) && s@ == self@.state(name@),
                None => !self@.has_state(name@),
            },
    {
        proof {
            use_type_invariant(self);
        }
        let ghost view = self@;
        match self.index.get(name) {
            Some(position) => {
                proof {
                    assert(view.is_at(*position as int, name@));
                    let chosen = choose|i: int| view.is_at(i, name@);
                    assert(self.index@[view.states[chosen].0] == chosen);
                }
                Some(&self.states[*position].1)
            },
            None => {
                proof {
                    if view.has_state(name@) {
                        let i = choose|i: int| view.is_at(i, name@);
                        assert(self.index@.contains_key(view.states[i].0));
                    }
                }
                None
            },
        }
    }

    /// The cell in the state of the name `name`, in the colour of that
    /// state, if the ruleset has such a state.
    pub fn cell_in(&self, name: &str) -> (cell: Option<Cell>)
        ensures
            match cell {
                Some(c) => self@.has_state(name@) && c@ == self@.cell_in(name@),
                None => !self@.has_state(name@),
            },
    {
        match self.state(name) {
            Some(state) => Some(Cell { state: name.to_owned(), colour: state.colour.rgba() }),
            None => None,
        }
    }

    /// The cell that follows `cell` when its neighbours are as `census`
    /// counts them.
    pub fn next_cell(&self, cell: &Cell, census: &Census) -> (next: Cell)
        ensures
            next@ == self@.next_cell(cell@, census@),
    {
        let state = match self.state(cell.state.as_str()) {
            Some(state) => state,
            None => {
                return cell.clone();
            },
        };
        let outcome = match state.transition(census) {
            Some(outcome) => outcome,
            None => {
                return cell.clone();
            },
        };
        let target = match self.state(outcome.next.as_str()) {
            Some(target) => target,
            None => {
                return cell.clone();
            },
        };
        let colour = match &outcome.paint {
            Some(paint) => paint.rgba(),
            None => target.colour.rgba(),
        };
        Cell { state: outcome.next.clone(), colour }
    }
}

/// A ruleset as it is written: the states under their names, in the order in
/// which they are declared, with nothing checked.
#[derive(Debug)]
pub struct RulesetDescription {
    pub default_state: String,
    pub neighbourhood: Neighbourhood,
    pub states: Vec<(String, RulesetState)>,
}

impl View for RulesetDescription {
    type V = RulesetView;

    open spec fn view(&self) -> RulesetView {
        RulesetView {
            default_state: self.default_state@,
            neighbourhood: self.neighbourhood,
            states: states_view(self.states@),
        }
    }
}

/// Why a ruleset as written is no ruleset.
#[derive(Debug, PartialEq)]
pub enum LoadError {
    /// A rule of the state does not parse.
    Grammar { state: String, error: RuleError },
    /// Two states have this name.
    DuplicateState { state: String },
    /// The state that a grid starts in is no state of the ruleset.
    InvalidDefaultState { state: String },
    /// An outcome of the state names a state that the ruleset does not have.
    MissingOutcomeState { state: String, next: String },
    /// A colour of the state is a text that writes no colour.
    UnresolvableColour { state: String, colour: String },
}

/// What a `LoadError` holds.
pub ghost enum LoadErrorView {
    Grammar { state: Seq<char>, error: RuleErrorView },
    DuplicateState { state: Seq<char> },
    InvalidDefaultState { state: Seq<char> },
    MissingOutcomeState { state: Seq<char>, next: Seq<char> },
    UnresolvableColour { state: Seq<char>, colour: Seq<char> },
}

impl View for LoadError {
    type V = LoadErrorView;

    open spec fn view(&self) -> LoadErrorView {
        match self {
            LoadError::Grammar { state, error } => LoadErrorView::Grammar {
                state: state@,
                error: error@,
            },
            LoadError::DuplicateState { state } => LoadErrorView::DuplicateState { state: state@ },
            LoadError::InvalidDefaultState { state } => LoadErrorView::InvalidDefaultState {
                state: state@,
            },
            LoadError::MissingOutcomeState { state, next } => LoadErrorView::MissingOutcomeState {
                state: state@,
                next: next@,
            },
            LoadError::UnresolvableColour { state, colour } => LoadErrorView::UnresolvableColour {
                state: state@,
                colour: colour@,
            },
        }
    }
}

/// The pair `(a, b)` stands before the pair `(i, k)`.
pub open spec fn is_before(a: int, b: int, i: int, k: int) -> bool {
    a < i || (a == i && b < k)
}

impl RulesetView {
    /// The first rule that does not parse is rule `error.index` of the
    /// state `state`, and `error` reports it.
    pub open spec fn grammar_fault(self, state: Seq<char>, error: RuleErrorView) -> bool {
        exists|i: int|
            {
                &&& self.is_at(i, state)
                &&& forall|a: int| 0 <= a < i ==> !self.is_broken(a)
                &&& self.states[i].1.is_first_broken(error.index)
                &&& error == self.states[i].1.rule_error(error.index)
            }
    }

    /// The first state whose name is that of a state before it has the
    /// name `state`.
    pub open spec fn duplicate_fault(self, state: Seq<char>) -> bool {
        exists|i: int|
            {
                &&& self.is_at(i, state)
                &&& self.is_duplicate(i)
                &&& forall|a: int| 0 <= a < i ==> !self.is_duplicate(a)
            }
    }

    /// The first outcome that names a state that the ruleset does not have is
    /// an outcome of the state `state`, and names `next`.
    pub open spec fn dangling_fault(self, state: Seq<char>, next: Seq<char>) -> bool {
        exists|i: int, k: int|
            {
                &&& self.is_at(i, state)
                &&& self.is_dangling(i, k)
                &&& next == self.states[i].1.outcome_at(k).next
                &&& forall|a: int, b: int| is_before(a, b, i, k) ==> !self.is_dangling(a, b)
            }
    }

    /// The first colour that is a text that writes no colour is a colour of
    /// the state `state`, and the text is `colour`.
    pub open spec fn colour_fault(self, state: Seq<char>, colour: Seq<char>) -> bool {
        exists|i: int, k: int|
            {
                &&& self.is_at(i, state)
                &&& self.is_unresolvable(i, k)
                &&& self.states[i].1.colour_at(k) == Some(ColourView::Hex(colour))
                &&& forall|a: int, b: int| is_before(a, b, i, k) ==> !self.is_unresolvable(a, b)
            }
    }

    /// The error reports what is wrong with the ruleset as it is written:
    /// the first thing that is, where the rules are looked at first, then
    /// the names of the states, then the state that a grid starts in, then
    /// the states that the outcomes name, and then the colours.
    pub open spec fn fault(self, error: LoadErrorView) -> bool {
        match error {
            LoadErrorView::Grammar { state, error } => self.grammar_fault(state, error),
            LoadErrorView::DuplicateState { state } => {
                &&& self.grammar_ok()
                &&& self.duplicate_fault(state)
            },
            LoadErrorView::InvalidDefaultState { state } => {
                &&& self.grammar_ok()
                &&& self.names_ok()
                &&& !self.default_ok()
                &&& state == self.default_state
            },
            LoadErrorView::MissingOutcomeState { state, next } => {
                &&& self.grammar_ok()
                &&& self.names_ok()
                &&& self.default_ok()
                &&& self.dangling_fault(state, next)
            },
            LoadErrorView::UnresolvableColour { state, colour } => {
                &&& self.grammar_ok()
                &&& self.names_ok()
                &&& self.default_ok()
                &&& self.outcomes_ok()
                &&& self.colour_fault(state, colour)
            },
        }
    }

    /// Parsing the rules changes nothing that is looked at when a ruleset
    /// is loaded.
    pub proof fn lemma_compilation_keeps(self, written: RulesetView)
        requires
            self.is_compilation_of(written),
        ensures
            forall|i: int, name: Seq<char>| self.is_at(i, name) == written.is_at(i, name),
            forall|name: Seq<char>| self.has_state(name) == written.has_state(name),
            forall|i: int| self.is_broken(i) == written.is_broken(i),
            forall|i: int| self.is_duplicate(i) == written.is_duplicate(i),
            forall|i: int, k: int| self.is_dangling(i, k) == written.is_dangling(i, k),
            forall|i: int, k: int| self.is_unresolvable(i, k) == written.is_unresolvable(i, k),
    {
        assert forall|i: int, name: Seq<char>| self.is_at(i, name) == written.is_at(i, name) by {
            if 0 <= i < self.states.len() {
                assert(self.states[i].0 == written.states[i].0);
            }
        }
        assert forall|name: Seq<char>| self.has_state(name) == written.has_state(name) by {
            if self.has_state(name) {
                let i = choose|i: int| self.is_at(i, name);
                assert(written.is_at(i, name));
            }
            if written.has_state(name) {
                let i = choose|i: int| written.is_at(i, name);
                assert(self.is_at(i, name));
            }
        }
        assert forall|i: int| self.is_broken(i) == written.is_broken(i) by {
            if 0 <= i < self.states.len() {
                assert(self.states[i].1.rules == written.states[i].1.rules);
                if self.is_broken(i) {
                    let j = choose|j: int| self.states[i].1.is_broken(j);
                    assert(written.states[i].1.is_broken(j));
                }
                if written.is_broken(i) {
                    let j = choose|j: int| written.states[i].1.is_broken(j);
                    assert(self.states[i].1.is_broken(j));
                }
            }
        }
        assert forall|i: int| self.is_duplicate(i) == written.is_duplicate(i) by {
            if 0 <= i < self.states.len() {
                assert(self.states[i].0 == written.states[i].0);
                if self.is_duplicate(i) {
                    let j = choose|j: int| 0 <= j < i && self.is_at(j, self.states[i].0);
                    assert(written.is_at(j, written.states[i].0));
                }
                if written.is_duplicate(i) {
                    let j = choose|j: int| 0 <= j < i && written.is_at(j, written.states[i].0);
                    assert(self.is_at(j, self.states[i].0));
                }
            }
        }
        assert forall|i: int, k: int| self.is_dangling(i, k) == written.is_dangling(i, k) by {
            if 0 <= i < self.states.len() {
                assert(self.states[i].1.rules == written.states[i].1.rules);
                assert(self.states[i].1.otherwise == written.states[i].1.otherwise);
            }
        }
        assert forall|i: int, k: int|
            self.is_unresolvable(i, k) == written.is_unresolvable(i, k) by {
            if 0 <= i < self.states.len() {
                assert(self.states[i].1.rules == written.states[i].1.rules);
                assert(self.states[i].1.otherwise == written.states[i].1.otherwise);
                assert(self.states[i].1.colour == written.states[i].1.colour);
            }
        }
    }
}

impl RulesetView {
    /// An index finds the states by their names, and shows that no two
    /// states have the same name.
    pub proof fn lemma_index(self, index: Map<Seq<char>, usize>)
        requires
            is_index_of(index, self.states),
        ensures
            self.names_ok(),
            forall|name: Seq<char>| index.contains_key(name) == self.has_state(name),
    {
        assert forall|i: int| !self.is_duplicate(i) by {
            if self.is_duplicate(i) {
                let j = choose|j: int| 0 <= j < i && self.is_at(j, self.states[i].0);
                assert(index[self.states[j].0] == j);
                assert(index[self.states[i].0] == i);
            }
        }
        assert forall|name: Seq<char>| index.contains_key(name) == self.has_state(name) by {
            if index.contains_key(name) {
                assert(self.is_at(index[name] as int, name));
            }
            if self.has_state(name) {
                let i = choose|i: int| self.is_at(i, name);
                assert(index.contains_key(self.states[i].0));
            }
        }
    }
}

/// Parses the rules of each state, in the order in which the states are declared.
fn compile(description: &mut RulesetDescription) -> (r: Result<(), LoadError>)
    ensures
        match r {
            Ok(_) => final(description)@.is_compilation_of(old(description)@),
            Err(e) => e@ matches LoadErrorView::Grammar { state, error } && old(
                description,
            )@.grammar_fault(state, error),
        },
{
    let ghost written = description@;
    let mut i: usize = 0;
    while i < description.states.len()
        invariant
            written == old(description)@,
            description.default_state == old(description).default_state,
            description.neighbourhood == old(description).neighbourhood,
            description.states@.len() == old(description).states@.len(),
            i <= description.states@.len(),
            forall|k: int|
                0 <= k < description.states@.len() ==> {
                    let state = (#[trigger] description.states@[k]).1;
                    let from = old(description).states@[k].1;
                    &&& description.states@[k].0 == old(description).states@[k].0
                    &&& state.colour == from.colour
                    &&& state.rules == from.rules
                    &&& state.otherwise == from.otherwise
                },
            forall|k: int|
                i <= k < description.states@.len() ==> (#[trigger] description.states@[k])
                    == old(description).states@[k],
            forall|k: int| 0 <= k < i ==> (#[trigger] description.states@[k]).1@.is_compiled(),
            forall|k: int| 0 <= k < i ==> !written.is_broken(k),
        decreases description.states.len() - i,
    {
        let ghost before = description.states@;
        match description.states[i].1.parse_rules() {
            Ok(_) => {
                proof {
                    let state = description.states@[i as int].1@;
                    assert(state.rules == written.states[i as int].1.rules);
                    assert(!written.is_broken(i as int)) by {
                        if written.is_broken(i as int) {
                            let j = choose|j: int| written.states[i as int].1.is_broken(j);
                            assert(state.parsed_rules[j].conditions == state.parsed_rules[j].conditions);
                        }
                    }
                }
            },
            Err(error) => {
                let state = description.states[i].0.clone();
                proof {
                    assert(written.is_at(i as int, state@));
                    assert(before[i as int].1@ == written.states[i as int].1);
                }
                return Err(LoadError::Grammar { state, error });
            },
        }
        i = i + 1;
    }
    Ok(())
}

/// Lists the position of each state under its name.
fn index_states(description: &RulesetDescription) -> (r: Result<StringHashMap<usize>, LoadError>)
    ensures
        match r {
            Ok(index) => is_index_of(index@, description@.states),
            Err(e) => e@ matches LoadErrorView::DuplicateState { state }
                && description@.duplicate_fault(state),
        },
{
    let ghost view = description@;
    let mut index: StringHashMap<usize> = StringHashMap::new();
    let mut i: usize = 0;
    while i < description.states.len()
        invariant
            view == description@,
            i <= description.states@.len(),
            forall|k: int|
                0 <= k < i ==> index@.contains_key(#[trigger] view.states[k].0)
                    && index@[view.states[k].0] == k,
            forall|name: Seq<char>| #[trigger]
                index@.contains_key(name) ==> 0 <= index@[name] < i && view.states[index@[name] as int].0
                    == name,
        decreases description.states.len() - i,
    {
        let name = &description.states[i].0;
        proof {
            assert forall|a: int| 0 <= a < i implies !view.is_duplicate(a) by {
                if view.is_duplicate(a) {
                    let b = choose|b: int| 0 <= b < a && view.is_at(b, view.states[a].0);
                    assert(index@[view.states[b].0] == b);
                    assert(index@[view.states[a].0] == a);
                }
            }
        }
        if index.contains_key(name.as_str()) {
            proof {
                assert(view.is_at(index@[name@] as int, view.states[i as int].0));
                assert(view.is_duplicate(i as int));
                assert(view.is_at(i as int, name@));
            }
            return Err(LoadError::DuplicateState { state: name.clone() });
        }
        index.insert(name.clone(), i);
        i = i + 1;
    }
    Ok(index)
}

/// Looks for an outcome of state `i` that names a state that the ruleset
/// does not have, and returns the name of the first.
fn find_dangling<'a>(
    description: &'a RulesetDescription,
    index: &StringHashMap<usize>,
    i: usize,
) -> (next: Option<&'a String>)
    requires
        is_index_of(index@, description@.states),
        i < description.states@.len(),
    ensures
        match next {
            Some(name) => exists|k: int|
                {
                    &&& description@.is_dangling(i as int, k)
                    &&& name@ == description@.states[i as int].1.outcome_at(k).next
                    &&& forall|b: int| 0 <= b < k ==> !description@.is_dangling(i as int, b)
                },
            None => forall|b: int| !description@.is_dangling(i as int, b),
        },
{
    let ghost view = description@;
    proof {
        view.lemma_index(index@);
    }
    let state = &description.states[i].1;
    let mut k: usize = 0;
    while k < state.rules.len()
        invariant
            view == description@,
            i < description.states@.len(),
            *state == description.states@[i as int].1,
            k <= state.rules@.len(),
            forall|name: Seq<char>| index@.contains_key(name) == view.has_state(name),
            forall|b: int| 0 <= b < k ==> !view.is_dangling(i as int, b),
        decreases state.rules.len() - k,
    {
        let next = &state.rules[k].1.next;
        assert(next@ == view.states[i as int].1.outcome_at(k as int).next);
        if !index.contains_key(next.as_str()) {
            assert(view.is_dangling(i as int, k as int));
            return Some(next);
        }
        k = k + 1;
    }
    match &state.otherwise {
        Some(outcome) => {
            assert(outcome.next@ == view.states[i as int].1.outcome_at(k as int).next);
            if !index.contains_key(outcome.next.as_str()) {
                assert(view.is_dangling(i as int, k as int));
                return Some(&outcome.next);
            }
        },
        None => {},
    }
    None
}

/// Checks that each outcome names a state of the ruleset.
fn check_outcomes(description: &RulesetDescription, index: &StringHashMap<usize>) -> (r: Result<
    (),
    LoadError,
>)
    requires
        is_index_of(index@, description@.states),
    ensures
        match r {
            Ok(_) => description@.outcomes_ok(),
            Err(e) => e@ matches LoadErrorView::MissingOutcomeState { state, next }
                && description@.dangling_fault(state, next),
        },
{
    let ghost view = description@;
    let mut i: usize = 0;
    while i < description.states.len()
        invariant
            view == description@,
            is_index_of(index@, view.states),
            i <= description.states@.len(),
            forall|a: int, b: int| 0 <= a < i ==> !view.is_dangling(a, b),
        decreases description.states.len() - i,
    {
        match find_dangling(description, index, i) {
            Some(next) => {
                let state = description.states[i].0.clone();
                proof {
                    let k = choose|k: int|
                        {
                            &&& view.is_dangling(i as int, k)
                            &&& next@ == view.states[i as int].1.outcome_at(k).next
                            &&& forall|b: int| 0 <= b < k ==> !view.is_dangling(i as int, b)
                        };
                    assert(view.is_at(i as int, state@));
                    assert forall|a: int, b: int| is_before(a, b, i as int, k) implies !view.is_dangling(
                        a,
                        b,
                    ) by {}
                }
                return Err(LoadError::MissingOutcomeState { state, next: next.clone() });
            },
            None => {},
        }
        i = i + 1;
    }
    Ok(())
}

/// The text of a colour that writes none.
fn unresolvable_text(colour: &RulesetColour) -> (text: Option<&String>)
    ensures
        match text {
            Some(t) => !colour@.is_resolvable() && colour@ == ColourView::Hex(t@),
            None => colour@.is_resolvable(),
        },
{
    match colour {
        RulesetColour::Rgba(_, _, _, _) => None,
        RulesetColour::Hex(text) => if colour.is_resolvable() {
            None
        } else {
            Some(text)
        },
    }
}

/// The text of the paint of an outcome, where it writes no colour.
fn unresolvable_paint(outcome: &RulesetOutcome) -> (text: Option<&String>)
    ensures
        match text {
            Some(t) => outcome@.paint matches Some(paint) && !paint.is_resolvable() && paint
                == ColourView::Hex(t@),
            None => outcome@.paint matches Some(paint) ==> paint.is_resolvable(),
        },
{
    match &outcome.paint {
        Some(paint) => unresolvable_text(paint),
        None => None,
    }
}

/// Looks for a colour of state `i` that is a text that writes no colour,
/// and returns the first such text.
fn find_unresolvable<'a>(description: &'a RulesetDescription, i: usize) -> (text: Option<&'a String>)
    requires
        i < description.states@.len(),
    ensures
        match text {
            Some(t) => exists|k: int|
                {
                    &&& description@.is_unresolvable(i as int, k)
                    &&& description@.states[i as int].1.colour_at(k) == Some(ColourView::Hex(t@))
                    &&& forall|b: int| 0 <= b < k ==> !description@.is_unresolvable(i as int, b)
                },
            None => forall|b: int| !description@.is_unresolvable(i as int, b),
        },
{
    let ghost view = description@;
    let state = &description.states[i].1;
    match unresolvable_text(&state.colour) {
        Some(text) => {
            assert(view.is_unresolvable(i as int, 0));
            return Some(text);
        },
        None => {},
    }
    let mut k: usize = 0;
    while k < state.rules.len()
        invariant
            view == description@,
            i < description.states@.len(),
            *state == description.states@[i as int].1,
            k <= state.rules@.len(),
            forall|b: int| 0 <= b < k + 1 ==> !view.is_unresolvable(i as int, b),
        decreases state.rules.len() - k,
    {
        assert(state.rules@[k as int].1@ == view.states[i as int].1.outcome_at(k as int));
        match unresolvable_paint(&state.rules[k].1) {
            Some(text) => {
                assert(view.is_unresolvable(i as int, k + 1));
                return Some(text);
            },
            None => {},
        }
        k = k + 1;
    }
    match &state.otherwise {
        Some(outcome) => {
            assert(outcome@ == view.states[i as int].1.outcome_at(k as int));
            match unresolvable_paint(outcome) {
                Some(text) => {
                    assert(view.is_unresolvable(i as int, k + 1));
                    return Some(text);
                },
                None => {},
            }
        },
        None => {},
    }
    None
}

/// Checks that each colour is four bytes or a text that writes a colour.
fn check_colours(description: &RulesetDescription) -> (r: Result<(), LoadError>)
    ensures
        match r {
            Ok(_) => description@.colours_ok(),
            Err(e) => e@ matches LoadErrorView::UnresolvableColour { state, colour }
                && description@.colour_fault(state, colour),
        },
{
    let ghost view = description@;
    let mut i: usize = 0;
    while i < description.states.len()
        invariant
            view == description@,
            i <= description.states@.len(),
            forall|a: int, b: int| 0 <= a < i ==> !view.is_unresolvable(a, b),
        decreases description.states.len() - i,
    {
        match find_unresolvable(description, i) {
            Some(text) => {
                let state = description.states[i].0.clone();
                proof {
                    let k = choose|k: int|
                        {
                            &&& view.is_unresolvable(i as int, k)
                            &&& view.states[i as int].1.colour_at(k) == Some(ColourView::Hex(text@))
                            &&& forall|b: int| 0 <= b < k ==> !view.is_unresolvable(i as int, b)
                        };
                    assert(view.is_at(i as int, state@));
                    assert forall|a: int, b: int| is_before(a, b, i as int, k) implies !view.is_unresolvable(
                        a,
                        b,
                    ) by {}
                }
                return Err(LoadError::UnresolvableColour { state, colour: text.clone() });
            },
            None => {},
        }
        i = i + 1;
    }
    Ok(())
}

/// Checks a ruleset as it is written, and makes it ready to be run: the
/// rules of each state are parsed, no two states have the same name, the
/// state that a grid starts in and each state that an outcome names are
/// states of the ruleset, and each colour can be shown. Where something is
/// wrong, the error reports the first thing that is.
pub fn build_ruleset(description: RulesetDescription) -> (r: Result<Ruleset, LoadError>)
    ensures
        match r {
            Ok(ruleset) => ruleset@.is_compilation_of(description@) && ruleset@.is_sound(),
            Err(e) => description@.fault(e@),
        },
{
    let ghost written = description@;
    let mut description = description;
    match compile(&mut description) {
        Err(e) => {
            return Err(e);
        },
        Ok(_) => {},
    }
    let ghost view = description@;
    proof {
        view.lemma_compilation_keeps(written);
        assert forall|i: int| !view.is_broken(i) by {
            if view.is_broken(i) {
                let j = choose|j: int| view.states[i].1.is_broken(j);
                assert(view.states[i].1.is_compiled());
                assert(view.states[i].1.parsed_rules[j].conditions
                    == view.states[i].1.parsed_rules[j].conditions);
            }
        }
    }
    let index = match index_states(&description) {
        Err(e) => {
            return Err(e);
        },
        Ok(index) => index,
    };
    proof {
        view.lemma_index(index@);
    }
    if !index.contains_key(description.default_state.as_str()) {
        return Err(LoadError::InvalidDefaultState { state: description.default_state.clone() });
    }
    match check_outcomes(&description, &index) {
        Err(e) => {
            return Err(e);
        },
        Ok(_) => {},
    }
    match check_colours(&description) {
        Err(e) => {
            return Err(e);
        },
        Ok(_) => {},
    }
    Ok(
        Ruleset {
            default_state: description.default_state,
            neighbourhood: description.neighbourhood,
            states: description.states,
            index,
        },
    )
}

} // verus!
