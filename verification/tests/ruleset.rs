use cellular_automata::cell::Cell;
use cellular_automata::census::Census;
use cellular_automata::colour::{Rgba, RulesetColour};
use cellular_automata::condition::{CompareTo, Condition, Op};
use cellular_automata::neighbourhood::Neighbourhood;
use cellular_automata::rule_parsing::{ParseError, ParseErrorKind};
use cellular_automata::ruleset::{build_ruleset, LoadError, Ruleset, RulesetDescription};
use cellular_automata::state::{RuleError, RulesetOutcome, RulesetState};

fn outcome(next: &str) -> RulesetOutcome {
    RulesetOutcome { next: next.to_string(), paint: None }
}

fn painted(next: &str, paint: &str) -> RulesetOutcome {
    RulesetOutcome { next: next.to_string(), paint: Some(RulesetColour::Hex(paint.to_string())) }
}

fn rule(text: &str, outcome: RulesetOutcome) -> (String, RulesetOutcome) {
    (text.to_string(), outcome)
}

fn census(counts: &[(&str, usize)]) -> Census {
    let mut census = Census::new();
    for (state, count) in counts {
        census.insert(state.to_string(), *count);
    }
    census
}

fn cell(state: &str, colour: (u8, u8, u8, u8)) -> Cell {
    Cell {
        state: state.to_string(),
        colour: Rgba { r: colour.0, g: colour.1, b: colour.2, a: colour.3 },
    }
}

fn life() -> RulesetDescription {
    RulesetDescription {
        default_state: "dead".to_string(),
        neighbourhood: Neighbourhood::Moore { range: 1, include_self: false },
        states: vec![
            (
                "dead".to_string(),
                RulesetState::new(
                    RulesetColour::Rgba(0, 0, 0, 255),
                    vec![rule("$alive == 3", outcome("alive"))],
                    None,
                ),
            ),
            (
                "alive".to_string(),
                RulesetState::new(
                    RulesetColour::Hex("#ffffffff".to_string()),
                    vec![rule("$alive < 2", outcome("dead")), rule("$alive > 3", outcome("dead"))],
                    None,
                ),
            ),
        ],
    }
}

fn built(description: RulesetDescription) -> Ruleset {
    build_ruleset(description).unwrap()
}

#[test]
fn test_rulesetstate_transition() {
    let mut state = RulesetState {
        colour: RulesetColour::Rgba(255, 0, 0, 255),
        rules: Vec::new(),
        otherwise: None,
        parsed_rules: vec![],
    };

    state.rules.push((
        "$state1 > $state2".to_string(),
        RulesetOutcome {
            next: "state2".to_string(),
            paint: Some(RulesetColour::Hex("#00FF0000".to_string())),
        },
    ));

    state.parse_rules().expect("Failed to parse rules");

    let mut neighbours = Census::new();
    neighbours.insert("state1".to_string(), 3);
    let result = state.transition(&neighbours);

    assert!(result.is_some());
    assert_eq!(result.unwrap().next, "state2");
}

#[test]
fn test_rulesetstate_parse_rules_error() {
    let mut state = RulesetState {
        colour: RulesetColour::Rgba(255, 0, 0, 255),
        rules: Vec::new(),
        otherwise: None,
        parsed_rules: vec![],
    };

    state.rules.push((
        "invalid_rule".to_string(),
        RulesetOutcome {
            next: "state2".to_string(),
            paint: Some(RulesetColour::Hex("#00FF00".to_string())),
        },
    ));

    let result = state.parse_rules();
    assert!(result.is_err());
}

#[test]
fn parse_rules_reports_the_first_rule_that_does_not_parse() {
    let mut state = RulesetState::new(
        RulesetColour::Rgba(1, 2, 3, 4),
        vec![
            rule("$a == 1", outcome("x")),
            rule("$a = 2", outcome("y")),
            rule("nonsense", outcome("z")),
        ],
        None,
    );
    let error = state.parse_rules().unwrap_err();
    assert_eq!(
        error,
        RuleError {
            index: 1,
            rule: "$a = 2".to_string(),
            error: ParseError {
                kind: ParseErrorKind::UnknownOperator,
                position: 3,
                found: "= 2".to_string(),
            },
        }
    );
    assert!(state.parsed_rules.is_empty());
    assert_eq!(state.rules.len(), 3);
}

#[test]
fn parse_rules_keeps_the_order_of_the_rules() {
    let mut state = RulesetState::new(
        RulesetColour::Rgba(1, 2, 3, 4),
        vec![rule("$b > 1; $a <= $b", outcome("x")), rule("$a == 1", painted("y", "#01020304"))],
        Some(outcome("z")),
    );
    assert_eq!(state.parse_rules(), Ok(()));
    assert_eq!(state.parsed_rules.len(), 2);
    assert_eq!(
        state.parsed_rules[0].0,
        vec![
            Condition { state: "b".to_string(), op: Op::Gt, compare_to: CompareTo::Value(1) },
            Condition {
                state: "a".to_string(),
                op: Op::Le,
                compare_to: CompareTo::State("b".to_string()),
            },
        ]
    );
    assert_eq!(state.parsed_rules[0].1, outcome("x"));
    assert_eq!(state.parsed_rules[1].1, painted("y", "#01020304"));
}

#[test]
fn the_first_rule_that_fires_decides() {
    let mut state = RulesetState::new(
        RulesetColour::Rgba(0, 0, 0, 0),
        vec![
            rule("$a > 5", outcome("never")),
            rule("$a > 1", outcome("first")),
            rule("$a > 0", outcome("second")),
            rule("$a == 3", outcome("third")),
        ],
        Some(outcome("fallback")),
    );
    state.parse_rules().unwrap();
    assert_eq!(state.transition(&census(&[("a", 3)])).unwrap().next, "first");
    assert_eq!(state.transition(&census(&[("a", 1)])).unwrap().next, "second");
    assert_eq!(state.transition(&census(&[("a", 9)])).unwrap().next, "never");
    assert_eq!(state.transition(&census(&[("b", 9)])).unwrap().next, "fallback");
}

#[test]
fn every_condition_of_a_rule_must_hold() {
    let mut state = RulesetState::new(
        RulesetColour::Rgba(0, 0, 0, 0),
        vec![rule("$a >= 2; $b != $c; $a < 4", outcome("hit"))],
        None,
    );
    state.parse_rules().unwrap();
    assert!(state.transition(&census(&[("a", 2), ("b", 1)])).is_some());
    assert!(state.transition(&census(&[("a", 3), ("b", 1), ("c", 2)])).is_some());
    assert!(state.transition(&census(&[("a", 2), ("b", 1), ("c", 1)])).is_none());
    assert!(state.transition(&census(&[("a", 2)])).is_none());
    assert!(state.transition(&census(&[("a", 1), ("b", 1)])).is_none());
    assert!(state.transition(&census(&[("a", 4), ("b", 1)])).is_none());
}

#[test]
fn each_operator_compares_as_it_reads() {
    let cases: [(&str, [bool; 3]); 6] = [
        ("$a == 2", [false, true, false]),
        ("$a != 2", [true, false, true]),
        ("$a > 2", [false, false, true]),
        ("$a >= 2", [false, true, true]),
        ("$a < 2", [true, false, false]),
        ("$a <= 2", [true, true, false]),
    ];
    for (text, expected) in cases {
        let mut state = RulesetState::new(
            RulesetColour::Rgba(0, 0, 0, 0),
            vec![rule(text, outcome("hit"))],
            None,
        );
        state.parse_rules().unwrap();
        for (count, fires) in [1usize, 2, 3].iter().zip(expected) {
            let result = state.transition(&census(&[("a", *count)]));
            assert_eq!(result.is_some(), fires, "{} with {}", text, count);
        }
    }
}

#[test]
fn a_state_without_an_entry_counts_zero() {
    let mut state = RulesetState::new(
        RulesetColour::Rgba(0, 0, 0, 0),
        vec![rule("$ghost == 0; $ghost == $phantom", outcome("hit"))],
        None,
    );
    state.parse_rules().unwrap();
    assert!(state.transition(&Census::new()).is_some());
    assert!(state.transition(&census(&[("ghost", 0)])).is_some());
    assert!(state.transition(&census(&[("ghost", 1)])).is_none());
    assert_eq!(Census::new().count("ghost"), 0);
}

#[test]
fn without_rules_and_fallback_nothing_happens() {
    let mut state = RulesetState::new(RulesetColour::Rgba(0, 0, 0, 0), Vec::new(), None);
    state.parse_rules().unwrap();
    assert!(state.transition(&census(&[("a", 3)])).is_none());
    let mut state =
        RulesetState::new(RulesetColour::Rgba(0, 0, 0, 0), Vec::new(), Some(outcome("next")));
    state.parse_rules().unwrap();
    assert_eq!(state.transition(&census(&[("a", 3)])).unwrap().next, "next");
}

#[test]
fn the_census_counts() {
    let mut census = Census::new();
    census.record("a");
    census.record("b");
    census.record("a");
    assert_eq!(census.count("a"), 2);
    assert_eq!(census.count("b"), 1);
    assert_eq!(census.count("c"), 0);
    census.insert("a".to_string(), 7);
    assert_eq!(census.count("a"), 7);
}

#[test]
fn a_ruleset_is_built_as_written() {
    let ruleset = built(life());
    assert_eq!(ruleset.default_state(), "dead");
    assert_eq!(ruleset.neighbourhood(), Neighbourhood::Moore { range: 1, include_self: false });
    let names: Vec<&str> = ruleset.states().iter().map(|entry| entry.0.as_str()).collect();
    assert_eq!(names, vec!["dead", "alive"]);
    let alive = ruleset.state("alive").unwrap();
    assert_eq!(alive.colour, RulesetColour::Hex("#ffffffff".to_string()));
    assert_eq!(alive.parsed_rules.len(), 2);
    assert_eq!(alive.rules[1].0, "$alive > 3");
    assert!(ruleset.state("zombie").is_none());
    assert_eq!(ruleset.cell_in("alive"), Some(cell("alive", (255, 255, 255, 255))));
    assert_eq!(ruleset.cell_in("zombie"), None);
}

#[test]
fn a_rule_that_does_not_parse_fails_the_load() {
    let mut description = life();
    description.states[1].1.rules.push(rule("$alive => 3", outcome("dead")));
    description.default_state = "nowhere".to_string();
    assert_eq!(
        build_ruleset(description).err().unwrap(),
        LoadError::Grammar {
            state: "alive".to_string(),
            error: RuleError {
                index: 2,
                rule: "$alive => 3".to_string(),
                error: ParseError {
                    kind: ParseErrorKind::UnknownOperator,
                    position: 7,
                    found: "=> 3".to_string(),
                },
            },
        }
    );
}

#[test]
fn trailing_text_in_a_rule_fails_the_load() {
    let mut description = life();
    description.states[0].1.rules.push(rule("$alive == 2; dead == 1", outcome("dead")));
    let error = build_ruleset(description).err().unwrap();
    match error {
        LoadError::Grammar { state, error } => {
            assert_eq!(state, "dead");
            assert_eq!(error.index, 1);
            assert_eq!(error.error.kind, ParseErrorKind::MissingDollar);
            assert_eq!(error.error.position, 13);
        }
        other => panic!("{:?}", other),
    }
}

#[test]
fn two_states_of_one_name_fail_the_load() {
    let mut description = life();
    description.states.push((
        "dead".to_string(),
        RulesetState::new(RulesetColour::Rgba(9, 9, 9, 9), Vec::new(), None),
    ));
    description.default_state = "nowhere".to_string();
    assert_eq!(
        build_ruleset(description).err().unwrap(),
        LoadError::DuplicateState { state: "dead".to_string() }
    );
}

#[test]
fn a_default_state_that_is_no_state_fails_the_load() {
    let mut description = life();
    description.default_state = "zombie".to_string();
    description.states[0].1.rules.push(rule("$alive == 8", outcome("nowhere")));
    assert_eq!(
        build_ruleset(description).err().unwrap(),
        LoadError::InvalidDefaultState { state: "zombie".to_string() }
    );
    let empty = RulesetDescription {
        default_state: "dead".to_string(),
        neighbourhood: Neighbourhood::Individual,
        states: Vec::new(),
    };
    assert_eq!(
        build_ruleset(empty).err().unwrap(),
        LoadError::InvalidDefaultState { state: "dead".to_string() }
    );
}

#[test]
fn an_outcome_that_names_no_state_fails_the_load() {
    let mut description = life();
    description.states[1].1.rules.push(rule("$alive == 8", outcome("zombie")));
    description.states[1].1.otherwise = Some(outcome("ghost"));
    description.states[0].1.colour = RulesetColour::Hex("#12".to_string());
    assert_eq!(
        build_ruleset(description).err().unwrap(),
        LoadError::MissingOutcomeState { state: "alive".to_string(), next: "zombie".to_string() }
    );
    let mut description = life();
    description.states[0].1.otherwise = Some(outcome("ghost"));
    assert_eq!(
        build_ruleset(description).err().unwrap(),
        LoadError::MissingOutcomeState { state: "dead".to_string(), next: "ghost".to_string() }
    );
}

#[test]
fn a_text_that_writes_no_colour_fails_the_load() {
    let mut description = life();
    description.states[1].1.colour = RulesetColour::Hex("#ffffff".to_string());
    assert_eq!(
        build_ruleset(description).err().unwrap(),
        LoadError::UnresolvableColour { state: "alive".to_string(), colour: "#ffffff".to_string() }
    );
    let mut description = life();
    description.states[0].1.rules[0].1.paint = Some(RulesetColour::Hex("red".to_string()));
    description.states[0].1.otherwise = Some(painted("dead", "blue"));
    assert_eq!(
        build_ruleset(description).err().unwrap(),
        LoadError::UnresolvableColour { state: "dead".to_string(), colour: "red".to_string() }
    );
    let mut description = life();
    description.states[0].1.otherwise = Some(painted("dead", "blue"));
    assert_eq!(
        build_ruleset(description).err().unwrap(),
        LoadError::UnresolvableColour { state: "dead".to_string(), colour: "blue".to_string() }
    );
}

#[test]
fn the_next_cell_takes_the_colour_of_its_state() {
    let ruleset = built(life());
    let dead = cell("dead", (0, 0, 0, 255));
    let alive = cell("alive", (255, 255, 255, 255));
    assert_eq!(ruleset.next_cell(&dead, &census(&[("alive", 3), ("dead", 5)])), alive);
    assert_eq!(ruleset.next_cell(&dead, &census(&[("alive", 2), ("dead", 6)])), dead);
    assert_eq!(ruleset.next_cell(&alive, &census(&[("alive", 1), ("dead", 7)])), dead);
    assert_eq!(ruleset.next_cell(&alive, &census(&[("alive", 2), ("dead", 6)])), alive);
    assert_eq!(ruleset.next_cell(&alive, &census(&[("alive", 3), ("dead", 5)])), alive);
    assert_eq!(ruleset.next_cell(&alive, &census(&[("alive", 4), ("dead", 4)])), dead);
}

#[test]
fn a_cell_that_no_rule_moves_keeps_its_colour() {
    let ruleset = built(life());
    let tinted = cell("alive", (1, 2, 3, 4));
    assert_eq!(ruleset.next_cell(&tinted, &census(&[("alive", 2)])), tinted);
    let stranger = cell("zombie", (9, 9, 9, 9));
    assert_eq!(ruleset.next_cell(&stranger, &census(&[("alive", 3)])), stranger);
}

#[test]
fn the_paint_of_an_outcome_goes_before_the_colour_of_the_state() {
    let mut description = life();
    description.states[0].1.rules[0].1 = painted("alive", "#0a0b0c0d");
    description.states[1].1.otherwise = Some(painted("alive", "#01020304"));
    let ruleset = built(description);
    let dead = cell("dead", (0, 0, 0, 255));
    assert_eq!(
        ruleset.next_cell(&dead, &census(&[("alive", 3)])),
        cell("alive", (10, 11, 12, 13))
    );
    let alive = cell("alive", (255, 255, 255, 255));
    assert_eq!(ruleset.next_cell(&alive, &census(&[("alive", 2)])), cell("alive", (1, 2, 3, 4)));
    assert_eq!(
        ruleset.next_cell(&alive, &census(&[("alive", 5)])),
        cell("dead", (0, 0, 0, 255))
    );
}
