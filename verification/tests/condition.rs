use cellular_automata::census::Census;
use cellular_automata::condition::{evaluate_all, CompareTo, Condition, Op};
use cellular_automata::rule_parsing::{parse_rule, CharClass};
use cellular_automata::text::Source;

fn census(counts: &[(&str, usize)]) -> Census {
    let mut census = Census::new();
    for (state, count) in counts {
        census.insert(state.to_string(), *count);
    }
    census
}

#[test]
fn operators_apply_to_counts() {
    assert!(Op::Eq.apply(2, 2) && !Op::Eq.apply(2, 3));
    assert!(Op::Ne.apply(2, 3) && !Op::Ne.apply(2, 2));
    assert!(Op::Gt.apply(3, 2) && !Op::Gt.apply(2, 2));
    assert!(Op::Ge.apply(2, 2) && !Op::Ge.apply(1, 2));
    assert!(Op::Lt.apply(1, 2) && !Op::Lt.apply(2, 2));
    assert!(Op::Le.apply(2, 2) && !Op::Le.apply(3, 2));
    assert!(Op::Gt.apply(usize::MAX, 0) && Op::Lt.apply(0, usize::MAX));
}

#[test]
fn a_right_hand_side_is_a_count_or_a_number() {
    let tally = census(&[("a", 4)]);
    assert_eq!(CompareTo::Value(7).value(&tally), 7);
    assert_eq!(CompareTo::State("a".to_string()).value(&tally), 4);
    assert_eq!(CompareTo::State("b".to_string()).value(&tally), 0);
}

#[test]
fn a_condition_compares_the_count_of_its_state() {
    let tally = census(&[("a", 4), ("b", 2)]);
    let more = Condition {
        state: "a".to_string(),
        op: Op::Gt,
        compare_to: CompareTo::State("b".to_string()),
    };
    assert!(more.evaluate(&tally));
    let none = Condition { state: "c".to_string(), op: Op::Eq, compare_to: CompareTo::Value(0) };
    assert!(none.evaluate(&tally));
    let fewer = Condition {
        state: "a".to_string(),
        op: Op::Lt,
        compare_to: CompareTo::State("b".to_string()),
    };
    assert!(!fewer.evaluate(&tally));
}

#[test]
fn a_list_holds_where_each_condition_holds() {
    let conditions = parse_rule("$a > $b; $b == 2; $c <= 0").unwrap();
    assert!(evaluate_all(&conditions, &census(&[("a", 4), ("b", 2)])));
    assert!(!evaluate_all(&conditions, &census(&[("a", 4), ("b", 2), ("c", 1)])));
    assert!(!evaluate_all(&conditions, &census(&[("a", 2), ("b", 2)])));
    assert!(evaluate_all(&Vec::new(), &Census::new()));
}

#[test]
fn the_classes_of_characters() {
    for c in [' ', '\t', '\n', '\r'] {
        assert!(CharClass::Space.holds(c));
        assert!(!CharClass::Name.holds(c));
        assert!(!CharClass::Digit.holds(c));
    }
    for c in ['0', '5', '9'] {
        assert!(CharClass::Digit.holds(c));
        assert!(CharClass::Name.holds(c));
    }
    for c in ['a', 'z', 'A', 'Z', '_', 'é', 'ß', '状', '٣', 'Ω'] {
        assert!(CharClass::Name.holds(c), "{}", c);
        assert!(!CharClass::Digit.holds(c), "{}", c);
        assert!(!CharClass::Space.holds(c), "{}", c);
    }
    for c in ['$', ';', '=', '<', '>', '!', '-', '+', '.', '#', '€', '\u{a0}', '\u{2003}', '/', ':', '@', '[', '`', '{'] {
        assert!(!CharClass::Name.holds(c), "{}", c);
        assert!(!CharClass::Digit.holds(c), "{}", c);
        assert!(!CharClass::Space.holds(c), "{}", c);
    }
}

#[test]
fn a_source_is_read_by_characters() {
    let source = Source::new("añb€c");
    assert_eq!(source.len(), 5);
    assert_eq!(source.at(0), 'a');
    assert_eq!(source.at(1), 'ñ');
    assert_eq!(source.at(3), '€');
    assert_eq!(source.slice(1, 4), "ñb€");
    assert_eq!(source.copy(3, 5), "€c".to_string());
    assert_eq!(source.slice(2, 2), "");
    assert_eq!(Source::new("").len(), 0);
}
