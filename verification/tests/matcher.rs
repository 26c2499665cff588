use blogger::regex::matcher::{Match, Matcher};
use blogger::regex::nfa::State;

#[test]
fn test_simple_literal_match() {
    let matcher = Matcher::new("a").expect("Failed to build Matcher");
    assert!(matcher.matches("a"));
    assert!(!matcher.matches("b"));
}

#[test]
fn test_concat_match() {
    let matcher = Matcher::new("a.b").expect("Failed to build Matcher");
    assert!(matcher.matches("ab"));
    assert!(!matcher.matches("a"));
    assert!(!matcher.matches("abc"));
}

#[test]
fn test_alternation_match() {
    let matcher = Matcher::new("a|b").expect("Failed to build Matcher");
    assert!(matcher.matches("a"));
    assert!(matcher.matches("b"));
    assert!(!matcher.matches("c"));
}

#[test]
fn test_kleene_star_match() {
    let matcher = Matcher::new("a*").expect("Failed to build Matcher");
    assert!(matcher.matches(""));
    assert!(matcher.matches("a"));
    assert!(matcher.matches("aaa"));
    assert!(!matcher.matches("b"));
}

#[test]
fn test_plus_operator_match() {
    let matcher = Matcher::new("a+").expect("Failed to build Matcher");
    assert!(!matcher.matches(""));
    assert!(matcher.matches("a"));
    assert!(matcher.matches("aaa"));
    assert!(!matcher.matches("b"));
}

#[test]
fn test_optional_operator_match() {
    let matcher = Matcher::new("a?").expect("Failed to build Matcher");
    assert!(matcher.matches(""));
    assert!(matcher.matches("a"));
    assert!(!matcher.matches("aa"));
    assert!(!matcher.matches("b"));
}

#[test]
fn test_complex_expression_match() {
    let matcher = Matcher::new("(a.b)|(c*)").expect("Failed to build Matcher");
    assert!(matcher.matches("ab"));
    assert!(matcher.matches("")); // Matches "c*" with zero occurrences
    assert!(matcher.matches("ccc"));
    assert!(!matcher.matches("ac"));
    assert!(!matcher.matches("d"));
}

#[test]
fn matcher_test_nested_alternation_and_concat() {
    let matcher = Matcher::new("(a.b)|(c|d)").expect("Failed to build Matcher");
    assert!(matcher.matches("ab"));
    assert!(matcher.matches("c"));
    assert!(matcher.matches("d"));
    assert!(!matcher.matches("a"));
    assert!(!matcher.matches("b"));
}

#[test]
fn test_no_match() {
    let matcher = Matcher::new("a.b").expect("Failed to build Matcher");
    assert!(!matcher.matches(""));
    assert!(!matcher.matches("a"));
    assert!(!matcher.matches("b"));
}

#[test]
fn test_repetition_and_alternation() {
    let matcher = Matcher::new("(a|b)*").expect("Failed to build Matcher");
    assert!(matcher.matches(""));
    assert!(matcher.matches("a"));
    assert!(matcher.matches("b"));
    assert!(matcher.matches("abab"));
    assert!(!matcher.matches("c"));
}

#[test]
fn test_complex_repetition() {
    let matcher = Matcher::new("(a.b)*").expect("Failed to build Matcher");
    assert!(matcher.matches(""));
    assert!(matcher.matches("ab"));
    assert!(matcher.matches("abab"));
    assert!(!matcher.matches("a"));
    assert!(!matcher.matches("abc"));
}

#[test]
fn digits_match_one_or_more() {
    let matcher = Matcher::new("[0-9]+").expect("Failed to build Matcher");
    assert!(matcher.matches("123"));
    assert!(matcher.matches("7"));
    assert!(!matcher.matches(""));
    assert!(!matcher.matches("12a"));
}

#[test]
fn concat_with_alternative_on_the_right() {
    let matcher = Matcher::new("a.(b|c)").expect("Failed to build Matcher");
    assert!(matcher.matches("ab"));
    assert!(matcher.matches("ac"));
    assert!(!matcher.matches("a"));
    assert!(!matcher.matches("b"));
    assert!(!matcher.matches("abc"));
}

#[test]
fn optional_on_the_right_of_concat() {
    let matcher = Matcher::new("a.b?").expect("Failed to build Matcher");
    assert!(matcher.matches("a"));
    assert!(matcher.matches("ab"));
    assert!(!matcher.matches(""));
    assert!(!matcher.matches("b"));
}

#[test]
fn repeated_calls_give_the_same_answer() {
    let matcher = Matcher::new("(a|b)*.c").expect("Failed to build Matcher");
    for input in ["", "c", "abc", "abca", "ababababc"] {
        let first = matcher.matches(input);
        for _ in 0..3 {
            assert_eq!(matcher.matches(input), first);
        }
    }
}

#[test]
fn star_of_star_terminates() {
    let matcher = Matcher::new("(a*)*").expect("Failed to build Matcher");
    assert!(matcher.matches(""));
    assert!(matcher.matches("aaaa"));
    assert!(!matcher.matches("ab"));
}

#[test]
fn non_ascii_input_is_matched_by_character() {
    let matcher = Matcher::new("é.[α-ω]*").expect("Failed to build Matcher");
    assert!(matcher.matches("é"));
    assert!(matcher.matches("éλμ"));
    assert!(!matcher.matches("e"));
}

#[test]
fn ill_formed_patterns_do_not_compile() {
    assert_eq!(Matcher::new("ab").err(), Some("Leftover fragments on stack".to_string()));
    assert_eq!(Matcher::new("").err(), Some("No final fragment on stack".to_string()));
    assert_eq!(Matcher::new("*").err(), Some("Missing fragment for '*' operator".to_string()));
    assert_eq!(Matcher::new("a|").err(), Some("Missing left fragment".to_string()));
    assert_eq!(Matcher::new("(a").err(), Some("Unmatched '('".to_string()));
    assert_eq!(Matcher::new("[a").err(), Some("Unclosed '['".to_string()));
    assert_eq!(
        Matcher::new("[z-a]").err(),
        Some("Ranges must be specified in ascending order".to_string())
    );
}

#[test]
fn matcher_exposes_its_automaton() {
    let matcher = Matcher::new("a|b").expect("Failed to build Matcher");
    assert_eq!(matcher.nfa().size(), 4);
    assert_eq!(matcher.nfa().start(), 2);
}

#[test]
fn trait_method_agrees_with_the_inherent_one() {
    let matcher = Matcher::new("a.b").expect("Failed to build Matcher");
    let through_trait: &dyn Match = &matcher;
    assert!(through_trait.matches("ab"));
    assert!(!through_trait.matches("ba"));
}

#[test]
fn cached_closures_hold_the_state_and_follow_split_edges() {
    for pattern in ["a", "(a|b)*", "a.b?.c+", "((a*)*|b?)+", "[0-9]+.(x|y)?"] {
        let matcher = Matcher::new(pattern).expect("Failed to build Matcher");
        let nfa = matcher.nfa();
        for s in 0..nfa.size() {
            let closure = matcher.closure(s).unwrap();
            assert!(closure.contains(&s));
            for &member in closure {
                if let State::Split { left, right, .. } = nfa.get_state(member) {
                    for next in [left, right].into_iter().flatten() {
                        assert!(closure.contains(&next));
                    }
                }
            }
            let mut sorted = closure.clone();
            sorted.sort();
            sorted.dedup();
            assert_eq!(sorted.len(), closure.len());
        }
        assert!(matcher.closure(nfa.size()).is_none());
    }
}

#[test]
fn closure_of_a_transition_is_the_state_alone() {
    let matcher = Matcher::new("a.b").expect("Failed to build Matcher");
    assert_eq!(matcher.closure(0), Some(&vec![0]));
    let star = Matcher::new("a*").expect("Failed to build Matcher");
    let mut of_split = star.closure(1).unwrap().clone();
    of_split.sort();
    assert_eq!(of_split, vec![0, 1, 2]);
}

#[test]
fn every_compiled_pattern_has_one_accept_state() {
    for pattern in ["a", "(a|b)*", "a.b?.c+", "[a-c]|x", "\\*+"] {
        let matcher = Matcher::new(pattern).expect("Failed to build Matcher");
        let nfa = matcher.nfa();
        let accepts = (0..nfa.size())
            .filter(|&i| matches!(nfa.get_state(i), State::Accept { .. }))
            .count();
        assert_eq!(accepts, 1);
        assert!(matches!(nfa.get_state(nfa.size() - 1), State::Accept { .. }));
        assert!(nfa.start() < nfa.size());
    }
}
