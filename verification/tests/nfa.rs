use blogger::regex::expr::Expr;
use blogger::regex::nfa::{Condition, State, NFA};

fn run_test(input: &str, expected: &str) {
    let expr = Expr::build(input).unwrap();
    let nfa = NFA::build(expr).expect("Failed to build NFA");
    let actual_str = nfa.to_string();
    let actual = actual_str.trim();
    assert_eq!(actual, expected.trim(), "Mismatch for input: {}", input);
}

#[test]
fn test_simple_expression() {
    run_test(
        "a.b",
        r#"
head = 0
(idx = 0 [match 'a' -> Some(1)])
(idx = 1 [match 'b' -> Some(2)])
(idx = 2 [accept])
"#,
    );
}

#[test]
fn test_alternation() {
    run_test(
        "a|b",
        r#"
head = 2
(idx = 0 [match 'a' -> Some(3)])
(idx = 1 [match 'b' -> Some(3)])
(idx = 2 [-> (Some(0) | Some(1))])
(idx = 3 [accept])
"#,
    );
}

#[test]
fn nfa_test_nested_alternation_and_concat() {
    run_test(
        "(a.b)|(c|d)",
        r#"
head = 5
(idx = 0 [match 'a' -> Some(1)])
(idx = 1 [match 'b' -> Some(6)])
(idx = 2 [match 'c' -> Some(6)])
(idx = 3 [match 'd' -> Some(6)])
(idx = 4 [-> (Some(2) | Some(3))])
(idx = 5 [-> (Some(0) | Some(4))])
(idx = 6 [accept])
"#,
    );
}

#[test]
fn test_kleene_star() {
    run_test(
        "a*",
        r#"
head = 1
(idx = 0 [match 'a' -> Some(1)])
(idx = 1 [-> (Some(0) | Some(2))])
(idx = 2 [accept])
"#,
    );
}

#[test]
fn nfa_test_plus_operator() {
    run_test(
        "a+",
        r#"
head = 0
(idx = 0 [match 'a' -> Some(1)])
(idx = 1 [-> (Some(0) | Some(2))])
(idx = 2 [accept])
"#,
    );
}

#[test]
fn test_optional_operator() {
    run_test(
        "a?",
        r#"
head = 1
(idx = 0 [match 'a' -> Some(2)])
(idx = 1 [-> (Some(0) | Some(2))])
(idx = 2 [accept])
"#,
    );
}

#[test]
fn nfa_test_complex_expression() {
    run_test(
        "a.b.c|d*",
        r#"
head = 5
(idx = 0 [match 'a' -> Some(1)])
(idx = 1 [match 'b' -> Some(2)])
(idx = 2 [match 'c' -> Some(6)])
(idx = 3 [match 'd' -> Some(4)])
(idx = 4 [-> (Some(3) | Some(6))])
(idx = 5 [-> (Some(0) | Some(4))])
(idx = 6 [accept])
"#,
    );
}

#[test]
fn concat_keeps_the_open_edges_of_its_right_operand() {
    run_test(
        "a.(b|c)",
        r#"
head = 0
(idx = 0 [match 'a' -> Some(3)])
(idx = 1 [match 'b' -> Some(4)])
(idx = 2 [match 'c' -> Some(4)])
(idx = 3 [-> (Some(1) | Some(2))])
(idx = 4 [accept])
"#,
    );
}

#[test]
fn head_is_the_head_of_the_last_fragment() {
    run_test(
        "a.b?",
        r#"
head = 0
(idx = 0 [match 'a' -> Some(2)])
(idx = 1 [match 'b' -> Some(3)])
(idx = 2 [-> (Some(1) | Some(3))])
(idx = 3 [accept])
"#,
    );
}

#[test]
fn char_class_lists_every_character_of_the_range() {
    run_test(
        "[a-c]",
        r#"
head = 0
(idx = 0 [match '['a', 'b', 'c']' -> Some(1)])
(idx = 1 [accept])
"#,
    );
}

#[test]
fn new_automaton_is_empty() {
    let nfa = NFA::new();
    assert_eq!(nfa.size(), 0);
    assert_eq!(nfa.start(), 0);
    assert_eq!(nfa.to_string(), "head = 0\n");
}

#[test]
fn build_rejects_missing_operands() {
    assert_eq!(
        NFA::build(vec![Expr::Concat]).err(),
        Some("Missing right fragment".to_string())
    );
    assert_eq!(
        NFA::build(vec![Expr::Literal('a'), Expr::Concat]).err(),
        Some("Missing left fragment".to_string())
    );
    assert_eq!(
        NFA::build(vec![Expr::Alt]).err(),
        Some("Missing right fragment".to_string())
    );
    assert_eq!(
        NFA::build(vec![Expr::Literal('a'), Expr::Alt]).err(),
        Some("Missing left fragment".to_string())
    );
    assert_eq!(
        NFA::build(vec![Expr::Opt]).err(),
        Some("Missing fragment for '?' operator".to_string())
    );
    assert_eq!(
        NFA::build(vec![Expr::Star]).err(),
        Some("Missing fragment for '*' operator".to_string())
    );
    assert_eq!(
        NFA::build(vec![Expr::Plus]).err(),
        Some("Missing fragment for '+' operator".to_string())
    );
}

#[test]
fn build_rejects_what_is_left_on_the_stack() {
    assert_eq!(
        NFA::build(vec![]).err(),
        Some("No final fragment on stack".to_string())
    );
    assert_eq!(
        NFA::build(vec![Expr::Literal('a'), Expr::Literal('b')]).err(),
        Some("Leftover fragments on stack".to_string())
    );
}

#[test]
fn build_rejects_descending_range() {
    assert_eq!(
        NFA::build(vec![Expr::CharRange('z', 'a')]).err(),
        Some("Ranges must be specified in ascending order".to_string())
    );
}

#[test]
fn states_carry_the_position_of_their_element() {
    let nfa = NFA::build(Expr::build("a.b").unwrap()).unwrap();
    assert_eq!(nfa.size(), 3);
    assert_eq!(nfa.get_state(0).get_id(), 0);
    assert_eq!(nfa.get_state(1).get_id(), 1);
    assert_eq!(nfa.get_state(2).get_id(), 3);
    assert!(matches!(nfa.get_state(2), State::Accept { .. }));
}

#[test]
fn set_out_fills_the_open_edge() {
    let mut t = State::Transition {
        id: 0,
        condition: Condition::Id('a'),
        output: None,
    };
    t.set_out(Some(4));
    assert_eq!(t.to_string(), "[match 'a' -> Some(4)]");
    let mut s = State::Split {
        id: 1,
        left: None,
        right: None,
    };
    s.set_out(Some(2));
    assert_eq!(s.to_string(), "[-> (Some(2) | Some(2))]");
    let mut s = State::Split {
        id: 1,
        left: Some(0),
        right: None,
    };
    s.set_out(Some(2));
    assert_eq!(s.to_string(), "[-> (Some(0) | Some(2))]");
    let mut a = State::Accept { id: 2 };
    a.set_out(Some(1));
    assert_eq!(a.to_string(), "[accept]");
}

#[test]
fn matches_condition_tests_literal_and_class() {
    let t = State::Transition {
        id: 0,
        condition: Condition::Id('a'),
        output: None,
    };
    assert!(t.matches_condition('a'));
    assert!(!t.matches_condition('b'));
    let c = State::Transition {
        id: 0,
        condition: Condition::CharClass(vec!['x', 'y']),
        output: None,
    };
    assert!(c.matches_condition('y'));
    assert!(!c.matches_condition('z'));
    assert!(!State::Accept { id: 0 }.matches_condition('a'));
    assert_eq!(Condition::Id('q').to_string(), "q");
    assert_eq!(Condition::CharClass(vec!['x', '\n']).to_string(), "['x', '\\n']");
}
