use blogger::regex::expr::Expr;

fn run_test(input: &str, expect: &Vec<Expr>) {
    let e = Expr::build(input).unwrap();
    assert_eq!(e, *expect);
}

#[test]
fn test_single_literal() {
    run_test("a", &vec![Expr::Literal('a')]);
}

#[test]
fn test_concat() {
    run_test("ab", &vec![Expr::Literal('a'), Expr::Literal('b')]);
}

#[test]
fn test_concat_operator() {
    run_test(
        "a.b",
        &vec![Expr::Literal('a'), Expr::Literal('b'), Expr::Concat],
    );
}

#[test]
fn test_alt_operator() {
    run_test(
        "a|b",
        &vec![Expr::Literal('a'), Expr::Literal('b'), Expr::Alt],
    );
}

#[test]
fn test_star_operator() {
    run_test("a*", &vec![Expr::Literal('a'), Expr::Star]);
}

#[test]
fn test_opt_operator() {
    run_test("a?", &vec![Expr::Literal('a'), Expr::Opt]);
}

#[test]
fn expr_test_plus_operator() {
    run_test("a+", &vec![Expr::Literal('a'), Expr::Plus]);
}

#[test]
fn test_precedence_and_parentheses() {
    run_test(
        "(a|b).c",
        &vec![
            Expr::Literal('a'),
            Expr::Literal('b'),
            Expr::Alt,
            Expr::Literal('c'),
            Expr::Concat,
        ],
    );
}

#[test]
fn expr_test_complex_expression() {
    run_test(
        "a|(b.c)*",
        &vec![
            Expr::Literal('a'),
            Expr::Literal('b'),
            Expr::Literal('c'),
            Expr::Concat,
            Expr::Star,
            Expr::Alt,
        ],
    );
}

#[test]
fn test_nested_parentheses() {
    run_test(
        "((a|b).c)*",
        &vec![
            Expr::Literal('a'),
            Expr::Literal('b'),
            Expr::Alt,
            Expr::Literal('c'),
            Expr::Concat,
            Expr::Star,
        ],
    );
}

#[test]
fn test_char_range() {
    run_test("[a-z]", &vec![Expr::CharRange('a', 'z')]);
}

#[test]
fn test_complex_char_range() {
    run_test(
        "[a-z]|[A-Z]",
        &vec![
            Expr::CharRange('a', 'z'),
            Expr::CharRange('A', 'Z'),
            Expr::Alt,
        ],
    );
}

#[test]
fn test_num_range() {
    run_test("[0-9]", &vec![Expr::CharRange('0', '9')]);
}

#[test]
fn test_complex_num_range() {
    run_test(
        "[0-9]|[1-9]",
        &vec![
            Expr::CharRange('0', '9'),
            Expr::CharRange('1', '9'),
            Expr::Alt,
        ],
    );
}

#[test]
fn from_maps_operator_characters() {
    assert_eq!(Expr::from('.'), Expr::Concat);
    assert_eq!(Expr::from('|'), Expr::Alt);
    assert_eq!(Expr::from('*'), Expr::Star);
    assert_eq!(Expr::from('?'), Expr::Opt);
    assert_eq!(Expr::from('+'), Expr::Plus);
    assert_eq!(Expr::from('x'), Expr::Literal('x'));
    assert_eq!(Expr::from('('), Expr::Literal('('));
}

#[test]
fn escape_makes_any_character_a_literal() {
    run_test("\\*", &vec![Expr::Literal('*')]);
    run_test("\\(.\\)", &vec![Expr::Literal('('), Expr::Literal(')'), Expr::Concat]);
    run_test("\\\\", &vec![Expr::Literal('\\')]);
    run_test("\\[", &vec![Expr::Literal('[')]);
    run_test("\\]", &vec![Expr::Literal(']')]);
}

#[test]
fn postfix_operators_bind_tighter_than_concat_and_alt() {
    run_test(
        "a.b*|c",
        &vec![
            Expr::Literal('a'),
            Expr::Literal('b'),
            Expr::Star,
            Expr::Concat,
            Expr::Literal('c'),
            Expr::Alt,
        ],
    );
    run_test(
        "a|b.c",
        &vec![
            Expr::Literal('a'),
            Expr::Literal('b'),
            Expr::Literal('c'),
            Expr::Concat,
            Expr::Alt,
        ],
    );
    run_test(
        "a.b.c",
        &vec![
            Expr::Literal('a'),
            Expr::Literal('b'),
            Expr::Concat,
            Expr::Literal('c'),
            Expr::Concat,
        ],
    );
}

#[test]
fn range_takes_first_characters_around_first_hyphen() {
    run_test("[ab-xy]", &vec![Expr::CharRange('a', 'x')]);
    run_test("[a--]", &vec![Expr::CharRange('a', '-')]);
    run_test("[z-a]", &vec![Expr::CharRange('z', 'a')]);
}

#[test]
fn unclosed_class_is_rejected() {
    assert_eq!(Expr::build("[a-z"), Err("Unclosed '['".to_string()));
    assert_eq!(Expr::build("a.["), Err("Unclosed '['".to_string()));
    assert_eq!(Expr::build("a\\"), Err("Unclosed '['".to_string()));
}

#[test]
fn invalid_range_is_rejected() {
    assert_eq!(Expr::build("[abc]"), Err("Invalid range".to_string()));
    assert_eq!(Expr::build("[-z]"), Err("Invalid range".to_string()));
    assert_eq!(Expr::build("[a-]"), Err("Invalid range".to_string()));
    assert_eq!(Expr::build("[]"), Err("Invalid range".to_string()));
    assert_eq!(Expr::build("[\\a-z]"), Ok(vec![Expr::CharRange('\\', 'z')]));
}

#[test]
fn unmatched_parentheses_are_rejected() {
    assert_eq!(Expr::build("(a"), Err("Unmatched '('".to_string()));
    assert_eq!(Expr::build("(a|(b.c)"), Err("Unmatched '('".to_string()));
    assert_eq!(Expr::build("a)"), Err("Unmatched ')'".to_string()));
    assert_eq!(Expr::build("(a))"), Err("Unmatched ')'".to_string()));
}

#[test]
fn empty_pattern_has_empty_postfix() {
    run_test("", &vec![]);
    run_test("()", &vec![]);
}
