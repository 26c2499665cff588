use blogger::diag::Span;
use blogger::lexer::lexer::Lexer;
use blogger::lexer::tokens::token_specs;
use blogger::parser::error::ParserError;
use blogger::parser::parser::{
    ASTIterator, ArticleDeclaration, AstNode, List, Paragraph, Parser, Program,
    SectionDeclaration, Statement,
};

fn parse(src: &str) -> Result<Program, ParserError> {
    let source = src.to_string();
    let lexer = Lexer::new(&source, token_specs());
    let mut parser = Parser::new(lexer, &source);
    parser.parse()
}

fn message(src: &str) -> String {
    parse(src).expect_err("the source should not parse").msg
}

fn ends(span: Span) -> (usize, usize) {
    (span.start().offset(), span.end().offset())
}

fn describe(node: &AstNode) -> String {
    match node {
        AstNode::Article(a) => format!("article {}", a.name),
        AstNode::Section(s) => format!("section {}", s.name),
        AstNode::Paragraph(p) => format!("paragraph {}", p.statements.len()),
        AstNode::Statement(s) => match s {
            Statement::Heading(l, t) => format!("heading {} {}", l, t),
            Statement::TextBlock(t) => format!("text {}", t),
            Statement::CodeBlock(t) => format!("code {}", t),
            Statement::Aside(t) => format!("aside {}", t),
            Statement::List(_) => "list statement".to_string(),
        },
        AstNode::List(l) => match l {
            List::Ordered(items) => format!("ordered {}", items.join(",")),
            List::Unordered(items) => format!("unordered {}", items.join(",")),
        },
    }
}

fn visits(program: &Program) -> Vec<String> {
    program
        .iter_ast()
        .collect_nodes()
        .iter()
        .map(describe)
        .collect()
}

#[test]
fn parses_an_empty_article() {
    let program = parse("article{}").unwrap();
    assert_eq!(program.article.name, "");
    assert!(program.article.section_calls.is_empty());
    assert!(program.sections.is_empty());
}

#[test]
fn parses_a_named_article_with_calls() {
    let program = parse("article Hello { a b a }").unwrap();
    assert_eq!(program.article.name, "Hello");
    assert_eq!(program.article.section_calls, vec!["a", "b", "a"]);
}

#[test]
fn parses_every_kind_of_statement() {
    let program = parse(
        "section s { paragraph { h2{ Title } `text` code{ `x = 1` } aside{ note } \
         ol{ li{a} li{`b c`} } ul{ } } paragraph { } } article A { s }",
    )
    .unwrap();
    assert_eq!(program.sections.len(), 1);
    let section = program.section("s").unwrap();
    assert_eq!(section.name, "s");
    assert_eq!(section.paragraphs.len(), 2);
    let statements = &section.paragraphs[0].statements;
    assert_eq!(statements.len(), 6);
    assert!(matches!(&statements[0], Statement::Heading(l, t) if l == "h2" && t == "Title"));
    assert!(matches!(&statements[1], Statement::TextBlock(t) if t == "text"));
    assert!(matches!(&statements[2], Statement::CodeBlock(t) if t == "x = 1"));
    assert!(matches!(&statements[3], Statement::Aside(t) if t == "note"));
    assert!(
        matches!(&statements[4], Statement::List(List::Ordered(items)) if items == &vec!["a", "b c"])
    );
    assert!(matches!(&statements[5], Statement::List(List::Unordered(items)) if items.is_empty()));
    assert!(section.paragraphs[1].statements.is_empty());
    assert!(program.section("t").is_none());
}

#[test]
fn heading_and_aside_and_item_take_a_text_block() {
    let program =
        parse("article A { s } section s { paragraph { h1{ `a b` } aside{ `c d` } } }").unwrap();
    let statements = &program.sections[0].paragraphs[0].statements;
    assert!(matches!(&statements[0], Statement::Heading(l, t) if l == "h1" && t == "a b"));
    assert!(matches!(&statements[1], Statement::Aside(t) if t == "c d"));
}

#[test]
fn sections_keep_the_order_of_their_declaration() {
    let program = parse("section b {} article A { a b } section a {}").unwrap();
    let names: Vec<&str> = program.sections.iter().map(|s| s.name.as_str()).collect();
    assert_eq!(names, vec!["b", "a"]);
}

#[test]
fn two_articles_are_rejected_at_the_second() {
    let err = parse("article A { } article B { }").unwrap_err();
    assert_eq!(err.msg, "Multiple article declarations found");
    assert_eq!(ends(err.span), (14, 21));
    assert_eq!(
        err.to_string(),
        "Parse error: Multiple article declarations found at \nLine: 0, Column: 14\n>> 'article A { } article B { }'\n   --------------^^^^^^^^-----"
    );
    assert_eq!(
        message("article A {} section s {} article A {} article C {}"),
        "Multiple article declarations found"
    );
}

#[test]
fn a_missing_article_is_rejected() {
    let err = parse("section s { }").unwrap_err();
    assert_eq!(err.msg, "Missing article declaration");
    assert_eq!(ends(err.span), (0, 0));
    assert_eq!(message(""), "Missing article declaration");
}

#[test]
fn a_duplicate_section_is_rejected() {
    let err = parse("article A { s } section s { } section t { } section s { }").unwrap_err();
    assert_eq!(err.msg, "Duplicate section: s");
    assert_eq!(ends(err.span), (44, 51));
}

#[test]
fn accepted_programs_have_distinct_section_names() {
    for src in [
        "article A { }",
        "article A { a } section a { } section b { } section c { }",
        "section x { } section y { } article { x y x }",
    ] {
        let program = parse(src).unwrap();
        for (i, a) in program.sections.iter().enumerate() {
            for b in &program.sections[i + 1..] {
                assert_ne!(a.name, b.name);
            }
        }
    }
}

#[test]
fn unexpected_tokens_are_rejected_with_their_place() {
    let err = parse("article A { } foo").unwrap_err();
    assert_eq!(
        err.msg,
        "Unexpected token at program level: Token { kind: Ident(\"foo\"), span: Span { start: Position { offset: 14, line: 0, column: 14 }, end: Position { offset: 17, line: 0, column: 17 } } }"
    );
    assert_eq!(ends(err.span), (14, 17));
    assert_eq!(
        message("article A { } section s { paragraph { li } }"),
        "Unexpected token in statement: Token { kind: LItem, span: Span { start: Position { offset: 38, line: 0, column: 38 }, end: Position { offset: 40, line: 0, column: 40 } } }"
    );
}

#[test]
fn unmet_expectations_are_rejected() {
    assert_eq!(message("article A"), "Unexpected end of input");
    assert_eq!(message("article A B"), "Expected LBrace but found Ident(\"B\")");
    assert_eq!(message("article { section"), "Expected identifier, found Section");
    assert_eq!(message("article {"), "Unexpected end of input");
    assert_eq!(message("section { }"), "Expected identifier, found LBrace");
    assert_eq!(
        message("section s { li }"),
        "Expected Paragraph but found LItem"
    );
    assert_eq!(
        message("section s { paragraph { h1 { } } }"),
        "Expected heading content, found RBrace"
    );
    assert_eq!(
        message("section s { paragraph { aside { ol } } }"),
        "Expected TextBlock or Ident in aside, found OList"
    );
    assert_eq!(
        message("section s { paragraph { ol { li { } } } }"),
        "Expected TextBlock or Ident in list item, found RBrace"
    );
    assert_eq!(
        message("section s { paragraph { ol { x } } }"),
        "Expected LItem but found Ident(\"x\")"
    );
    assert_eq!(
        message("section s { paragraph { code { x } } }"),
        "Expected text block inside code block"
    );
    assert_eq!(
        message("section s { paragraph { code { x y } } }"),
        "Expected RBrace but found Ident(\"y\")"
    );
    assert_eq!(
        message("section s { paragraph { h1 `a` } }"),
        "Expected LBrace but found TextBlock(\"a\")"
    );
}

#[test]
fn a_failure_of_the_lexer_becomes_a_failure_of_the_parser() {
    let err = parse("article A { # }").unwrap_err();
    assert_eq!(
        err.msg,
        "Lexer Error: Unexpected character '#' at: \nLine: 0, Column: 12\n>> 'article A { # }'\n   ------------^--"
    );
    assert_eq!(ends(err.span), (12, 12));
    assert_eq!(
        message("article A { } section s { paragraph { `open } }"),
        "Lexer Error: Unterminated block\n\nLine: 0, Column: 39\n>> 'article A { } section s { paragraph { `open } }'\n   ---------------------------------------^-------"
    );
}

#[test]
fn errors_can_be_made_by_hand() {
    let p = blogger::diag::Position::new().advance('a');
    let err = ParserError::new_with_source("bad", Span::new(p, p), "xyz");
    assert_eq!(err.msg, "bad");
    assert_eq!(err.render(), "bad at \nLine: 0, Column: 1\n>> 'xyz'\n   -^-");
    let other = err.with_source("worse", Span::new(p, p));
    assert_eq!(other.render(), "worse at \nLine: 0, Column: 1\n>> 'xyz'\n   -^-");
    let bare = ParserError::from_message("alone");
    assert_eq!(bare.to_string(), "Parse error: alone at \nLine: 0, Column: 0\n>> ''\n   ");
}

#[test]
fn traversal_is_preorder_with_the_article_first() {
    let program = parse(
        "article A { s t } section t { paragraph { `x` } } \
         section s { paragraph { h1{ Hi } ol{ li{a} li{b} } } paragraph { aside{ n } } }",
    )
    .unwrap();
    assert_eq!(
        visits(&program),
        vec![
            "article A",
            "section s",
            "paragraph 2",
            "heading h1 Hi",
            "list statement",
            "ordered a,b",
            "paragraph 1",
            "aside n",
            "section t",
            "paragraph 1",
            "text x",
        ]
    );
}

#[test]
fn traversal_skips_calls_that_name_no_section() {
    let program = parse("article A { missing s gone } section s { }").unwrap();
    assert_eq!(visits(&program), vec!["article A", "section s"]);
}

#[test]
fn traversal_visits_a_section_once_for_each_call() {
    let program = parse("article A { s s } section s { } section unused { }").unwrap();
    assert_eq!(visits(&program), vec!["article A", "section s", "section s"]);
}

#[test]
fn traversal_visits_every_node_once_when_every_section_is_called_once() {
    let program = parse(
        "article A { a b } section a { paragraph { `1` `2` } paragraph { } } \
         section b { paragraph { ul{ li{x} } } }",
    )
    .unwrap();
    let seen = visits(&program);
    let nodes = 1
        + program.sections.len()
        + program
            .sections
            .iter()
            .map(|s| {
                s.paragraphs.len()
                    + s.paragraphs
                        .iter()
                        .map(|p| {
                            p.statements.len()
                                + p.statements
                                    .iter()
                                    .filter(|s| matches!(s, Statement::List(_)))
                                    .count()
                        })
                        .sum::<usize>()
            })
            .sum::<usize>();
    assert_eq!(seen.len(), nodes);
    assert_eq!(seen[0], "article A");
}

#[test]
fn next_node_hands_out_one_node_a_call() {
    let program = parse("article A { s } section s { paragraph { } }").unwrap();
    let mut nodes = ASTIterator::new(&program);
    assert!(matches!(nodes.next_node(), Some(AstNode::Article(_))));
    assert!(matches!(nodes.next_node(), Some(AstNode::Section(_))));
    assert!(matches!(nodes.next_node(), Some(AstNode::Paragraph(_))));
    assert!(nodes.next_node().is_none());
    assert!(nodes.next_node().is_none());
}

#[test]
fn children_follow_the_kind_of_the_node() {
    let program = Program {
        article: ArticleDeclaration {
            name: "A".to_string(),
            section_calls: vec!["s".to_string(), "none".to_string()],
        },
        sections: vec![SectionDeclaration {
            name: "s".to_string(),
            paragraphs: vec![Paragraph {
                statements: vec![
                    Statement::TextBlock("t".to_string()),
                    Statement::List(List::Unordered(vec![])),
                ],
            }],
        }],
    };
    let article = AstNode::Article(&program.article);
    let sections = article.children(&program);
    assert_eq!(sections.len(), 1);
    let paragraphs = sections[0].children(&program);
    assert_eq!(paragraphs.len(), 1);
    let statements = paragraphs[0].children(&program);
    assert_eq!(statements.len(), 2);
    assert!(statements[0].children(&program).is_empty());
    let lists = statements[1].children(&program);
    assert_eq!(lists.len(), 1);
    assert!(matches!(lists[0], AstNode::List(_)));
    assert!(lists[0].children(&program).is_empty());
}
