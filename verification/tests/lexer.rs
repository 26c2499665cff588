use blogger::diag::Span;
use blogger::lexer::error::{LexerError, LexerErrorKind};
use blogger::lexer::lexer::Lexer;
use blogger::lexer::tokens::{token_specs, Token, TokenClass, TokenKind, TokenSpec};
use blogger::regex::matcher::Matcher;

fn lex(src: &str) -> Vec<Result<Token, LexerError>> {
    let mut lexer = Lexer::new(src, token_specs());
    lexer.collect_tokens()
}

fn kinds(src: &str) -> Vec<TokenKind> {
    lex(src)
        .into_iter()
        .map(|item| item.expect("token").kind)
        .collect()
}

fn ends(span: Span) -> (usize, usize) {
    (span.start().offset(), span.end().offset())
}

fn ident(s: &str) -> TokenKind {
    TokenKind::Ident(s.to_string())
}

#[test]
fn token_specs_has_fifteen_rules() {
    assert_eq!(token_specs().len(), 15);
}

#[test]
fn lexes_keywords_and_delimiters() {
    assert_eq!(
        kinds("article section paragraph aside code ol ul li { } ( )"),
        vec![
            TokenKind::Article,
            TokenKind::Section,
            TokenKind::Paragraph,
            TokenKind::Aside,
            TokenKind::Code,
            TokenKind::OList,
            TokenKind::UList,
            TokenKind::LItem,
            TokenKind::LBrace,
            TokenKind::RBrace,
            TokenKind::LParen,
            TokenKind::RParen,
        ]
    );
}

#[test]
fn lexes_headings_with_their_level() {
    assert_eq!(
        kinds("h1 h2 h3 h4 h"),
        vec![
            TokenKind::Heading("h1".to_string()),
            TokenKind::Heading("h2".to_string()),
            TokenKind::Heading("h3".to_string()),
            ident("h4"),
            ident("h"),
        ]
    );
}

#[test]
fn whitespace_is_insignificant() {
    assert_eq!(kinds("article{}"), kinds("  article \n\t{ \r\n }  "));
    assert_eq!(
        kinds("article{}"),
        vec![TokenKind::Article, TokenKind::LBrace, TokenKind::RBrace]
    );
}

#[test]
fn longest_match_prefers_the_identifier() {
    assert_eq!(kinds("articles"), vec![ident("articles")]);
    assert_eq!(kinds("sectionx"), vec![ident("sectionx")]);
    assert_eq!(kinds("h12"), vec![ident("h12")]);
    assert_eq!(kinds("olive"), vec![ident("olive")]);
    assert_eq!(kinds("art"), vec![ident("art")]);
    assert_eq!(kinds("Article"), vec![ident("Article")]);
}

#[test]
fn keyword_wins_over_identifier_at_equal_length() {
    assert_eq!(kinds("li"), vec![TokenKind::LItem]);
    assert_eq!(kinds("code"), vec![TokenKind::Code]);
}

#[test]
fn token_ends_where_no_rule_accepts() {
    assert_eq!(
        kinds("li{a}"),
        vec![
            TokenKind::LItem,
            TokenKind::LBrace,
            ident("a"),
            TokenKind::RBrace
        ]
    );
}

#[test]
fn empty_source_has_no_tokens() {
    assert!(lex("").is_empty());
    assert!(lex(" \n\t ").is_empty());
}

#[test]
fn text_block_is_verbatim() {
    assert_eq!(
        kinds("`foo  bar\n baz`"),
        vec![TokenKind::TextBlock("foo  bar\n baz".to_string())]
    );
    assert_eq!(kinds("``"), vec![TokenKind::TextBlock(String::new())]);
    assert_eq!(
        kinds("a `b c` d"),
        vec![ident("a"), TokenKind::TextBlock("b c".to_string()), ident("d")]
    );
}

#[test]
fn text_block_with_wide_characters_ends_at_its_backtick() {
    assert_eq!(
        kinds("`héllo €` x"),
        vec![TokenKind::TextBlock("héllo €".to_string()), ident("x")]
    );
}

#[test]
fn spans_count_bytes_from_token_start_to_end() {
    let items = lex("article Hello {\n}");
    let spans: Vec<(usize, usize)> = items
        .iter()
        .map(|item| ends(item.as_ref().unwrap().span))
        .collect();
    assert_eq!(spans, vec![(0, 7), (8, 13), (14, 15), (16, 17)]);
    let last = items[3].as_ref().unwrap().span;
    assert_eq!((last.start().line(), last.start().column()), (1, 0));
    assert_eq!((last.end().line(), last.end().column()), (1, 1));
}

#[test]
fn text_block_span_starts_behind_the_opening_backtick() {
    let items = lex("x `ab`");
    assert_eq!(ends(items[1].as_ref().unwrap().span), (3, 6));
}

#[test]
fn unexpected_character_is_an_error_at_the_cursor() {
    let items = lex("article #");
    assert_eq!(items.len(), 2);
    let err = items[1].as_ref().unwrap_err();
    assert!(matches!(err.kind, LexerErrorKind::UnexpectedChar('#')));
    assert_eq!(ends(err.span()), (8, 8));
    assert_eq!(err.src, "article #");
    assert_eq!(
        err.to_string(),
        "Lexer Error: Unexpected character '#' at: \nLine: 0, Column: 8\n>> 'article #'\n   --------^"
    );
}

#[test]
fn unterminated_block_is_an_error_behind_the_backtick() {
    let items = lex("a `bc");
    assert_eq!(items.len(), 2);
    let err = items[1].as_ref().unwrap_err();
    assert!(matches!(err.kind, LexerErrorKind::UnterminatedBlock));
    assert_eq!(ends(err.span()), (3, 3));
    assert_eq!(
        err.render(),
        "Unterminated block\n\nLine: 0, Column: 3\n>> 'a `bc'\n   ---^-"
    );
    let items = lex("`");
    assert!(matches!(
        items[0].as_ref().unwrap_err().kind,
        LexerErrorKind::UnterminatedBlock
    ));
}

#[test]
fn unexpected_eof_renders_without_snippet() {
    let p = blogger::diag::Position::new();
    let err = LexerError::new(LexerErrorKind::UnexpectedEOF, Span::new(p, p), "abc");
    assert_eq!(err.render(), "Unexpected EOF");
    assert_eq!(err.to_string(), "Lexer Error: Unexpected EOF");
    assert_eq!(err.clone().src, "abc");
}

#[test]
fn the_stream_ends_with_the_first_error() {
    let items = lex("a # b");
    assert_eq!(items.len(), 2);
    assert!(items[0].is_ok());
    assert!(items[1].is_err());
}

#[test]
fn next_token_hands_out_one_item_a_call() {
    let mut lexer = Lexer::new("ol { }", token_specs());
    assert_eq!(lexer.source(), "ol { }");
    assert_eq!(lexer.next_token().unwrap().unwrap().kind, TokenKind::OList);
    assert_eq!(lexer.next_token().unwrap().unwrap().kind, TokenKind::LBrace);
    assert_eq!(lexer.next_token().unwrap().unwrap().kind, TokenKind::RBrace);
    assert!(lexer.next_token().is_none());
    assert!(lexer.next_token().is_none());
}

#[test]
fn after_an_unexpected_character_the_lexer_stays_where_it_is() {
    let mut lexer = Lexer::new("#", token_specs());
    assert!(lexer.next_token().unwrap().is_err());
    assert!(lexer.next_token().unwrap().is_err());
}

#[test]
fn try_match_applies_pattern_and_class() {
    let spec = TokenSpec::new(Matcher::new("(h.[1-3])").unwrap(), TokenClass::Heading);
    assert_eq!(spec.try_match("h2"), Some(TokenKind::Heading("h2".to_string())));
    assert_eq!(spec.try_match("h4"), None);
    assert_eq!(spec.try_match("h"), None);
    assert!(matches!(spec.class(), TokenClass::Heading));
    let fixed = TokenSpec::new(Matcher::new("a").unwrap(), TokenClass::Aside);
    assert_eq!(fixed.try_match("a"), Some(TokenKind::Aside));
}

#[test]
fn class_makes_the_kind_from_the_text() {
    assert_eq!(TokenClass::Ident.make("x".to_string()), ident("x"));
    assert_eq!(
        TokenClass::TextBlock.make("x".to_string()),
        TokenKind::TextBlock("x".to_string())
    );
    assert_eq!(TokenClass::Section.make("x".to_string()), TokenKind::Section);
}

#[test]
fn first_rule_wins_among_rules_that_accept() {
    let specs = vec![
        TokenSpec::new(Matcher::new("a.b").unwrap(), TokenClass::Code),
        TokenSpec::new(Matcher::new("(a|b)*").unwrap(), TokenClass::Ident),
        TokenSpec::new(Matcher::new("a.b").unwrap(), TokenClass::Aside),
    ];
    let mut lexer = Lexer::new("ab aba", specs);
    let items = lexer.collect_tokens();
    let got: Vec<TokenKind> = items.into_iter().map(|i| i.unwrap().kind).collect();
    assert_eq!(got, vec![TokenKind::Code, ident("aba")]);
}

#[test]
fn window_stops_at_the_first_length_that_no_rule_accepts() {
    let specs = vec![
        TokenSpec::new(Matcher::new("a").unwrap(), TokenClass::Code),
        TokenSpec::new(Matcher::new("a.b.c").unwrap(), TokenClass::Aside),
        TokenSpec::new(Matcher::new("b|c").unwrap(), TokenClass::Ident),
    ];
    let mut lexer = Lexer::new("abc", specs);
    let got: Vec<TokenKind> = lexer
        .collect_tokens()
        .into_iter()
        .map(|i| i.unwrap().kind)
        .collect();
    assert_eq!(got, vec![TokenKind::Code, ident("b"), ident("c")]);
}

#[test]
fn lexing_the_text_of_tokens_gives_them_back() {
    let expected = vec![
        TokenKind::Article,
        ident("Intro"),
        TokenKind::LBrace,
        ident("s1"),
        TokenKind::RBrace,
        TokenKind::Section,
        ident("s1"),
        TokenKind::LBrace,
        TokenKind::Paragraph,
        TokenKind::LBrace,
        TokenKind::Heading("h2".to_string()),
        TokenKind::LBrace,
        TokenKind::TextBlock("A title".to_string()),
        TokenKind::RBrace,
        TokenKind::UList,
        TokenKind::LBrace,
        TokenKind::LItem,
        TokenKind::LBrace,
        ident("x"),
        TokenKind::RBrace,
        TokenKind::RBrace,
        TokenKind::RBrace,
        TokenKind::RBrace,
    ];
    let text: Vec<String> = expected
        .iter()
        .map(|k| match k {
            TokenKind::Article => "article".to_string(),
            TokenKind::Section => "section".to_string(),
            TokenKind::Paragraph => "paragraph".to_string(),
            TokenKind::LBrace => "{".to_string(),
            TokenKind::RBrace => "}".to_string(),
            TokenKind::LParen => "(".to_string(),
            TokenKind::RParen => ")".to_string(),
            TokenKind::Heading(h) => h.clone(),
            TokenKind::Aside => "aside".to_string(),
            TokenKind::OList => "ol".to_string(),
            TokenKind::UList => "ul".to_string(),
            TokenKind::LItem => "li".to_string(),
            TokenKind::Code => "code".to_string(),
            TokenKind::TextBlock(t) => format!("`{}`", t),
            TokenKind::Ident(t) => t.clone(),
        })
        .collect();
    assert_eq!(kinds(&text.join(" ")), expected);
    assert_eq!(kinds(&text.join("\n\t")), expected);
}

#[test]
fn kinds_print_like_debug() {
    for kind in [
        TokenKind::Section,
        TokenKind::LBrace,
        TokenKind::Heading("h1".to_string()),
        TokenKind::TextBlock("a \"b\"\n\\ é".to_string()),
        ident("x"),
    ] {
        assert_eq!(kind.debug_string(), format!("{:?}", kind));
        assert!(kind.same(&kind.clone()));
    }
    assert!(!ident("x").same(&ident("y")));
    assert!(!ident("x").same(&TokenKind::TextBlock("x".to_string())));
    let items = lex("a\n `b`");
    for item in items {
        let token = item.unwrap();
        assert_eq!(token.debug_string(), format!("{:?}", token));
        assert_eq!(token.clone().kind, token.kind);
    }
}

#[test]
fn only_the_whitespace_of_ascii_is_skipped() {
    assert_eq!(kinds("a \t\r\n\u{b}\u{c}b"), vec![ident("a"), ident("b")]);
    let items = lex("a\u{a0}b");
    assert_eq!(items.len(), 2);
    assert!(matches!(
        items[1].as_ref().unwrap_err().kind,
        LexerErrorKind::UnexpectedChar('\u{a0}')
    ));
}

#[test]
fn no_token_is_empty() {
    for src in ["article{}", "a  b\n c", "``", "h1{`x`}", "0 00 a1"] {
        for item in lex(src) {
            let token = item.unwrap();
            assert!(token.span.end().offset() > token.span.start().offset());
        }
    }
}
