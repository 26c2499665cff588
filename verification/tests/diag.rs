use blogger::diag::{Position, Span};

fn at(src: &str, chars: usize) -> Position {
    let mut p = Position::new();
    for c in src.chars().take(chars) {
        p = p.advance(c);
    }
    p
}

#[test]
fn position_starts_at_origin() {
    let p = Position::new();
    assert_eq!((p.offset(), p.line(), p.column()), (0, 0, 0));
    assert_eq!(Position::default(), Position::new());
}

#[test]
fn advance_counts_bytes_lines_and_columns() {
    let p = Position::new().advance('a');
    assert_eq!((p.offset(), p.line(), p.column()), (1, 0, 1));
    let p = p.advance('é');
    assert_eq!((p.offset(), p.line(), p.column()), (3, 0, 2));
    let p = p.advance('€');
    assert_eq!((p.offset(), p.line(), p.column()), (6, 0, 3));
    let p = p.advance('😀');
    assert_eq!((p.offset(), p.line(), p.column()), (10, 0, 4));
    let p = p.advance('\n');
    assert_eq!((p.offset(), p.line(), p.column()), (11, 1, 0));
    let p = p.advance('x');
    assert_eq!((p.offset(), p.line(), p.column()), (12, 1, 1));
}

#[test]
fn advance_agrees_with_len_utf8() {
    for c in ['\0', 'a', '\u{7f}', '\u{80}', '\u{7ff}', '\u{800}', '\u{ffff}', '\u{10000}', '\u{10ffff}'] {
        assert_eq!(Position::new().advance(c).offset(), c.len_utf8());
    }
}

#[test]
fn span_keeps_its_ends() {
    let a = at("ab\ncd", 1);
    let b = at("ab\ncd", 4);
    let s = Span::new(a, b);
    assert_eq!(s.start(), a);
    assert_eq!(s.end(), b);
}

#[test]
fn snippet_underlines_the_columns_of_the_span() {
    let src = "article A {\n  foo bar\n}";
    let span = Span::new(at(src, 14), at(src, 17));
    assert_eq!(
        span.snippet(src),
        "\nLine: 1, Column: 2\n>> 'foo bar'\n   --^^^^-"
    );
}

#[test]
fn snippet_of_first_line() {
    let src = "article";
    let span = Span::new(at(src, 0), at(src, 7));
    assert_eq!(span.snippet(src), "\nLine: 0, Column: 0\n>> 'article'\n   ^^^^^^^");
}

#[test]
fn snippet_of_missing_line_is_empty() {
    let span = Span::new(at("a\nb\nc", 4), at("a\nb\nc", 5));
    assert_eq!(span.snippet("a"), "\nLine: 2, Column: 0\n>> ''\n   ");
    assert_eq!(span.snippet(""), "\nLine: 2, Column: 0\n>> ''\n   ");
}

#[test]
fn snippet_strips_line_ending_and_leading_whitespace() {
    let src = "x\r\n\t \u{a0}abc\r\nz";
    let span = Span::new(at(src, 3), at(src, 4));
    assert_eq!(span.snippet(src), "\nLine: 1, Column: 0\n>> 'abc'\n   ^^-");
}

#[test]
fn snippet_keeps_a_lone_carriage_return() {
    let src = "ab\r";
    let span = Span::new(at(src, 0), at(src, 0));
    assert_eq!(span.snippet(src), "\nLine: 0, Column: 0\n>> 'ab\r'\n   ^--");
}

#[test]
fn snippet_underline_has_one_mark_for_each_byte() {
    let src = "é€";
    let span = Span::new(at(src, 1), at(src, 2));
    assert_eq!(span.snippet(src), "\nLine: 0, Column: 1\n>> 'é€'\n   -^^--");
}

#[test]
fn snippet_agrees_with_std_lines_and_trim() {
    let sources = ["", "\n", "a\n", "a\n\nb", "  a  \n\tb\r\n\r\nc\r", "\r\n", "x\ny\nz\n"];
    for src in sources {
        for line in 0..5 {
            let mut p = Position::new();
            for _ in 0..line {
                p = p.advance('\n');
            }
            let expected_line = src.lines().nth(line).unwrap_or("").trim_start();
            let underline: String = (0..expected_line.len())
                .map(|i| if i == 0 { '^' } else { '-' })
                .collect();
            let expected = format!(
                "\nLine: {}, Column: {}\n>> '{}'\n   {}",
                line, 0, expected_line, underline
            );
            assert_eq!(Span::new(p, p).snippet(src), expected);
        }
    }
}
