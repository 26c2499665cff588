use crate::diag::{Span, SpanView};
use super::standard::{fits, standard_patterns_fit, standard_rules, standard_syntax};
use crate::regex::correct::matcher_accepts_denoted;
use crate::regex::matcher::Matcher;
use crate::regex::nfa::NfaView;
use crate::text::{debug_quoted, quote_debug};
use vstd::prelude::*;
use vstd::string::*;

verus! {

/// What a token is.
#[derive(Debug, PartialEq, Eq)]
pub enum TokenKind {
    Section,
    Article,
    Paragraph,
    LBrace,
    RBrace,
    LParen,
    RParen,
    Heading(String),
    Aside,
    OList,
    UList,
    LItem,
    Code,
    TextBlock(String),
    Ident(String),
}

/// The mathematical value of a `TokenKind`.
pub enum TokenKindView {
    Section,
    Article,
    Paragraph,
    LBrace,
    RBrace,
    LParen,
    RParen,
    Heading(Seq<char>),
    Aside,
    OList,
    UList,
    LItem,
    Code,
    TextBlock(Seq<char>),
    Ident(Seq<char>),
}

impl TokenKindView {
    /// The kind as `{:?}` prints a `TokenKind`.
    pub open spec fn debug(self) -> Seq<char> {
        match self {
            TokenKindView::Section => "Section"@,
            TokenKindView::Article => "Article"@,
            TokenKindView::Paragraph => "Paragraph"@,
            TokenKindView::LBrace => "LBrace"@,
            TokenKindView::RBrace => "RBrace"@,
            TokenKindView::LParen => "LParen"@,
            TokenKindView::RParen => "RParen"@,
            TokenKindView::Heading(s) => "Heading("@ + debug_quoted(s) + ")"@,
            TokenKindView::Aside => "Aside"@,
            TokenKindView::OList => "OList"@,
            TokenKindView::UList => "UList"@,
            TokenKindView::LItem => "LItem"@,
            TokenKindView::Code => "Code"@,
            TokenKindView::TextBlock(s) => "TextBlock("@ + debug_quoted(s) + ")"@,
            TokenKindView::Ident(s) => "Ident("@ + debug_quoted(s) + ")"@,
        }
    }
}

impl View for TokenKind {
    type V = TokenKindView;

    open spec fn view(&self) -> TokenKindView {
        match self {
            TokenKind::Section => TokenKindView::Section,
            TokenKind::Article => TokenKindView::Article,
            TokenKind::Paragraph => TokenKindView::Paragraph,
            TokenKind::LBrace => TokenKindView::LBrace,
            TokenKind::RBrace => TokenKindView::RBrace,
            TokenKind::LParen => TokenKindView::LParen,
            TokenKind::RParen => TokenKindView::RParen,
            TokenKind::Heading(s) => TokenKindView::Heading(s@),
            TokenKind::Aside => TokenKindView::Aside,
            TokenKind::OList => TokenKindView::OList,
            TokenKind::UList => TokenKindView::UList,
            TokenKind::LItem => TokenKindView::LItem,
            TokenKind::Code => TokenKindView::Code,
            TokenKind::TextBlock(s) => TokenKindView::TextBlock(s@),
            TokenKind::Ident(s) => TokenKindView::Ident(s@),
        }
    }
}

impl Clone for TokenKind {
    fn clone(&self) -> (r: Self)
        ensures
            r@ == self@,
    {
        match self {
            TokenKind::Section => TokenKind::Section,
            TokenKind::Article => TokenKind::Article,
            TokenKind::Paragraph => TokenKind::Paragraph,
            TokenKind::LBrace => TokenKind::LBrace,
            TokenKind::RBrace => TokenKind::RBrace,
            TokenKind::LParen => TokenKind::LParen,
            TokenKind::RParen => TokenKind::RParen,
            TokenKind::Heading(s) => TokenKind::Heading(s.clone()),
            TokenKind::Aside => TokenKind::Aside,
            TokenKind::OList => TokenKind::OList,
            TokenKind::UList => TokenKind::UList,
            TokenKind::LItem => TokenKind::LItem,
            TokenKind::Code => TokenKind::Code,
            TokenKind::TextBlock(s) => TokenKind::TextBlock(s.clone()),
            TokenKind::Ident(s) => TokenKind::Ident(s.clone()),
        }
    }
}

impl TokenKind {
    /// Tests whether two kinds are the same, texts included.
    pub fn same(&self, other: &TokenKind) -> (r: bool)
        ensures
            r == (self@ == other@),
    {
        match (self, other) {
            (TokenKind::Section, TokenKind::Section) => true,
            (TokenKind::Article, TokenKind::Article) => true,
            (TokenKind::Paragraph, TokenKind::Paragraph) => true,
            (TokenKind::LBrace, TokenKind::LBrace) => true,
            (TokenKind::RBrace, TokenKind::RBrace) => true,
            (TokenKind::LParen, TokenKind::LParen) => true,
            (TokenKind::RParen, TokenKind::RParen) => true,
            (TokenKind::Heading(a), TokenKind::Heading(b)) => *a == *b,
            (TokenKind::Aside, TokenKind::Aside) => true,
            (TokenKind::OList, TokenKind::OList) => true,
            (TokenKind::UList, TokenKind::UList) => true,
            (TokenKind::LItem, TokenKind::LItem) => true,
            (TokenKind::Code, TokenKind::Code) => true,
            (TokenKind::TextBlock(a), TokenKind::TextBlock(b)) => *a == *b,
            (TokenKind::Ident(a), TokenKind::Ident(b)) => *a == *b,
            _ => false,
        }
    }

    /// Appends the kind to `s` as `{:?}` prints it.
    pub fn push_debug(&self, s: &mut String)
        ensures
            final(s)@ == old(s)@ + self@.debug(),
    {
        match self {
            TokenKind::Section => s.append("Section"),
            TokenKind::Article => s.append("Article"),
            TokenKind::Paragraph => s.append("Paragraph"),
            TokenKind::LBrace => s.append("LBrace"),
            TokenKind::RBrace => s.append("RBrace"),
            TokenKind::LParen => s.append("LParen"),
            TokenKind::RParen => s.append("RParen"),
            TokenKind::Heading(t) => {
                let quoted = quote_debug(t.as_str());
                s.append("Heading(");
                s.append(quoted.as_str());
                s.append(")");
                assert(s@ == old(s)@ + ("Heading("@ + debug_quoted(t@) + ")"@));
            },
            TokenKind::Aside => s.append("Aside"),
            TokenKind::OList => s.append("OList"),
            TokenKind::UList => s.append("UList"),
            TokenKind::LItem => s.append("LItem"),
            TokenKind::Code => s.append("Code"),
            TokenKind::TextBlock(t) => {
                let quoted = quote_debug(t.as_str());
                s.append("TextBlock(");
                s.append(quoted.as_str());
                s.append(")");
                assert(s@ == old(s)@ + ("TextBlock("@ + debug_quoted(t@) + ")"@));
            },
            TokenKind::Ident(t) => {
                let quoted = quote_debug(t.as_str());
                s.append("Ident(");
                s.append(quoted.as_str());
                s.append(")");
                assert(s@ == old(s)@ + ("Ident("@ + debug_quoted(t@) + ")"@));
            },
        }
    }

    /// The kind as `{:?}` prints it.
    pub fn debug_string(&self) -> (r: String)
        ensures
            r@ == self@.debug(),
    {
        let mut r = String::new();
        self.push_debug(&mut r);
        r
    }
}

/// A token: what it is, and where in the source it stands.
#[derive(Debug)]
pub struct Token {
    pub kind: TokenKind,
    pub span: Span,
}

/// The mathematical value of a `Token`.
pub struct TokenView {
    pub kind: TokenKindView,
    pub span: SpanView,
}

impl TokenView {
    /// The token as `{:?}` prints a `Token`.
    pub open spec fn debug(self) -> Seq<char> {
        "Token { kind: "@ + self.kind.debug() + ", span: "@ + self.span.debug() + " }"@
    }
}

impl View for Token {
    type V = TokenView;

    open spec fn view(&self) -> TokenView {
        TokenView { kind: self.kind@, span: self.span@ }
    }
}

impl Clone for Token {
    fn clone(&self) -> (r: Self)
        ensures
            r@ == self@,
    {
        Token { kind: self.kind.clone(), span: self.span }
    }
}

impl Token {
    /// The token as `{:?}` prints it.
    pub fn debug_string(&self) -> (r: String)
        ensures
            r@ == self@.debug(),
    {
        let mut r = String::from_str("Token { kind: ");
        self.kind.push_debug(&mut r);
        r.append(", span: ");
        self.span.push_debug(&mut r);
        r.append(" }");
        r
    }
}

/// How a token's kind is made from the text that a pattern matched: the kinds that carry
/// a text take it over, the others ignore it.
#[derive(Debug, Clone, Copy, PartialEq, Eq)]
pub enum TokenClass {
    Section,
    Article,
    Paragraph,
    LBrace,
    RBrace,
    LParen,
    RParen,
    Heading,
    Aside,
    OList,
    UList,
    LItem,
    Code,
    TextBlock,
    Ident,
}

impl TokenClass {
    /// The kind of a token of this class whose text is `text`.
    pub open spec fn kind(self, text: Seq<char>) -> TokenKindView {
        match self {
            TokenClass::Section => TokenKindView::Section,
            TokenClass::Article => TokenKindView::Article,
            TokenClass::Paragraph => TokenKindView::Paragraph,
            TokenClass::LBrace => TokenKindView::LBrace,
            TokenClass::RBrace => TokenKindView::RBrace,
            TokenClass::LParen => TokenKindView::LParen,
            TokenClass::RParen => TokenKindView::RParen,
            TokenClass::Heading => TokenKindView::Heading(text),
            TokenClass::Aside => TokenKindView::Aside,
            TokenClass::OList => TokenKindView::OList,
            TokenClass::UList => TokenKindView::UList,
            TokenClass::LItem => TokenKindView::LItem,
            TokenClass::Code => TokenKindView::Code,
            TokenClass::TextBlock => TokenKindView::TextBlock(text),
            TokenClass::Ident => TokenKindView::Ident(text),
        }
    }

    /// Makes the kind of a token of this class whose text is `text`.
    pub fn make(&self, text: String) -> (r: TokenKind)
        ensures
            r@ == self.kind(text@),
    {
        match self {
            TokenClass::Section => TokenKind::Section,
            TokenClass::Article => TokenKind::Article,
            TokenClass::Paragraph => TokenKind::Paragraph,
            TokenClass::LBrace => TokenKind::LBrace,
            TokenClass::RBrace => TokenKind::RBrace,
            TokenClass::LParen => TokenKind::LParen,
            TokenClass::RParen => TokenKind::RParen,
            TokenClass::Heading => TokenKind::Heading(text),
            TokenClass::Aside => TokenKind::Aside,
            TokenClass::OList => TokenKind::OList,
            TokenClass::UList => TokenKind::UList,
            TokenClass::LItem => TokenKind::LItem,
            TokenClass::Code => TokenKind::Code,
            TokenClass::TextBlock => TokenKind::TextBlock(text),
            TokenClass::Ident => TokenKind::Ident(text),
        }
    }
}

/// One rule of the lexer: a pattern, and the class of the tokens that it recognises.
pub struct TokenSpec {
    matcher: Matcher,
    class: TokenClass,
}

/// The mathematical value of a `TokenSpec`.
pub struct TokenSpecView {
    pub nfa: NfaView,
    pub class: TokenClass,
}

impl TokenSpecView {
    /// What the rule makes of `text`: a kind if its pattern matches the whole of `text`.
    pub open spec fn try_match(self, text: Seq<char>) -> Option<TokenKindView> {
        if self.nfa.accepts(text) {
            Some(self.class.kind(text))
        } else {
            None
        }
    }
}

impl View for TokenSpec {
    type V = TokenSpecView;

    closed spec fn view(&self) -> TokenSpecView {
        TokenSpecView { nfa: self.matcher@, class: self.class }
    }
}

/// The values of a list of rules.
pub open spec fn spec_views(v: Seq<TokenSpec>) -> Seq<TokenSpecView> {
    v.map_values(|s: TokenSpec| s@)
}

/// The value of an optional kind.
pub open spec fn kind_view(o: Option<TokenKind>) -> Option<TokenKindView> {
    match o {
        Some(k) => Some(k@),
        None => None,
    }
}

impl TokenSpec {
    /// The rule that gives the tokens that `matcher` recognises the class `class`.
    pub fn new(matcher: Matcher, class: TokenClass) -> (r: Self)
        ensures
            r@ == (TokenSpecView { nfa: matcher@, class }),
    {
        Self { matcher, class }
    }

    /// Applies the rule to `input`: the kind of the token if the pattern matches the whole
    /// of `input`, and nothing otherwise.
    pub fn try_match(&self, input: &str) -> (r: Option<TokenKind>)
        ensures
            kind_view(r) == self@.try_match(input@),
    {
        if self.matcher.matches(input) {
            Some(self.class.make(String::from_str(input)))
        } else {
            None
        }
    }

    /// Tests whether the rule's pattern matches the whole of `text[from..to]`.
    pub fn accepts_range(&self, text: &Vec<char>, from: usize, to: usize) -> (r: bool)
        requires
            from <= to <= text.len(),
        ensures
            r == self@.nfa.accepts(text@.subrange(from as int, to as int)),
    {
        self.matcher.matches_range(text, from, to)
    }

    /// The class of the tokens that the rule recognises.
    pub fn class(&self) -> (r: TokenClass)
        ensures
            r == self@.class,
    {
        self.class
    }
}

/// The patterns of the language's tokens with their classes, in the order in which the
/// lexer tries them. The identifier comes last: it matches what every keyword matches.
pub open spec fn standard_table() -> Seq<(Seq<char>, TokenClass)> {
    seq![
        ("\\{"@, TokenClass::LBrace),
        ("\\}"@, TokenClass::RBrace),
        ("\\("@, TokenClass::LParen),
        ("\\)"@, TokenClass::RParen),
        ("(s.e.c.t.i.o.n)"@, TokenClass::Section),
        ("(a.r.t.i.c.l.e)"@, TokenClass::Article),
        ("(p.a.r.a.g.r.a.p.h)"@, TokenClass::Paragraph),
        ("(h.[1-3])"@, TokenClass::Heading),
        ("(a.s.i.d.e)"@, TokenClass::Aside),
        ("(o.l)"@, TokenClass::OList),
        ("(u.l)"@, TokenClass::UList),
        ("(l.i)"@, TokenClass::LItem),
        ("(c.o.d.e)"@, TokenClass::Code),
        ("(`)"@, TokenClass::TextBlock),
        ("(([a-z]|[A-Z]|[0-9])*)"@, TokenClass::Ident),
    ]
}

/// The rows of a table as mathematical values.
pub open spec fn table_view(v: Seq<(&'static str, TokenClass)>) -> Seq<(Seq<char>, TokenClass)> {
    v.map_values(|row: (&'static str, TokenClass)| (row.0@, row.1))
}

fn standard_rows() -> (v: Vec<(&'static str, TokenClass)>)
    ensures
        table_view(v@) == standard_table(),
{
    let mut v: Vec<(&'static str, TokenClass)> = Vec::new();
    v.push(("\\{", TokenClass::LBrace));
    v.push(("\\}", TokenClass::RBrace));
    v.push(("\\(", TokenClass::LParen));
    v.push(("\\)", TokenClass::RParen));
    v.push(("(s.e.c.t.i.o.n)", TokenClass::Section));
    v.push(("(a.r.t.i.c.l.e)", TokenClass::Article));
    v.push(("(p.a.r.a.g.r.a.p.h)", TokenClass::Paragraph));
    v.push(("(h.[1-3])", TokenClass::Heading));
    v.push(("(a.s.i.d.e)", TokenClass::Aside));
    v.push(("(o.l)", TokenClass::OList));
    v.push(("(u.l)", TokenClass::UList));
    v.push(("(l.i)", TokenClass::LItem));
    v.push(("(c.o.d.e)", TokenClass::Code));
    v.push(("(`)", TokenClass::TextBlock));
    v.push(("(([a-z]|[A-Z]|[0-9])*)", TokenClass::Ident));
    assert(table_view(v@) =~= standard_table());
    v
}

/// Compiles the rules of the language's tokens. Every pattern of the language is
/// well-formed, so the rules are always there.
pub fn token_specs() -> (v: Vec<TokenSpec>)
    ensures
        spec_views(v@) == standard_rules(),
{
    let rows = standard_rows();
    let mut v: Vec<TokenSpec> = Vec::new();
    let mut i: usize = 0;
    proof {
        standard_patterns_fit();
        assert(spec_views(v@) == standard_rules().take(0));
    }
    while i < rows.len()
        invariant
            i <= rows.len(),
            table_view(rows@) == standard_table(),
            standard_syntax().len() == standard_table().len(),
            forall|k: int|
                0 <= k < standard_table().len() ==> fits(
                    (#[trigger] standard_table()[k]).0,
                    standard_syntax()[k],
                ),
            spec_views(v@) == standard_rules().take(i as int),
        decreases rows.len() - i,
    {
        let ghost before = spec_views(v@);
        assert(standard_table()[i as int] == (rows@[i as int].0@, rows@[i as int].1));
        let compiled = Matcher::new(rows[i].0);
        proof {
            assert(fits(standard_table()[i as int].0, standard_syntax()[i as int]));
            matcher_accepts_denoted(
                standard_table()[i as int].0,
                standard_syntax()[i as int],
                Seq::empty(),
            );
        }
        let one = TokenSpec::new(compiled.unwrap(), rows[i].1);
        v.push(one);
        i += 1;
        assert(spec_views(v@) == before.push(one@));
        assert(standard_rules().take(i as int) == standard_rules().take(i - 1).push(
            standard_rules()[i - 1],
        ));
    }
    assert(standard_rules().take(i as int) == standard_rules());
    v
}

} // verus!
