use crate::diag::{Span, SpanView};
use vstd::prelude::*;
use vstd::string::*;

verus! {

/// What went wrong while the source was split into tokens.
#[derive(Debug, Clone, Copy)]
pub enum LexerErrorKind {
    UnexpectedChar(char),
    UnterminatedBlock,
    UnexpectedEOF,
}

/// A failure of the lexer: what went wrong, where, and a copy of the source for the
/// rendering.
#[derive(Debug)]
pub struct LexerError {
    pub kind: LexerErrorKind,
    pub span: Span,
    pub src: String,
}

/// The mathematical value of a `LexerError`.
pub struct LexerErrorView {
    pub kind: LexerErrorKind,
    pub span: SpanView,
    pub src: Seq<char>,
}

impl LexerErrorView {
    /// The message of the error, with the snippet of the source where one belongs.
    pub open spec fn render(self) -> Seq<char> {
        match self.kind {
            LexerErrorKind::UnexpectedChar(c) => "Unexpected character '"@ + seq![c] + "' at: "@
                + self.span.snippet(self.src),
            LexerErrorKind::UnterminatedBlock => "Unterminated block\n"@ + self.span.snippet(
                self.src,
            ),
            LexerErrorKind::UnexpectedEOF => "Unexpected EOF"@,
        }
    }

    /// The error as it is shown to the user.
    pub open spec fn text(self) -> Seq<char> {
        "Lexer Error: "@ + self.render()
    }
}

impl View for LexerError {
    type V = LexerErrorView;

    open spec fn view(&self) -> LexerErrorView {
        LexerErrorView { kind: self.kind, span: self.span@, src: self.src@ }
    }
}

impl Clone for LexerError {
    fn clone(&self) -> (r: Self)
        ensures
            r@ == self@,
    {
        Self { kind: self.kind, span: self.span, src: self.src.clone() }
    }
}

impl LexerError {
    /// An error of the given kind at `span`, with its own copy of the source.
    pub fn new(kind: LexerErrorKind, span: Span, src: &str) -> (r: Self)
        ensures
            r@ == (LexerErrorView { kind, span: span@, src: src@ }),
    {
        Self { kind, span, src: String::from_str(src) }
    }

    /// The message of the error, with the snippet of the source where one belongs.
    pub fn render(&self) -> (r: String)
        ensures
            r@ == self@.render(),
    {
        match self.kind {
            LexerErrorKind::UnexpectedChar(c) => {
                let snippet = self.span.snippet(self.src.as_str());
                let mut r = String::from_str("Unexpected character '");
                r.push(c);
                r.append("' at: ");
                r.append(snippet.as_str());
                assert(r@ == "Unexpected character '"@ + seq![c] + "' at: "@ + snippet@);
                r
            },
            LexerErrorKind::UnterminatedBlock => {
                let snippet = self.span.snippet(self.src.as_str());
                let mut r = String::from_str("Unterminated block\n");
                r.append(snippet.as_str());
                r
            },
            LexerErrorKind::UnexpectedEOF => String::from_str("Unexpected EOF"),
        }
    }

    /// Where the error lies.
    pub fn span(&self) -> (r: Span)
        ensures
            r@ == self@.span,
    {
        self.span
    }

    /// The error as it is shown to the user.
    pub fn to_string(&self) -> (r: String)
        ensures
            r@ == self@.text(),
    {
        let mut r = String::from_str("Lexer Error: ");
        let body = self.render();
        r.append(body.as_str());
        r
    }
}

} // verus!
