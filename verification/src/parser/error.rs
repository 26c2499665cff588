use crate::diag::{Position, PositionView, Span, SpanView};
use crate::lexer::error::{LexerError, LexerErrorView};
use vstd::prelude::*;
use vstd::string::*;

verus! {

/// A failure of the parser: a message, the place it speaks of, and a copy of the source
/// for the rendering.
#[derive(Debug)]
pub struct ParserError {
    pub msg: String,
    pub span: Span,
    src: String,
}

/// The mathematical value of a `ParserError`.
pub struct ParserErrorView {
    pub msg: Seq<char>,
    pub span: SpanView,
    pub src: Seq<char>,
}

/// The stretch that an error without a place of its own speaks of: the start of the
/// source.
pub open spec fn no_span() -> SpanView {
    SpanView { start: PositionView::origin(), end: PositionView::origin() }
}

impl ParserErrorView {
    /// The message with the snippet of the source.
    pub open spec fn render(self) -> Seq<char> {
        self.msg + " at "@ + self.span.snippet(self.src)
    }

    /// The error as it is shown to the user.
    pub open spec fn text(self) -> Seq<char> {
        "Parse error: "@ + self.render()
    }

    /// The parser's error for a failure of the lexer: the lexer's text as the message,
    /// at the lexer's place and source.
    pub open spec fn from_lexer(e: LexerErrorView) -> ParserErrorView {
        ParserErrorView { msg: e.text(), span: e.span, src: e.src }
    }

    /// The error that consists of a message alone.
    pub open spec fn from_message(msg: Seq<char>) -> ParserErrorView {
        ParserErrorView { msg, span: no_span(), src: Seq::empty() }
    }
}

impl View for ParserError {
    type V = ParserErrorView;

    closed spec fn view(&self) -> ParserErrorView {
        ParserErrorView { msg: self.msg@, span: self.span@, src: self.src@ }
    }
}

/// The stretch that an error without a place of its own speaks of.
pub fn empty_span() -> (r: Span)
    ensures
        r@ == no_span(),
{
    Span::new(Position::new(), Position::new())
}

impl ParserError {
    /// An error with the message `msg` at `span`, with its own copy of the source.
    pub fn new_with_source(msg: &str, span: Span, src: &str) -> (r: Self)
        ensures
            r@ == (ParserErrorView { msg: msg@, span: span@, src: src@ }),
    {
        Self { msg: String::from_str(msg), span, src: String::from_str(src) }
    }

    /// Another error against the same source.
    pub fn with_source(&self, msg: &str, span: Span) -> (r: Self)
        ensures
            r@ == (ParserErrorView { msg: msg@, span: span@, src: self@.src }),
    {
        Self::new_with_source(msg, span, self.src.as_str())
    }

    /// The parser's error for a failure of the lexer.
    pub fn from_lexer(value: &LexerError) -> (r: Self)
        ensures
            r@ == ParserErrorView::from_lexer(value@),
    {
        let msg = value.to_string();
        Self::new_with_source(msg.as_str(), value.span(), value.src.as_str())
    }

    /// The error that consists of a message alone.
    pub fn from_message(msg: &str) -> (r: Self)
        ensures
            r@ == ParserErrorView::from_message(msg@),
    {
        let r = Self::new_with_source(msg, empty_span(), "");
        proof {
            reveal_strlit("");
            assert(""@ =~= Seq::<char>::empty());
        }
        r
    }

    /// The message with the snippet of the source.
    pub fn render(&self) -> (r: String)
        ensures
            r@ == self@.render(),
    {
        let snippet = self.span.snippet(self.src.as_str());
        let mut r = self.msg.clone();
        r.append(" at ");
        r.append(snippet.as_str());
        r
    }

    /// The error as it is shown to the user.
    pub fn to_string(&self) -> (r: String)
        ensures
            r@ == self@.text(),
    {
        let mut r = String::from_str("Parse error: ");
        let body = self.render();
        r.append(body.as_str());
        r
    }
}

} // verus!
