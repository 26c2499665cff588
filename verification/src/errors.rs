use crate::backend::codegen::GenerationError;
use crate::lexer::error::LexerError;
use crate::parser::error::ParserError;
use vstd::prelude::*;
use vstd::string::*;

verus! {

/// The error of the input and output functions of the standard library. Nothing of its
/// content is known here.
#[verifier::external_type_specification]
#[verifier::external_body]
pub struct ExIoError(std::io::Error);

/// Every failure that the program can end with.
#[derive(Debug)]
pub enum BloggerError {
    IOError(std::io::Error),
    ParseError(String),
    CodegenError(String),
    RegexError(String),
    LexerError(String),
    CommandError(String),
}

/// The mathematical value of a `BloggerError`: its kind and its message. Of a failure of
/// input or output only the kind is known.
pub enum BloggerErrorView {
    IOError,
    ParseError(Seq<char>),
    CodegenError(Seq<char>),
    RegexError(Seq<char>),
    LexerError(Seq<char>),
    CommandError(Seq<char>),
}

impl View for BloggerError {
    type V = BloggerErrorView;

    open spec fn view(&self) -> BloggerErrorView {
        match self {
            BloggerError::IOError(_) => BloggerErrorView::IOError,
            BloggerError::ParseError(s) => BloggerErrorView::ParseError(s@),
            BloggerError::CodegenError(s) => BloggerErrorView::CodegenError(s@),
            BloggerError::RegexError(s) => BloggerErrorView::RegexError(s@),
            BloggerError::LexerError(s) => BloggerErrorView::LexerError(s@),
            BloggerError::CommandError(s) => BloggerErrorView::CommandError(s@),
        }
    }
}

/// Formats a failure of input or output with `{}` (the `Display` impl of
/// `std::io::Error`). Nothing is claimed of the text.
#[verifier::external_body]
fn describe_io(e: &std::io::Error) -> (r: String) {
    format!("{}", e)
}

impl BloggerError {
    /// The failure that wraps a failure of input or output: it holds `e` itself.
    pub fn from_io(e: std::io::Error) -> (r: Self)
        ensures
            r == BloggerError::IOError(e),
            r@ == BloggerErrorView::IOError,
    {
        BloggerError::IOError(e)
    }

    /// The failure that wraps a failure of the lexer.
    pub fn from_lexer(value: &LexerError) -> (r: Self)
        ensures
            r@ == BloggerErrorView::LexerError(value@.text()),
    {
        BloggerError::LexerError(value.to_string())
    }

    /// The failure that wraps a failure of the parser.
    pub fn from_parser(err: &ParserError) -> (r: Self)
        ensures
            r@ == BloggerErrorView::ParseError(err@.text()),
    {
        BloggerError::ParseError(err.to_string())
    }

    /// The failure that wraps a failure of the emitter.
    pub fn from_codegen(value: &GenerationError) -> (r: Self)
        ensures
            r@ == BloggerErrorView::CodegenError("Compile error: "@ + value@),
    {
        BloggerError::CodegenError(value.to_string())
    }

    /// The error as it is shown to the user. The text of a failure of input or output
    /// comes from the standard library.
    pub fn to_string(&self) -> (r: String)
        ensures
            match self@ {
                BloggerErrorView::IOError => "Blogger Error: IO error: "@.is_prefix_of(r@),
                BloggerErrorView::ParseError(s) => r@ == "Blogger Error: "@ + s,
                BloggerErrorView::CodegenError(s) => r@ == "Blogger Error: "@ + s,
                BloggerErrorView::RegexError(s) => r@ == "Blogger Error: "@ + s,
                BloggerErrorView::LexerError(s) => r@ == "Blogger Error: "@ + s,
                BloggerErrorView::CommandError(s) => r@ == "Blogger Error: "@ + s,
            },
    {
        match self {
            BloggerError::IOError(e) => {
                let mut r = String::from_str("Blogger Error: IO error: ");
                let ghost head = r@;
                let tail = describe_io(e);
                r.append(tail.as_str());
                assert(r@.subrange(0, head.len() as int) == head);
                r
            },
            BloggerError::ParseError(s) => {
                let mut r = String::from_str("Blogger Error: ");
                r.append(s.as_str());
                r
            },
            BloggerError::CodegenError(s) => {
                let mut r = String::from_str("Blogger Error: ");
                r.append(s.as_str());
                r
            },
            BloggerError::RegexError(s) => {
                let mut r = String::from_str("Blogger Error: ");
                r.append(s.as_str());
                r
            },
            BloggerError::LexerError(s) => {
                let mut r = String::from_str("Blogger Error: ");
                r.append(s.as_str());
                r
            },
            BloggerError::CommandError(s) => {
                let mut r = String::from_str("Blogger Error: ");
                r.append(s.as_str());
                r
            },
        }
    }
}

} // verus!
