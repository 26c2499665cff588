//! A compiler for a small language for writing blog articles: a source text declares
//! one article and the sections that it calls, and compiles to a fragment of HTML.
use crate::backend::codegen::Generator;
use crate::errors::{BloggerError, BloggerErrorView};
use crate::lexer::error::LexerErrorView;
use crate::lexer::lexer::{Lexer, LexerView, Mode};
use crate::lexer::standard::standard_rules;
use crate::lexer::tokens::{token_specs, TokenSpecView, TokenView};
use crate::parser::parser::{Input, Parser, Program, ProgramView};
use vstd::prelude::*;
use vstd::string::*;

pub mod backend;
pub mod cli;
pub mod diag;
pub mod errors;
pub mod lexer;
pub mod parser;
pub mod regex;
pub mod text;

verus! {

/// The items that the lexer gives for the source `src` under the rules `specs`.
pub open spec fn tokens_of(specs: Seq<TokenSpecView>, src: Seq<char>) -> Seq<
    Result<TokenView, LexerErrorView>,
> {
    (LexerView { src, cursor: 0, mode: Mode::Normal, specs }).stream()
}

/// The program that the source `src` declares, or the failure that ends its reading.
pub open spec fn program_of(src: Seq<char>) -> Result<ProgramView, BloggerErrorView> {
    match (Input { tokens: tokens_of(standard_rules(), src), src }).parse() {
        Err(e) => Err(BloggerErrorView::ParseError(e.text())),
        Ok(p) => Ok(p),
    }
}

/// The output for the source `src`, or the failure that ends its compilation.
pub open spec fn output_of(src: Seq<char>) -> Result<Seq<char>, BloggerErrorView> {
    match program_of(src) {
        Err(e) => Err(e),
        Ok(p) => Ok(p.html()),
    }
}

/// Reads a source text into a program: the lexer with the rules of the language, then
/// the parser. The program that comes out has exactly one article and no two sections
/// of the same name.
pub fn parse_source(src: &String) -> (r: Result<Program, BloggerError>)
    ensures
        match r {
            Ok(p) => program_of(src@) matches Ok(x) && x == p@ && p@.wf(),
            Err(e) => program_of(src@) matches Err(x) && x == e@,
        },
{
    let lexer = Lexer::new(src.as_str(), token_specs());
    let mut parser = Parser::new(lexer, src);
    match parser.parse() {
        Ok(p) => Ok(p),
        Err(e) => Err(BloggerError::from_parser(&e)),
    }
}

/// Compiles a source text to its output.
pub fn compile_source(src: &str) -> (r: Result<String, BloggerError>)
    ensures
        match r {
            Ok(out) => output_of(src@) matches Ok(x) && x == out@,
            Err(e) => output_of(src@) matches Err(x) && x == e@,
        },
{
    let src_content = String::from_str(src);
    let program = match parse_source(&src_content) {
        Ok(p) => p,
        Err(e) => {
            return Err(e);
        },
    };
    let compiler = Generator::new(program);
    Ok(compiler.render())
}

} // verus!
