//! A single-pass compiler from a small BASIC dialect to C.
//!
//! The scanner in [`lexer`] turns source text into tokens, the [`parser`]
//! recognises the grammar of [`grammar`] and writes C text into the two
//! buffers of the [`emitter`] while it reads. [`compile`] runs the three on
//! one source text. [`syntax`] says which programs are valid and shows that
//! each of them compiles; [`laws`] holds what else is true of every
//! compilation.
use vstd::prelude::*;
use vstd::string::*;

pub mod token;
pub mod chars;
pub mod lexer;
pub mod emitter;
pub mod error;
pub mod grammar;
pub mod parser;
pub mod laws;
pub mod syntax;

use crate::emitter::Emitter;
use crate::error::CompileError;
use crate::grammar::{Pass, lemma_failure_is_final};
use crate::lexer::{Lexer, ahead};
use crate::parser::Parser;

verus! {

/// What the compiler is asked to do: the path of the source file.
pub struct Config {
    pub file_path: String,
}

impl Config {
    /// Takes the path of the source file from the command line, whose first
    /// entry is the name of the program.
    pub fn build(args: &[String]) -> (result: Result<Config, &'static str>)
        ensures
            args.len() < 2 ==> result is Err && result->Err_0@ == "no arguments provided"@,
            args.len() >= 2 ==> result is Ok && result->Ok_0.file_path@ == args[1]@,
    {
        if args.len() < 2 {
            return Err("no arguments provided");
        }
        let file_path = args[1].clone();
        Ok(Config { file_path })
    }
}

/// The compilation of the program `source`: a line terminator is put behind
/// the text, the text is split into tokens, and the tokens are translated with
/// both buffers empty at the start.
pub open spec fn translation(source: Seq<char>) -> Pass {
    let read = ahead(source.push('\n'), 0);
    Pass::start(read.tokens, read.complete, Seq::empty(), Seq::empty()).program()
}

/// Translates the program `source` to C. The result is the finished text, or
/// the first error that the translation met.
pub fn compile(source: String) -> (result: Result<String, CompileError>)
    ensures
        match translation(source@) {
            Pass::Going(s) => result is Ok && result->Ok_0@ == s.output(),
            Pass::Failed(_, f) => result is Err && result->Err_0@ == f,
        },
{
    let lexer = Lexer::build(source);
    let emitter = Emitter::build(String::new());
    proof {
        let read = ahead(source@.push('\n'), 0);
        let first = Pass::start(read.tokens, read.complete, Seq::empty(), Seq::empty());
        if first is Failed {
            lemma_failure_is_final(first);
        }
    }
    let mut parser = match Parser::new(lexer, emitter) {
        Ok(parser) => parser,
        Err(error) => {
            return Err(error);
        },
    };
    parser.program()
}

} // verus!
