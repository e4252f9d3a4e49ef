//! A verified interpreter for a small line-oriented scripting notation.
//!
//! A source text is turned into a flat token stream by a state-machine lexer,
//! the token stream is turned into a list of statements (variable
//! declarations, function declarations, calls) by a recursive parser, and the
//! statement list is executed directly by an evaluator that keeps a function
//! table and a variable table and produces the lines that the built-in `say`
//! prints.
//!
//! Each stage has a mathematical model (a `spec` function over sequences),
//! and each executable stage is proved to return exactly what its model says.
use vstd::prelude::*;

pub mod tokens;
pub mod literals;
pub mod ast;
pub mod lexer;
pub mod parser;
pub mod eval;
pub mod laws;

verus! {

use crate::eval::{run, spec_run, RunError, RunErrorM, FunTable, VarTable, line_views};
use crate::lexer::{tokenizer, spec_tokenize};
use crate::parser::{parse, spec_parse, ParseError};

/// What ends a whole run: a parse-time fault or an evaluation-time fault.
/// The system is crash-only, so a caller only ever sees the first fault.
#[derive(Debug)]
pub enum ProgramError {
    Parse(ParseError),
    Run(RunError),
}

impl ProgramError {
    pub open spec fn matches_parse(self, e: ParseError) -> bool {
        self matches ProgramError::Parse(p) && p == e
    }

    pub open spec fn matches_run(self, e: RunErrorM) -> bool {
        self matches ProgramError::Run(r) && r@ == e
    }
}

/// Runs a whole source text through the three stages: characters to tokens,
/// tokens to statements, statements to output lines. `fuel` bounds call
/// depth and interpolation rounds; exhausting it is a fault, as everything
/// is in this crash-only design.
pub fn interpret(input: &Vec<char>, fuel: u64) -> (r: (Vec<Vec<char>>, Option<ProgramError>))
    ensures
        ({
            let toks = spec_tokenize(input@);
            match spec_parse(toks, 0, toks.len() as int) {
                Err(pe) => r.0@.len() == 0 && (r.1 matches Some(e) && e.matches_parse(pe)),
                Ok(nodes) => {
                    let out = spec_run(nodes, Map::empty(), Map::empty(), fuel as nat);
                    line_views(r.0@) == out.lines && match out.err {
                        Option::None => r.1 is None,
                        Option::Some(re) => r.1 matches Some(e) && e.matches_run(re),
                    }
                },
            }
        }),
{
    let toks = tokenizer(input);
    match parse(&toks) {
        Result::Err(pe) => (Vec::new(), Some(ProgramError::Parse(pe))),
        Result::Ok(nodes) => {
            let (lines, err) = run(&nodes, FunTable::new(), VarTable::new(), fuel);
            match err {
                Option::None => (lines, Option::None),
                Option::Some(re) => (lines, Some(ProgramError::Run(re))),
            }
        },
    }
}

} // verus!
