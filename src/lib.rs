//! Reduces a polynomial equation in one variable `X`, written as text, to the form
//! `sum of c * X^d = 0`, and solves it up to degree 2.
//!
//! Numbers are exact decimals with up to six decimal places, counted in millionths,
//! so that cancellation and the sign of a discriminant are decided exactly. Roots
//! are given as exact quotients and square roots of integers.
use vstd::prelude::*;

pub mod degree_map;
pub mod lexer;
pub mod numeric;
pub mod parser;
pub mod solver;

use crate::degree_map::DegreeMap;
use crate::lexer::{lex, scan_of, tokenize, LexicalError, Scan};
use crate::parser::{equation_spec, parse, ParseError};

verus! {

/// The first error met on the way from text to a reduced equation.
#[derive(Debug)]
pub enum EquationError {
    Lexical(LexicalError),
    Parse(ParseError),
}

/// Tokenizes and parses `text`: the reduced equation, or the first error.
pub fn reduce(text: &str) -> (r: Result<DegreeMap, EquationError>)
    ensures
        match r {
            Ok(d) => d.wf() && exists|ts: Seq<lexer::Lexem>|
                lex(text@) == Scan::Tokens(ts) && equation_spec(ts) == Ok::<
                    Map<u32, int>,
                    ParseError,
                >(d@),
            Err(EquationError::Lexical(e)) => scan_of(Err(e)) == lex(text@),
            Err(EquationError::Parse(e)) => exists|ts: Seq<lexer::Lexem>|
                lex(text@) == Scan::Tokens(ts) && equation_spec(ts) == Err::<
                    Map<u32, int>,
                    ParseError,
                >(e),
        },
{
    let tokens = match tokenize(text) {
        Ok(ts) => ts,
        Err(e) => {
            return Err(EquationError::Lexical(e));
        },
    };
    match parse(&tokens) {
        Ok(d) => Ok(d),
        Err(e) => Err(EquationError::Parse(e)),
    }
}

} // verus!
