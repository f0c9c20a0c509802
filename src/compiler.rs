use vstd::prelude::*;

use crate::codegen::{generate_assembly, generated, GenError};
use crate::lexer::{lex_source, tokenize, LexError};

verus! {

/// Why a source text was not translated.
#[derive(Debug, Clone, Copy, PartialEq, Eq, Structural)]
pub enum CompileError {
    /// The source text is malformed.
    Lex(LexError),
    /// The generator met loop jumps that do not pair up.
    Gen(GenError),
}

/// The assembly program for a source text, or why there is none.
pub open spec fn compiled(source: Seq<char>) -> Result<Seq<char>, CompileError> {
    match lex_source(source) {
        Err(e) => Err(CompileError::Lex(e)),
        Ok(tokens) => match generated(tokens) {
            Err(e) => Err(CompileError::Gen(e)),
            Ok(text) => Ok(text),
        },
    }
}

/// The view of an executable translation result.
pub open spec fn compiled_view(r: Result<String, CompileError>) -> Result<Seq<char>, CompileError> {
    match r {
        Ok(s) => Ok(s@),
        Err(e) => Err(e),
    }
}

/// Translates a source text into an assembly program. A malformed text gives
/// its lexing error and no program text at all.
pub fn compile(source: &str) -> (r: Result<String, CompileError>)
    ensures
        compiled_view(r) == compiled(source@),
{
    match tokenize(source) {
        Err(e) => Err(CompileError::Lex(e)),
        Ok(tokens) => match generate_assembly(&tokens) {
            Err(e) => Err(CompileError::Gen(e)),
            Ok(text) => Ok(text),
        },
    }
}

} // verus!
