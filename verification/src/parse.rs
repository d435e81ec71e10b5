//! The boundary with the textual grammar front end.
//!
//! Turning PEG source text such as `a <- b / c` into a pattern tree is the
//! front end's work, not this library's: callers build an [`Ast`] directly
//! or through the builder functions.  What stands here is the error type of
//! that boundary and the entry point that names it.

use vstd::prelude::*;
use vstd::string::StringExecFns;
use crate::ast::{Ast, Flags, Repeater};

verus! {

/// A syntax error: where it was found and what was expected.
pub struct Error {
    /// Character position of the error in the source text.
    pub pos: usize,
    /// What went wrong, in words.
    pub msg: String,
}

/// An error result at the given position with the given message.
pub fn err<T>(msg: &str, pos: usize) -> (r: Result<T, Error>)
    ensures
        r matches Err(e) && e.pos == pos && e.msg@ == msg@,
{
    Err(Error { pos, msg: String::from_str(msg) })
}

/// The text of a syntax error: a function of the position and message
/// alone.
pub uninterp spec fn error_text(pos: int, msg: Seq<char>) -> Seq<char>;

/// Relies on the format macro: renders the position in decimal inside a
/// fixed message shape; the result depends on the arguments alone.
#[verifier::external_body]
fn format_error(pos: usize, msg: &str) -> (r: String)
    ensures
        r@ == error_text(pos as int, msg@),
{
    format!("syntax error near position {}: {}", pos, msg)
}

impl Error {
    /// The error spelt out, as it would be shown to a person.
    pub fn message(&self) -> (r: String)
        ensures
            r@ == error_text(self.pos as int, self.msg@),
    {
        format_error(self.pos, self.msg.as_str())
    }
}

/// Reading pattern text is the front end's work; this library takes pattern
/// trees, so every call lands on the boundary error.
pub fn parse(src: &str) -> (r: Result<Ast, Error>)
    ensures
        r is Err,
{
    let _ = src;
    err("pattern text is read by a front end outside this library", 0)
}

/// The abstract syntax of a regular expression, kept beside the PEG tree
/// for comparison: ordered choice and lookahead set the two apart.
#[derive(Debug)]
pub enum ReAst {
    ReNothing,
    ReLiteral(char, Flags),
    ReDot(Flags),
    ReAstClass(Vec<(char, char)>, Flags),
    ReBegin(Flags),
    ReEnd(Flags),
    ReWordBoundary(Flags),
    ReCapture(usize, Option<String>, Box<Ast>),
    ReCat(Vec<Ast>),
    ReAlt(Box<Ast>, Box<Ast>),
    ReRep(Box<Ast>, Repeater),
}

} // verus!
