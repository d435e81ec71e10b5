//! The virtual machine's instruction set.
//!
//! Every operand written `i64` is a signed offset relative to the address of
//! the instruction that carries it, never an absolute address.  A program is
//! a flat sequence of instructions terminated by exactly one [`Opcode::IEnd`].

use vstd::prelude::*;
use crate::ast::Flags;
use crate::capture::CapKind;

verus! {

/// One bytecode instruction.
#[derive(Debug, Clone, PartialEq, Eq)]
pub enum Opcode {
    /// Consume one character, whichever it is; fail at end of input.
    IAny(Flags),
    /// Consume the given character; fail on any other or at end of input.
    IChar(char, Flags),
    /// Consume one character of the class; fail outside it or at end of input.
    ISet(Vec<(char, char)>, Flags),
    /// Return from a rule to the address saved by the matching `ICall`.
    IRet,
    /// End of the program: the match has succeeded.
    IEnd,
    /// Push a choice point; the next failure resumes at `offset` with the
    /// subject position and capture count saved here.
    IChoice(i64),
    /// Jump to `offset`.
    IJmp(i64),
    /// Call the rule at `offset`, saving the return address.
    ICall(i64),
    /// Pop the pending choice point and jump to `offset`.
    ICommit(i64),
    /// The zero-or-more loop back-edge: while the body advances, move the
    /// pending choice point's saved position and capture count forward and
    /// jump back to `offset`; once an iteration consumes nothing, pop the
    /// choice point and fall through, ending the loop.
    IPartialCommit(i64),
    /// Fail: backtrack to the most recent choice point.
    IFail,
    /// Record a capture entry of the given kind and index at the current
    /// subject position.
    IFullCapture(CapKind, usize),
}

/// The ghost form of an instruction: offsets as unbounded integers, the
/// class operand as a sequence.  The machine semantics and the compiler's
/// specification are stated over this type.
pub enum SpecOp {
    Any(Flags),
    Char(char, Flags),
    Cls(Seq<(char, char)>, Flags),
    Ret,
    End,
    Choice(int),
    Jmp(int),
    Call(int),
    Commit(int),
    PartialCommit(int),
    Fail,
    FullCapture(CapKind, usize),
}

impl View for Opcode {
    type V = SpecOp;

    open spec fn view(&self) -> SpecOp {
        match *self {
            Opcode::IAny(f) => SpecOp::Any(f),
            Opcode::IChar(c, f) => SpecOp::Char(c, f),
            Opcode::ISet(ref rs, f) => SpecOp::Cls(rs@, f),
            Opcode::IRet => SpecOp::Ret,
            Opcode::IEnd => SpecOp::End,
            Opcode::IChoice(o) => SpecOp::Choice(o as int),
            Opcode::IJmp(o) => SpecOp::Jmp(o as int),
            Opcode::ICall(o) => SpecOp::Call(o as int),
            Opcode::ICommit(o) => SpecOp::Commit(o as int),
            Opcode::IPartialCommit(o) => SpecOp::PartialCommit(o as int),
            Opcode::IFail => SpecOp::Fail,
            Opcode::IFullCapture(k, n) => SpecOp::FullCapture(k, n),
        }
    }
}

/// The view of a whole program: each instruction's ghost form, in order.
pub open spec fn code_view(insts: Seq<Opcode>) -> Seq<SpecOp> {
    insts.map_values(|op: Opcode| op@)
}

/// An instruction address: an index into the program.
#[derive(Debug, PartialEq, Eq, Structural, Clone, Copy)]
pub struct CodeIdx(pub usize);

/// A subject position: a count of characters consumed, not a byte offset.
#[derive(Debug, PartialEq, Eq, Structural, Clone, Copy)]
pub struct CharNum(pub usize);

/// A raw capture mark: a subject position beside the address of the
/// instruction that recorded it.
#[derive(Debug, PartialEq, Eq, Structural, Clone, Copy)]
pub struct Capture(pub CharNum, pub CodeIdx);

} // verus!
