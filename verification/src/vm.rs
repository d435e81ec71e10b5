//! The backtracking virtual machine.
//!
//! The machine's state is four registers: a program counter (or "failing"
//! when no instruction is current), the subject position, the combined
//! call/choice stack, and the capture list.  The ghost functions here state
//! the complete operational semantics, one instruction dispatch per step;
//! the executable machine below is proved to implement it step for step.
//!
//! The stack's bottom-most entry is always a sentinel return entry meaning
//! "whole match finished, no caller to return to"; failure is recognised
//! when backtracking reaches that sentinel without finding an alternative,
//! success when the program counter passes the end instruction with the
//! stack reduced to exactly the sentinel.

use vstd::prelude::*;
use vstd::string::StrSliceExecFns;
use crate::ast::{Flags, FLAG_NEGATED};
use crate::capture::{CapKind, Capture};
use crate::code::{code_view, CharNum, CodeIdx, Opcode, SpecOp};

verus! {

/// A capture-list length saved in a choice point.
#[derive(Debug, PartialEq, Eq, Structural, Clone, Copy)]
pub struct CapLevel(pub usize);

/// One entry of the combined call/choice stack.
#[derive(Debug, PartialEq, Eq, Structural, Clone, Copy)]
pub enum StackEntry {
    /// Where a rule returns to; `None` is the bottom sentinel.
    ReturnTo(Option<CodeIdx>),
    /// A choice point: resume address, saved subject position, saved
    /// capture-list length.
    AlternateTo(CodeIdx, CharNum, CapLevel),
}

/// The ghost form of a stack entry: addresses and counts as integers.
pub enum SpecStackEntry {
    Ret(Option<int>),
    Alt(int, int, int),
}

impl View for StackEntry {
    type V = SpecStackEntry;

    open spec fn view(&self) -> SpecStackEntry {
        match *self {
            StackEntry::ReturnTo(None) => SpecStackEntry::Ret(None),
            StackEntry::ReturnTo(Some(CodeIdx(r))) => SpecStackEntry::Ret(Some(r as int)),
            StackEntry::AlternateTo(CodeIdx(r), CharNum(i), CapLevel(c)) => SpecStackEntry::Alt(
                r as int,
                i as int,
                c as int,
            ),
        }
    }
}

/// The ghost form of a capture entry.
pub struct SpecCapture {
    pub pos: int,
    pub kind: CapKind,
    pub idx: int,
    pub siz: int,
}

impl View for Capture {
    type V = SpecCapture;

    open spec fn view(&self) -> SpecCapture {
        SpecCapture { pos: self.s as int, kind: self.kind, idx: self.idx as int, siz: self.siz as int }
    }
}

/// The view of a whole stack.
pub open spec fn stack_view(s: Seq<StackEntry>) -> Seq<SpecStackEntry> {
    s.map_values(|e: StackEntry| e@)
}

/// The view of a whole capture list.
pub open spec fn caps_view(s: Seq<Capture>) -> Seq<SpecCapture> {
    s.map_values(|c: Capture| c@)
}

/// The machine's whole state: program counter (`None` = failing), subject
/// position, call/choice stack, capture list.
pub struct MachineState {
    pub p: Option<int>,
    pub i: int,
    pub stk: Seq<SpecStackEntry>,
    pub caps: Seq<SpecCapture>,
}

/// Whether a character lies in one of the class's ranges.
pub open spec fn cls_has(rs: Seq<(char, char)>, c: char) -> bool {
    exists|k: int| 0 <= k < rs.len() && (#[trigger] rs[k]).0 <= c <= rs[k].1
}

/// Whether a class instruction accepts a character, honouring negation.
pub open spec fn cls_matches(rs: Seq<(char, char)>, f: Flags, c: char) -> bool {
    cls_has(rs, c) != (f & FLAG_NEGATED != 0)
}

/// The capture entry recorded by a full-capture instruction at subject
/// position `i`: closing entries carry `siz` 1, opening entries 0.
pub open spec fn cap_entry(i: int, kind: CapKind, idx: int) -> SpecCapture {
    SpecCapture { pos: i, kind, idx, siz: if kind is Cclose { 1int } else { 0int } }
}

/// Success: the program counter has passed the end of the program and the
/// stack holds exactly the bottom sentinel.
pub open spec fn vm_success(code: Seq<SpecOp>, s: MachineState) -> bool {
    s.p == Some(code.len() as int) && s.stk.len() == 1 && s.stk[0] is Ret
}

/// Failure: backtracking has reached the bottom sentinel without finding an
/// alternative.  This is the defined "no match" outcome, not an error.
pub open spec fn vm_failure(s: MachineState) -> bool {
    s.p is None && s.stk.len() == 1 && s.stk[0] is Ret
}

/// An internal invariant violation: a state no program emitted by a correct
/// compiler ever reaches.  These are kept distinct from failure.
pub open spec fn vm_fault(code: Seq<SpecOp>, s: MachineState) -> bool {
    ||| (s.p is None && s.stk.len() == 0)
    ||| (match s.p {
        Some(k) => {
            ||| !(0 <= k <= code.len())
            ||| (k == code.len() && !(s.stk.len() == 1 && s.stk[0] is Ret))
            ||| (0 <= k < code.len() && match code[k] {
                SpecOp::Ret => !(s.stk.len() >= 1 && s.stk.last() matches SpecStackEntry::Ret(Some(_))),
                SpecOp::Commit(o) => !(s.stk.len() >= 1 && s.stk.last() is Alt && 0 <= k + o <= code.len()),
                SpecOp::PartialCommit(o) => !(s.stk.len() >= 1 && s.stk.last() is Alt && 0 <= k + o <= code.len()),
                SpecOp::Jmp(o) => !(0 <= k + o <= code.len()),
                SpecOp::Choice(o) => !(0 <= k + o <= code.len()),
                SpecOp::Call(o) => !(0 <= k + o <= code.len()),
                _ => false,
            })
        },
        None => false,
    })
}

/// A state the machine does not leave: success, failure, or a fault.
pub open spec fn vm_terminal(code: Seq<SpecOp>, s: MachineState) -> bool {
    vm_success(code, s) || vm_failure(s) || vm_fault(code, s)
}

/// One dispatch of the machine: the complete operational contract.
/// Terminal states step to themselves.
pub open spec fn vm_step(code: Seq<SpecOp>, input: Seq<char>, s: MachineState) -> MachineState {
    if vm_terminal(code, s) {
        s
    } else {
        match s.p {
            None => {
                // Backtrack: pop one entry; a return entry is discarded, an
                // alternative restores position, capture level and control.
                match s.stk.last() {
                    SpecStackEntry::Ret(_) => MachineState { stk: s.stk.drop_last(), ..s },
                    SpecStackEntry::Alt(r, i1, c1) => MachineState {
                        p: Some(r),
                        i: i1,
                        stk: s.stk.drop_last(),
                        caps: if 0 <= c1 <= s.caps.len() {
                            s.caps.take(c1)
                        } else {
                            s.caps
                        },
                    },
                }
            },
            Some(k) => match code[k] {
                SpecOp::Any(_) => if s.i < input.len() {
                    MachineState { p: Some(k + 1), i: s.i + 1, ..s }
                } else {
                    MachineState { p: None, ..s }
                },
                SpecOp::Char(c, _) => if s.i < input.len() && input[s.i] == c {
                    MachineState { p: Some(k + 1), i: s.i + 1, ..s }
                } else {
                    MachineState { p: None, ..s }
                },
                SpecOp::Cls(rs, f) => if s.i < input.len() && cls_matches(rs, f, input[s.i]) {
                    MachineState { p: Some(k + 1), i: s.i + 1, ..s }
                } else {
                    MachineState { p: None, ..s }
                },
                SpecOp::Ret => match s.stk.last() {
                    SpecStackEntry::Ret(Some(r)) => MachineState { p: Some(r), stk: s.stk.drop_last(), ..s },
                    _ => s,
                },
                SpecOp::End => MachineState { p: Some(k + 1), ..s },
                SpecOp::Choice(o) => MachineState {
                    p: Some(k + 1),
                    stk: s.stk.push(SpecStackEntry::Alt(k + o, s.i, s.caps.len() as int)),
                    ..s
                },
                SpecOp::Jmp(o) => MachineState { p: Some(k + o), ..s },
                SpecOp::Call(o) => MachineState {
                    p: Some(k + o),
                    stk: s.stk.push(SpecStackEntry::Ret(Some(k + 1))),
                    ..s
                },
                SpecOp::Commit(o) => MachineState { p: Some(k + o), stk: s.stk.drop_last(), ..s },
                SpecOp::PartialCommit(o) => match s.stk.last() {
                    SpecStackEntry::Alt(r, i1, _) => if s.i == i1 {
                        // No progress: end the loop, keeping the position.
                        MachineState { p: Some(k + 1), stk: s.stk.drop_last(), ..s }
                    } else {
                        // Progress: move the choice point forward and loop.
                        MachineState {
                            p: Some(k + o),
                            stk: s.stk.drop_last().push(
                                SpecStackEntry::Alt(r, s.i, s.caps.len() as int),
                            ),
                            ..s
                        }
                    },
                    _ => s,
                },
                SpecOp::Fail => MachineState { p: None, ..s },
                SpecOp::FullCapture(kind, idx) => MachineState {
                    p: Some(k + 1),
                    caps: s.caps.push(cap_entry(s.i, kind, idx as int)),
                    ..s
                },
            },
        }
    }
}

/// `n` dispatches of the machine.
pub open spec fn vm_run(code: Seq<SpecOp>, input: Seq<char>, s: MachineState, n: nat) -> MachineState
    decreases n,
{
    if n == 0 {
        s
    } else {
        vm_step(code, input, vm_run(code, input, s, (n - 1) as nat))
    }
}

/// The state every match attempt starts from: the first instruction, the
/// start of the subject, the sentinel alone on the stack, no captures.
pub open spec fn vm_init() -> MachineState {
    MachineState {
        p: Some(0),
        i: 0,
        stk: seq![SpecStackEntry::Ret(None)],
        caps: Seq::empty(),
    }
}

/// Once terminal, the machine never moves again.
pub proof fn lemma_terminal_stays(code: Seq<SpecOp>, input: Seq<char>, s: MachineState, n: nat)
    requires
        vm_terminal(code, s),
    ensures
        vm_run(code, input, s, n) == s,
    decreases n,
{
    if n > 0 {
        lemma_terminal_stays(code, input, s, (n - 1) as nat);
    }
}

/// Running `m + n` steps is running `m`, then `n` more.
pub proof fn lemma_run_add(code: Seq<SpecOp>, input: Seq<char>, s: MachineState, m: nat, n: nat)
    ensures
        vm_run(code, input, s, m + n) == vm_run(code, input, vm_run(code, input, s, m), n),
    decreases n,
{
    if n > 0 {
        lemma_run_add(code, input, s, m, (n - 1) as nat);
        assert(m + n - 1 == (m + (n - 1) as nat));
    }
}

/// A stack entry's saved addresses lie inside the program.
pub open spec fn entry_ok(e: SpecStackEntry, len: int) -> bool {
    match e {
        SpecStackEntry::Ret(None) => true,
        SpecStackEntry::Ret(Some(r)) => 0 <= r <= len,
        SpecStackEntry::Alt(r, _, _) => 0 <= r <= len,
    }
}

/// Every entry of the stack has its saved addresses inside the program.
pub open spec fn stack_ok(stk: Seq<SpecStackEntry>, len: int) -> bool {
    forall|j: int| 0 <= j < stk.len() ==> entry_ok(#[trigger] stk[j], len)
}

/// No reachable state of a program on an input is an internal invariant
/// violation.  Programs emitted by the compiler satisfy this on every input;
/// a hand-written program may not.
pub open spec fn vm_sound(code: Seq<SpecOp>, input: Seq<char>) -> bool {
    forall|m: nat| !vm_fault(code, #[trigger] vm_run(code, input, vm_init(), m))
}

/// Some number of dispatches from the initial state reaches a terminal
/// state.  False only of a diverging program, such as a compiled
/// left-recursive grammar; the machine cannot run those to completion.
pub open spec fn vm_halts(code: Seq<SpecOp>, input: Seq<char>) -> bool {
    exists|m: nat| vm_terminal(code, #[trigger] vm_run(code, input, vm_init(), m))
}

/// Two terminal states reached from the same start are the same state: the
/// machine is deterministic and stutters once terminal.
pub proof fn lemma_terminal_unique(
    code: Seq<SpecOp>,
    input: Seq<char>,
    s: MachineState,
    m: nat,
    n: nat,
)
    requires
        vm_terminal(code, vm_run(code, input, s, m)),
        vm_terminal(code, vm_run(code, input, s, n)),
    ensures
        vm_run(code, input, s, m) == vm_run(code, input, s, n),
{
    if m <= n {
        lemma_run_add(code, input, s, m, (n - m) as nat);
        lemma_terminal_stays(code, input, vm_run(code, input, s, m), (n - m) as nat);
    } else {
        lemma_run_add(code, input, s, n, (m - n) as nat);
        lemma_terminal_stays(code, input, vm_run(code, input, s, n), (m - n) as nat);
    }
}

/// The distinct error kind for internal invariant violations: states that
/// indicate a defect in compiled code, never a mere mismatch of the input.
/// The machine reports them as errors rather than masking them as failure.
#[derive(Debug, PartialEq, Eq, Structural, Clone, Copy)]
pub enum VmError {
    /// Backtracking found the stack empty.
    StackExhausted,
    /// A return instruction found no caller's return address on top.
    ExpectedReturn,
    /// A commit found no choice point on top.
    ExpectedAlternate,
    /// A control transfer pointed outside the program.
    BadAddress,
    /// The end of the program was reached with pending calls on the stack.
    PendingCalls,
}

/// The machine's two moving registers between steps: the current instruction
/// (`None` = failing) and the subject position.
#[derive(Debug, PartialEq, Eq, Structural, Clone, Copy)]
pub struct VmState {
    pub p: Option<CodeIdx>,
    pub i: CharNum,
}

/// The virtual machine: a compiled program, and per-match state.  The
/// program is immutable across matches; the stack and capture list are
/// cleared at the start of each match and reused.
pub struct Vm {
    /// The compiled program.
    pub program: Vec<Opcode>,
    /// The subject, one entry per character.
    pub text: Vec<char>,
    /// The combined call/choice stack.
    pub stack: Vec<StackEntry>,
    /// The capture list.
    pub captures: Vec<Capture>,
}

impl Vm {
    /// The ghost form of the loaded program.
    pub open spec fn code(&self) -> Seq<SpecOp> {
        code_view(self.program@)
    }

    /// The machine state that the registers and the two stacks denote.
    pub open spec fn abs(&self, st: VmState) -> MachineState {
        MachineState {
            p: match st.p {
                Some(c) => Some(c.0 as int),
                None => None,
            },
            i: st.i.0 as int,
            stk: stack_view(self.stack@),
            caps: caps_view(self.captures@),
        }
    }

    /// A machine with the given program loaded and no match state yet.
    pub fn new(program: Vec<Opcode>) -> (r: Vm)
        ensures
            r.program@ == program@,
            r.text@ == Seq::<char>::empty(),
            r.stack@ == Seq::<StackEntry>::empty(),
            r.captures@ == Seq::<Capture>::empty(),
    {
        Vm { program, text: Vec::new(), stack: Vec::new(), captures: Vec::new() }
    }
}

/// Whether the character lies in one of the ranges.
fn cls_check(rs: &Vec<(char, char)>, c: char) -> (r: bool)
    ensures
        r == cls_has(rs@, c),
{
    let mut k: usize = 0;
    while k < rs.len()
        invariant
            k <= rs@.len(),
            forall|j: int| 0 <= j < k ==> !((#[trigger] rs@[j]).0 <= c <= rs@[j].1),
        decreases rs@.len() - k,
    {
        let (lo, hi) = rs[k];
        if lo <= c && c <= hi {
            return true;
        }
        k = k + 1;
    }
    false
}

impl Vm {
    /// One dispatch of the machine.  The caller has ruled out the success
    /// and failure terminals; a fault terminal is reported as an error with
    /// nothing changed.
    fn step(&mut self, st: VmState) -> (r: Result<VmState, VmError>)
        requires
            match st.p {
                Some(c) => c.0 < old(self).program@.len(),
                None => !vm_failure(old(self).abs(st)),
            },
            stack_ok(stack_view(old(self).stack@), old(self).program@.len() as int),
        ensures
            final(self).program@ == old(self).program@,
            final(self).text@ == old(self).text@,
            match r {
                Ok(st2) => {
                    &&& !vm_fault(old(self).code(), old(self).abs(st))
                    &&& final(self).abs(st2) == vm_step(
                        old(self).code(),
                        old(self).text@,
                        old(self).abs(st),
                    )
                    &&& (st2.p matches Some(c) ==> c.0 <= old(self).program@.len())
                    &&& stack_ok(stack_view(final(self).stack@), old(self).program@.len() as int)
                },
                Err(_) => {
                    &&& vm_fault(old(self).code(), old(self).abs(st))
                    &&& final(self).stack@ == old(self).stack@
                    &&& final(self).captures@ == old(self).captures@
                },
            },
    {
        let ghost code = self.code();
        let ghost input = self.text@;
        let ghost s0 = self.abs(st);
        proof {
            assert(!vm_success(code, s0));
        }
        match st.p {
            None => {
                // Backtrack: pop one entry; return entries are discarded,
                // an alternative restores position, captures and control.
                let n = self.stack.len();
                if n == 0 {
                    return Err(VmError::StackExhausted);
                }
                let top = self.stack[n - 1];
                proof {
                    assert(s0.stk.last() == top@);
                    assert(!vm_fault(code, s0));
                    assert(!vm_terminal(code, s0));
                }
                self.stack.pop();
                proof {
                    assert(stack_view(self.stack@) =~= s0.stk.drop_last());
                }
                match top {
                    StackEntry::ReturnTo(_) => {
                        let st2 = VmState { p: None, i: st.i };
                        proof {
                            assert(self.abs(st2) == vm_step(code, input, s0));
                        }
                        Ok(st2)
                    },
                    StackEntry::AlternateTo(r, i1, CapLevel(c1)) => {
                        self.captures.truncate(c1);
                        let st2 = VmState { p: Some(r), i: i1 };
                        proof {
                            if c1 <= old(self).captures@.len() {
                                assert(caps_view(self.captures@) =~= s0.caps.take(c1 as int));
                            }
                            assert(self.abs(st2) == vm_step(code, input, s0));
                        }
                        Ok(st2)
                    },
                }
            },
            Some(CodeIdx(pc)) => {
                let prog_len = self.program.len();
                let ghost k = pc as int;
                proof {
                    assert(pc < prog_len);
                    assert(code[k] == self.program@[k]@);
                }
                let op = &self.program[pc];
                match op {
                    Opcode::IAny(_) => {
                        proof {
                            assert(!vm_fault(code, s0));
                        }
                        if st.i.0 < self.text.len() {
                            Ok(VmState { p: Some(CodeIdx(pc + 1)), i: CharNum(st.i.0 + 1) })
                        } else {
                            Ok(VmState { p: None, i: st.i })
                        }
                    },
                    Opcode::IChar(c, _) => {
                        proof {
                            assert(!vm_fault(code, s0));
                        }
                        if st.i.0 < self.text.len() && self.text[st.i.0] == *c {
                            Ok(VmState { p: Some(CodeIdx(pc + 1)), i: CharNum(st.i.0 + 1) })
                        } else {
                            Ok(VmState { p: None, i: st.i })
                        }
                    },
                    Opcode::ISet(rs, f) => {
                        proof {
                            assert(!vm_fault(code, s0));
                        }
                        if st.i.0 < self.text.len() {
                            let inside = cls_check(rs, self.text[st.i.0]);
                            let neg = *f & FLAG_NEGATED != 0;
                            if inside != neg {
                                Ok(VmState { p: Some(CodeIdx(pc + 1)), i: CharNum(st.i.0 + 1) })
                            } else {
                                Ok(VmState { p: None, i: st.i })
                            }
                        } else {
                            Ok(VmState { p: None, i: st.i })
                        }
                    },
                    Opcode::IRet => {
                        let n = self.stack.len();
                        if n == 0 {
                            return Err(VmError::ExpectedReturn);
                        }
                        let top = self.stack[n - 1];
                        proof {
                            assert(s0.stk.last() == top@);
                        }
                        match top {
                            StackEntry::ReturnTo(Some(r)) => {
                                proof {
                                    assert(!vm_fault(code, s0));
                                }
                                self.stack.pop();
                                proof {
                                    assert(stack_view(self.stack@) =~= s0.stk.drop_last());
                                }
                                Ok(VmState { p: Some(r), i: st.i })
                            },
                            _ => Err(VmError::ExpectedReturn),
                        }
                    },
                    Opcode::IEnd => {
                        proof {
                            assert(!vm_fault(code, s0));
                        }
                        Ok(VmState { p: Some(CodeIdx(pc + 1)), i: st.i })
                    },
                    Opcode::IChoice(o) => {
                        let t = pc as i128 + *o as i128;
                        if t < 0 || t > self.program.len() as i128 {
                            return Err(VmError::BadAddress);
                        }
                        proof {
                            assert(!vm_fault(code, s0));
                        }
                        let dest = t as usize;
                        let entry = StackEntry::AlternateTo(
                            CodeIdx(dest),
                            st.i,
                            CapLevel(self.captures.len()),
                        );
                        self.stack.push(entry);
                        proof {
                            assert(stack_view(self.stack@) =~= s0.stk.push(entry@));
                        }
                        Ok(VmState { p: Some(CodeIdx(pc + 1)), i: st.i })
                    },
                    Opcode::IJmp(o) => {
                        let t = pc as i128 + *o as i128;
                        if t < 0 || t > self.program.len() as i128 {
                            return Err(VmError::BadAddress);
                        }
                        proof {
                            assert(!vm_fault(code, s0));
                        }
                        Ok(VmState { p: Some(CodeIdx(t as usize)), i: st.i })
                    },
                    Opcode::ICall(o) => {
                        let t = pc as i128 + *o as i128;
                        if t < 0 || t > self.program.len() as i128 {
                            return Err(VmError::BadAddress);
                        }
                        proof {
                            assert(!vm_fault(code, s0));
                        }
                        let entry = StackEntry::ReturnTo(Some(CodeIdx(pc + 1)));
                        self.stack.push(entry);
                        proof {
                            assert(stack_view(self.stack@) =~= s0.stk.push(entry@));
                        }
                        Ok(VmState { p: Some(CodeIdx(t as usize)), i: st.i })
                    },
                    Opcode::ICommit(o) => {
                        let n = self.stack.len();
                        if n == 0 {
                            return Err(VmError::ExpectedAlternate);
                        }
                        let top = self.stack[n - 1];
                        proof {
                            assert(s0.stk.last() == top@);
                        }
                        match top {
                            StackEntry::AlternateTo(..) => {
                                let t = pc as i128 + *o as i128;
                                if t < 0 || t > self.program.len() as i128 {
                                    return Err(VmError::BadAddress);
                                }
                                proof {
                                    assert(!vm_fault(code, s0));
                                }
                                self.stack.pop();
                                proof {
                                    assert(stack_view(self.stack@) =~= s0.stk.drop_last());
                                }
                                Ok(VmState { p: Some(CodeIdx(t as usize)), i: st.i })
                            },
                            _ => Err(VmError::ExpectedAlternate),
                        }
                    },
                    Opcode::IPartialCommit(o) => {
                        let n = self.stack.len();
                        if n == 0 {
                            return Err(VmError::ExpectedAlternate);
                        }
                        let top = self.stack[n - 1];
                        proof {
                            assert(s0.stk.last() == top@);
                        }
                        match top {
                            StackEntry::AlternateTo(r, CharNum(i1), _) => {
                                let t = pc as i128 + *o as i128;
                                if t < 0 || t > self.program.len() as i128 {
                                    return Err(VmError::BadAddress);
                                }
                                proof {
                                    assert(!vm_fault(code, s0));
                                }
                                if st.i.0 == i1 {
                                    // No progress: end the loop here.
                                    self.stack.pop();
                                    proof {
                                        assert(stack_view(self.stack@) =~= s0.stk.drop_last());
                                    }
                                    Ok(VmState { p: Some(CodeIdx(pc + 1)), i: st.i })
                                } else {
                                    // Progress: slide the choice point forward.
                                    self.stack.pop();
                                    let entry = StackEntry::AlternateTo(
                                        r,
                                        st.i,
                                        CapLevel(self.captures.len()),
                                    );
                                    self.stack.push(entry);
                                    proof {
                                        assert(stack_view(self.stack@) =~= s0.stk.drop_last().push(
                                            entry@,
                                        ));
                                    }
                                    Ok(VmState { p: Some(CodeIdx(t as usize)), i: st.i })
                                }
                            },
                            _ => Err(VmError::ExpectedAlternate),
                        }
                    },
                    Opcode::IFail => {
                        proof {
                            assert(!vm_fault(code, s0));
                        }
                        Ok(VmState { p: None, i: st.i })
                    },
                    Opcode::IFullCapture(kind, idx) => {
                        proof {
                            assert(!vm_fault(code, s0));
                        }
                        let siz: u8 = if *kind == CapKind::Cclose {
                            1
                        } else {
                            0
                        };
                        let entry = Capture { s: st.i.0, idx: *idx, kind: *kind, siz };
                        self.captures.push(entry);
                        proof {
                            assert(caps_view(self.captures@) =~= s0.caps.push(
                                cap_entry(s0.i, entry.kind, entry.idx as int),
                            ));
                        }
                        Ok(VmState { p: Some(CodeIdx(pc + 1)), i: st.i })
                    },
                }
            },
        }
    }
}

impl Vm {
    /// Load the subject, then run the program from its first instruction,
    /// one dispatch per loop iteration, until the machine reaches a terminal
    /// state.
    ///
    /// `Ok(Some(n))` reports a match consuming `n` characters, with the
    /// capture list left in `self.captures`; `Ok(None)` reports that the
    /// pattern does not match; `Err` reports an internal invariant
    /// violation, which no program emitted by a correct compiler reaches.
    /// Either `Ok` outcome leaves the stack holding exactly the bottom
    /// sentinel.  Each result is exactly what the machine semantics
    /// prescribes: some number of dispatches from the initial state ends in
    /// the corresponding terminal state.
    pub fn run(&mut self, input: &str) -> (r: Result<Option<CharNum>, VmError>)
        requires
            vm_halts(code_view(old(self).program@), input@),
        ensures
            final(self).program@ == old(self).program@,
            final(self).text@ == input@,
            ({
                let code = code_view(old(self).program@);
                match r {
                    Ok(Some(cn)) => exists|m: nat|
                        {
                            let s = #[trigger] vm_run(code, input@, vm_init(), m);
                            &&& vm_success(code, s)
                            &&& s.i == cn.0 as int
                            &&& s.caps == caps_view(final(self).captures@)
                        },
                    Ok(None) => exists|m: nat|
                        vm_failure(#[trigger] vm_run(code, input@, vm_init(), m)),
                    Err(_) => exists|m: nat|
                        vm_fault(code, #[trigger] vm_run(code, input@, vm_init(), m)),
                }
            }),
            r is Ok ==> final(self).stack@.len() == 1 && (final(self).stack@[0] matches
                StackEntry::ReturnTo(_)),
    {
        // Load the subject as characters, so positions are character counts.
        let n = input.unicode_len();
        let mut t: Vec<char> = Vec::new();
        let mut j: usize = 0;
        while j < n
            invariant
                j <= n,
                n == input@.len(),
                t@ == input@.take(j as int),
            decreases n - j,
        {
            let c = input.get_char(j);
            t.push(c);
            proof {
                assert(t@ =~= input@.take(j + 1 as int));
            }
            j = j + 1;
        }
        proof {
            assert(input@.take(n as int) =~= input@);
        }
        self.text = t;
        self.stack.clear();
        self.captures.clear();
        self.stack.push(StackEntry::ReturnTo(None));
        let mut st = VmState { p: Some(CodeIdx(0)), i: CharNum(0) };
        let ghost code = self.code();
        let ghost inp = self.text@;
        let ghost mut m: nat = 0;
        let ghost m0 = choose|k: nat| vm_terminal(code, #[trigger] vm_run(code, inp, vm_init(), k));
        proof {
            assert(stack_view(self.stack@) =~= seq![SpecStackEntry::Ret(None::<int>)]);
            assert(caps_view(self.captures@) =~= Seq::<SpecCapture>::empty());
            assert(self.abs(st) == vm_init());
            assert(stack_ok(stack_view(self.stack@), self.program@.len() as int));
        }
        loop
            invariant
                self.program@ == old(self).program@,
                self.text@ == inp,
                inp == input@,
                code == code_view(self.program@),
                vm_run(code, inp, vm_init(), m) == self.abs(st),
                match st.p {
                    Some(c) => c.0 <= self.program@.len(),
                    None => true,
                },
                stack_ok(stack_view(self.stack@), self.program@.len() as int),
                m <= m0,
                vm_terminal(code, vm_run(code, inp, vm_init(), m0)),
            decreases m0 - m,
        {
            let prog_len = self.program.len();
            match st.p {
                Some(CodeIdx(pc)) => {
                    if pc == prog_len {
                        // The program counter has passed the end instruction.
                        if self.stack.len() == 1 {
                            let sentinel = matches!(self.stack[0], StackEntry::ReturnTo(_));
                            if sentinel {
                                proof {
                                    assert(self.abs(st).stk[0] == self.stack@[0]@);
                                    assert(vm_success(code, self.abs(st)));
                                }
                                return Ok(Some(st.i));
                            }
                            proof {
                                assert(self.abs(st).stk[0] == self.stack@[0]@);
                                assert(vm_fault(code, self.abs(st)));
                            }
                            return Err(VmError::PendingCalls);
                        }
                        proof {
                            assert(vm_fault(code, self.abs(st)));
                        }
                        return Err(VmError::PendingCalls);
                    }
                },
                None => {
                    if self.stack.len() == 0 {
                        proof {
                            assert(vm_fault(code, self.abs(st)));
                        }
                        return Err(VmError::StackExhausted);
                    }
                    if self.stack.len() == 1 {
                        let sentinel = matches!(self.stack[0], StackEntry::ReturnTo(_));
                        if sentinel {
                            proof {
                                assert(self.abs(st).stk[0] == self.stack@[0]@);
                                assert(vm_failure(self.abs(st)));
                            }
                            return Ok(None);
                        }
                    }
                    proof {
                        assert(self.abs(st).stk.last() == self.stack@[self.stack@.len() - 1]@);
                        assert(!vm_failure(self.abs(st)));
                    }
                },
            }
            let ghost pre = self.abs(st);
            match self.step(st) {
                Ok(st2) => {
                    proof {
                        assert(!vm_success(code, pre));
                        assert(!vm_failure(pre));
                        assert(!vm_terminal(code, pre));
                        if m == m0 {
                            assert(false);
                        }
                        m = m + 1;
                    }
                    st = st2;
                },
                Err(e) => {
                    proof {
                        assert(vm_fault(code, vm_run(code, inp, vm_init(), m)));
                    }
                    return Err(e);
                },
            }
        }
    }

    /// Match the subject against the loaded program and return how many
    /// characters were consumed, or `None` where the pattern does not match.
    ///
    /// The caller vouches that the program halts on this input and reaches
    /// no internal invariant violation — true of every compiled pattern
    /// whose evaluation settles at some budget — so the two `Ok` outcomes
    /// of [`Vm::run`] are the only ones possible.
    pub fn do_match(&mut self, input: &str) -> (r: Option<CharNum>)
        requires
            vm_sound(code_view(old(self).program@), input@),
            vm_halts(code_view(old(self).program@), input@),
        ensures
            final(self).program@ == old(self).program@,
            final(self).text@ == input@,
            final(self).stack@.len() == 1,
            ({
                let code = code_view(old(self).program@);
                match r {
                    Some(cn) => exists|m: nat|
                        {
                            let s = #[trigger] vm_run(code, input@, vm_init(), m);
                            &&& vm_success(code, s)
                            &&& s.i == cn.0 as int
                            &&& s.caps == caps_view(final(self).captures@)
                        },
                    None => exists|m: nat|
                        vm_failure(#[trigger] vm_run(code, input@, vm_init(), m)),
                }
            }),
    {
        match self.run(input) {
            Ok(r) => r,
            Err(_) => {
                proof {
                    let m = choose|m: nat|
                        vm_fault(
                            code_view(old(self).program@),
                            #[trigger] vm_run(
                                code_view(old(self).program@),
                                input@,
                                vm_init(),
                                m,
                            ),
                        );
                    assert(false);
                }
                None
            },
        }
    }
}

} // verus!
