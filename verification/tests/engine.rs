//! The virtual machine run on hand-built programs.

use pegvm::ast::FLAG_NORMAL;
use pegvm::code::{CharNum, Opcode};
use pegvm::vm::{Vm, VmError};

#[test]
fn t1() {
    let code = vec![
        Opcode::IChar('a', FLAG_NORMAL),
        Opcode::IChar('n', FLAG_NORMAL),
        Opcode::IChar('a', FLAG_NORMAL),
        Opcode::IEnd,
    ];
    let mut vm = Vm::new(code);
    let result = vm.do_match("ana");
    assert!(result.unwrap() == CharNum(3));
}

#[test]
fn char_mismatch_fails() {
    let code = vec![Opcode::IChar('a', FLAG_NORMAL), Opcode::IEnd];
    let mut vm = Vm::new(code);
    assert_eq!(vm.do_match("b"), None);
    assert_eq!(vm.do_match(""), None);
    assert_eq!(vm.do_match("a"), Some(CharNum(1)));
}

#[test]
fn empty_program_matches_nothing_consumed() {
    let mut vm = Vm::new(vec![]);
    assert_eq!(vm.run(""), Ok(Some(CharNum(0))));
    assert_eq!(vm.run("xyz"), Ok(Some(CharNum(0))));
}

#[test]
fn stack_is_sentinel_only_after_either_outcome() {
    let code = vec![Opcode::IChar('a', FLAG_NORMAL), Opcode::IEnd];
    let mut vm = Vm::new(code);
    assert_eq!(vm.run("a"), Ok(Some(CharNum(1))));
    assert_eq!(vm.stack.len(), 1);
    assert_eq!(vm.run("b"), Ok(None));
    assert_eq!(vm.stack.len(), 1);
}

#[test]
fn pending_calls_is_an_error_not_a_failure() {
    let code = vec![Opcode::ICall(1), Opcode::IEnd];
    let mut vm = Vm::new(code);
    assert_eq!(vm.run(""), Err(VmError::PendingCalls));
}

#[test]
fn return_without_caller_is_an_error() {
    let code = vec![Opcode::IRet, Opcode::IEnd];
    let mut vm = Vm::new(code);
    assert_eq!(vm.run(""), Err(VmError::ExpectedReturn));
}

#[test]
fn commit_without_choice_point_is_an_error() {
    let code = vec![Opcode::ICommit(1), Opcode::IEnd];
    let mut vm = Vm::new(code);
    assert_eq!(vm.run(""), Err(VmError::ExpectedAlternate));
}

#[test]
fn jump_outside_program_is_an_error() {
    let code = vec![Opcode::IJmp(-5), Opcode::IEnd];
    let mut vm = Vm::new(code);
    assert_eq!(vm.run(""), Err(VmError::BadAddress));
    let code = vec![Opcode::IJmp(7), Opcode::IEnd];
    let mut vm = Vm::new(code);
    assert_eq!(vm.run(""), Err(VmError::BadAddress));
}

#[test]
fn choice_and_fail_backtrack() {
    // Try 'a'; on failure resume past the commit and match 'b'.
    let code = vec![
        Opcode::IChoice(3),
        Opcode::IChar('a', FLAG_NORMAL),
        Opcode::ICommit(2),
        Opcode::IChar('b', FLAG_NORMAL),
        Opcode::IEnd,
    ];
    let mut vm = Vm::new(code);
    assert_eq!(vm.run("a"), Ok(Some(CharNum(1))));
    assert_eq!(vm.run("b"), Ok(Some(CharNum(1))));
    assert_eq!(vm.run("c"), Ok(None));
}
