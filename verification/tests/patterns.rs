//! Patterns compiled and matched end to end.

use pegvm::ast::{alt, dot, lit, many, not, opt, seq3, sp, some, mk_peg_grammar};
use pegvm::ast::{Ast, Repeater, FLAG_NEGATED, FLAG_NOCASE, FLAG_NORMAL};
use pegvm::capture::CapKind;
use pegvm::code::{CharNum, Opcode};
use pegvm::compile::{CompileError, Program};
use pegvm::vm::Vm;

fn run(p: &Program, input: &str) -> Option<usize> {
    let mut vm = Vm::new(p.insts.clone());
    vm.do_match(input).map(|n| n.0)
}

#[test]
fn literal_matches_itself() {
    let p = Program::new(lit("hello")).unwrap();
    assert_eq!(run(&p, "hello"), Some(5));
    let mut vm = Vm::new(p.insts.clone());
    vm.do_match("hello");
    assert!(vm.captures.is_empty());
}

#[test]
fn literal_compiles_to_one_char_instruction_each() {
    let p = Program::new(lit("ab")).unwrap();
    assert_eq!(
        p.insts,
        vec![
            Opcode::IChar('a', FLAG_NORMAL),
            Opcode::IChar('b', FLAG_NORMAL),
            Opcode::IEnd,
        ]
    );
}

#[test]
fn zero_or_one_never_fails() {
    let p = Program::new(opt(lit("a"))).unwrap();
    assert_eq!(run(&p, "b"), Some(0));
    assert_eq!(run(&p, ""), Some(0));
    assert_eq!(run(&p, "a"), Some(1));
}

#[test]
fn ordered_choice_is_left_biased() {
    let first = Ast::Cap(1, None, Box::new(lit("ab")));
    let second = Ast::Cap(2, None, Box::new(lit("ab")));
    let p = Program::new(alt(first, second)).unwrap();
    let mut vm = Vm::new(p.insts.clone());
    assert_eq!(vm.do_match("ab"), Some(CharNum(2)));
    assert_eq!(vm.captures.len(), 2);
    assert_eq!(vm.captures[0].idx, 1);
    assert_eq!(vm.captures[1].idx, 1);
}

#[test]
fn empty_bodied_star_terminates() {
    let p = Program::new(many(lit(""))).unwrap();
    assert_eq!(run(&p, "xyz"), Some(0));
    assert_eq!(run(&p, ""), Some(0));
}

#[test]
fn negative_lookahead_consumes_nothing() {
    let p = Program::new(not(lit("a"))).unwrap();
    assert_eq!(run(&p, "b"), Some(0));
    assert_eq!(run(&p, "a"), None);
}

#[test]
fn positive_lookahead_consumes_nothing_on_success() {
    let p = Program::new(Ast::And(Box::new(lit("a")))).unwrap();
    assert_eq!(run(&p, "ab"), Some(0));
    assert_eq!(run(&p, "b"), None);
}

#[test]
fn capture_round_trip() {
    let p = Program::new(Ast::Cap(0, None, Box::new(lit("ab")))).unwrap();
    let mut vm = Vm::new(p.insts.clone());
    assert_eq!(vm.do_match("ab"), Some(CharNum(2)));
    assert_eq!(vm.captures.len(), 2);
    assert_eq!(vm.captures[0].s, 0);
    assert_eq!(vm.captures[0].kind, CapKind::Cposition);
    assert_eq!(vm.captures[0].idx, 0);
    assert_eq!(vm.captures[0].siz, 0);
    assert_eq!(vm.captures[1].s, 2);
    assert_eq!(vm.captures[1].kind, CapKind::Cclose);
    assert_eq!(vm.captures[1].idx, 0);
    assert_eq!(vm.captures[1].siz, 1);
}

#[test]
fn right_recursive_grammar() {
    // A <- "a" A / "a"
    let body = alt(pegvm::ast::seq(lit("a"), Ast::Ref(String::from("A"))), lit("a"));
    let g = Ast::Grammar(vec![body], vec![String::from("A")]);
    let p = Program::new(g).unwrap();
    assert_eq!(run(&p, "aaa"), Some(3));
    assert_eq!(run(&p, ""), None);
}

#[test]
fn digits_in_parentheses() {
    let digits = Ast::Rep(
        Box::new(Ast::Cls(vec![('0', '9')], FLAG_NORMAL)),
        Repeater::OneMore,
    );
    let p = Program::new(seq3(lit("("), digits, lit(")"))).unwrap();
    assert_eq!(run(&p, "(42)"), Some(4));
    assert_eq!(run(&p, "()"), None);
}

#[test]
fn negated_class_matches_outside_its_ranges() {
    let p = Program::new(Ast::Cls(vec![('0', '9')], FLAG_NEGATED)).unwrap();
    assert_eq!(run(&p, "x"), Some(1));
    assert_eq!(run(&p, "5"), None);
}

#[test]
fn dot_and_repetitions() {
    let p = Program::new(some(dot())).unwrap();
    assert_eq!(run(&p, "abc"), Some(3));
    assert_eq!(run(&p, ""), None);
    let p = Program::new(many(lit("ab"))).unwrap();
    assert_eq!(run(&p, "ababx"), Some(4));
    assert_eq!(run(&p, "x"), Some(0));
}

#[test]
fn unresolved_rule_is_a_compile_error() {
    let r = Program::new(Ast::Ref(String::from("missing")));
    assert!(matches!(r, Err(CompileError::UnresolvedRule)));
    // A reference outside the grammar that defines it is unresolved too.
    let g = Ast::Grammar(vec![lit("a")], vec![String::from("A")]);
    let r = Program::new(pegvm::ast::seq(g, Ast::Ref(String::from("A"))));
    assert!(matches!(r, Err(CompileError::UnresolvedRule)));
}

#[test]
fn malformed_grammar_is_a_compile_error() {
    let g = Ast::Grammar(vec![lit("a")], vec![]);
    assert!(matches!(Program::new(g), Err(CompileError::MalformedGrammar)));
    let g = Ast::Grammar(vec![], vec![]);
    assert!(matches!(Program::new(g), Err(CompileError::MalformedGrammar)));
}

#[test]
fn whitespace_helper_skips_blanks() {
    let p = Program::new(sp()).unwrap();
    assert_eq!(run(&p, " \t\n x"), Some(4));
    assert_eq!(run(&p, "x"), Some(0));
}

#[test]
fn case_flag_is_recorded_but_matching_is_exact() {
    let p = Program::new(Ast::Lit(String::from("A"), FLAG_NOCASE)).unwrap();
    assert_eq!(p.insts[0], Opcode::IChar('A', FLAG_NOCASE));
    assert_eq!(run(&p, "A"), Some(1));
    assert_eq!(run(&p, "a"), None);
}

#[test]
fn choice_falls_through_to_later_alternatives_in_order() {
    let p = Program::new(pegvm::ast::alt3(lit("aa"), lit("ab"), lit("b"))).unwrap();
    assert_eq!(run(&p, "aa"), Some(2));
    assert_eq!(run(&p, "ab"), Some(2));
    assert_eq!(run(&p, "b"), Some(1));
    assert_eq!(run(&p, "c"), None);
}

#[test]
fn bootstrap_grammar_compiles_and_matches() {
    let p = Program::new(mk_peg_grammar()).unwrap();
    assert_eq!(run(&p, "x <- 'a'"), Some(8));
    assert_eq!(run(&p, "'abc'"), Some(5));
}
