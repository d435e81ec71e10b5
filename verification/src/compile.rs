//! The compiler: one walk over the pattern tree emits a flat instruction
//! sequence, with every control transfer a signed offset relative to the
//! instruction that carries it.
//!
//! Grammars are compiled in two passes: the first assigns each rule a code
//! address from the rule bodies' sizes, the second emits the bodies and
//! resolves every call against that table.  The ghost functions here state
//! exactly what is emitted; [`Program::new`] is proved to produce it.

use vstd::prelude::*;
use vstd::string::StrSliceExecFns;
use crate::ast::{alt_fold, ast_view, cat_fold, lemma_views_of, views_of, Ast, SpecAst};
use crate::capture::CapKind;
use crate::code::{code_view, Opcode, SpecOp};

verus! {

/// The largest code length a program may have.  Offsets into a program of
/// this size fit comfortably in their operand fields on every platform.
pub const MAX_CODE: usize = 0x7fff_ffff;

/// Why a pattern cannot be compiled.
#[derive(Debug, PartialEq, Eq, Structural, Clone, Copy)]
pub enum CompileError {
    /// A grammar node whose rule-name and rule-body lists disagree in
    /// length, or with no rules at all.
    MalformedGrammar,
    /// A rule reference that no enclosing grammar defines.
    UnresolvedRule,
    /// The emitted code would exceed [`MAX_CODE`] instructions.
    TooLarge,
}

/// A ghost rule table: rule names beside the absolute addresses of their
/// compiled bodies, looked up front to back.
pub type RuleAddrs = Seq<(Seq<char>, int)>;

/// First-match lookup of a rule name in a table.
pub open spec fn lookup(env: RuleAddrs, nm: Seq<char>) -> Option<int>
    decreases env.len(),
{
    if env.len() == 0 {
        None
    } else if env[0].0 == nm {
        Some(env[0].1)
    } else {
        lookup(env.drop_first(), nm)
    }
}

/// The names of a rule table, in order.
pub open spec fn names_of(env: RuleAddrs) -> Seq<Seq<char>> {
    env.map_values(|p: (Seq<char>, int)| p.0)
}

/// Every address of a rule table lies inside a program of legal size.
pub open spec fn env_ok(env: RuleAddrs) -> bool {
    forall|k: int| 0 <= k < env.len() ==> 0 <= (#[trigger] env[k]).1 <= MAX_CODE
}

/// How many instructions a core expression compiles to.
pub open spec fn code_len(a: SpecAst) -> nat
    decreases a, 1int,
{
    match a {
        SpecAst::Never => 1,
        SpecAst::Empty => 0,
        SpecAst::Lit(s, _) => s.len(),
        SpecAst::Dot(_) => 1,
        SpecAst::Cls(_, _) => 1,
        SpecAst::Cat(x, y) => code_len(*x) + code_len(*y),
        SpecAst::Choice(x, y) => code_len(*x) + 2 + code_len(*y),
        SpecAst::Star(x) => code_len(*x) + 2,
        SpecAst::Not(x) => code_len(*x) + 3,
        SpecAst::Cap(_, x) => code_len(*x) + 2,
        SpecAst::Ref(_) => 1,
        SpecAst::Grammar(bs, _) => 2 + rules_len(bs),
    }
}

/// The code length of a run of grammar rules, each body followed by its
/// return instruction.
pub open spec fn rules_len(bs: Seq<SpecAst>) -> nat
    decreases bs, 0int,
{
    if bs.len() == 0 {
        0
    } else {
        code_len(bs[0]) + 1 + rules_len(bs.drop_first())
    }
}

/// The code length of the first `k` rules of a grammar.
pub open spec fn rules_len_prefix(bs: Seq<SpecAst>, k: int) -> nat
    decreases k,
{
    if k <= 0 {
        0
    } else {
        rules_len_prefix(bs, k - 1) + code_len(bs[k - 1]) + 1
    }
}

/// The address of rule `k` of a grammar compiled at `at`: past the entry
/// call and jump, then past the earlier rules.
pub open spec fn rule_start(bs: Seq<SpecAst>, at: int, k: int) -> int {
    at + 2 + rules_len_prefix(bs, k)
}

/// The rule table of a grammar compiled at `at`.
pub open spec fn rule_addrs(bs: Seq<SpecAst>, ns: Seq<Seq<char>>, at: int) -> RuleAddrs {
    Seq::new(ns.len(), |k: int| (ns[k], rule_start(bs, at, k)))
}

/// Structural soundness of grammar nodes: names and bodies in equal number,
/// at least one rule, recursively.
pub open spec fn shape_ok(a: SpecAst) -> bool
    decreases a, 1int,
{
    match a {
        SpecAst::Cat(x, y) => shape_ok(*x) && shape_ok(*y),
        SpecAst::Choice(x, y) => shape_ok(*x) && shape_ok(*y),
        SpecAst::Star(x) => shape_ok(*x),
        SpecAst::Not(x) => shape_ok(*x),
        SpecAst::Cap(_, x) => shape_ok(*x),
        SpecAst::Grammar(bs, ns) => bs.len() == ns.len() && bs.len() >= 1 && shapes_list(bs),
        _ => true,
    }
}

/// [`shape_ok`] of every expression of a list.
pub open spec fn shapes_list(bs: Seq<SpecAst>) -> bool
    decreases bs, 0int,
{
    bs.len() == 0 || (shape_ok(bs[0]) && shapes_list(bs.drop_first()))
}

/// Every rule reference resolves: against the enclosing grammar's names,
/// an inner grammar starting its scope afresh.
pub open spec fn resolves(a: SpecAst, ns: Seq<Seq<char>>) -> bool
    decreases a, 1int,
{
    match a {
        SpecAst::Cat(x, y) => resolves(*x, ns) && resolves(*y, ns),
        SpecAst::Choice(x, y) => resolves(*x, ns) && resolves(*y, ns),
        SpecAst::Star(x) => resolves(*x, ns),
        SpecAst::Not(x) => resolves(*x, ns),
        SpecAst::Cap(_, x) => resolves(*x, ns),
        SpecAst::Ref(nm) => ns.contains(nm),
        SpecAst::Grammar(bs, ns2) => resolves_list(bs, ns2),
        _ => true,
    }
}

/// [`resolves`] of every expression of a list.
pub open spec fn resolves_list(bs: Seq<SpecAst>, ns: Seq<Seq<char>>) -> bool
    decreases bs, 0int,
{
    bs.len() == 0 || (resolves(bs[0], ns) && resolves_list(bs.drop_first(), ns))
}

/// Identity on characters.  Drawing a character out of a sequence and
/// straight into a datatype constructor loses its typing invariant in the
/// encoding; passing it through a function application restores it.
pub open spec fn chr(c: char) -> char {
    c
}

/// The instructions of a literal: one match-character instruction per
/// character, in order.
pub open spec fn lit_ops(s: Seq<char>, f: crate::ast::Flags) -> Seq<SpecOp>
    decreases s.len(),
{
    if s.len() == 0 {
        Seq::empty()
    } else {
        seq![SpecOp::Char(chr(s[0]), f)] + lit_ops(s.drop_first(), f)
    }
}

/// What [`lit_ops`] holds: a match-character instruction for each character.
pub proof fn lemma_lit_ops(s: Seq<char>, f: crate::ast::Flags)
    ensures
        lit_ops(s, f).len() == s.len(),
        forall|i: int| 0 <= i < s.len() ==> lit_ops(s, f)[i] == SpecOp::Char(s[i], f),
    decreases s.len(),
{
    if s.len() > 0 {
        lemma_lit_ops(s.drop_first(), f);
    }
}

/// The instructions a core expression compiles to when placed at absolute
/// address `at` under the rule table `env`.  Only rule calls read `at` and
/// `env`; everything else is position-independent.
pub open spec fn emit(a: SpecAst, at: int, env: RuleAddrs) -> Seq<SpecOp>
    decreases a, 1int,
{
    match a {
        SpecAst::Never => seq![SpecOp::Fail],
        SpecAst::Empty => Seq::empty(),
        SpecAst::Lit(s, f) => lit_ops(s, f),
        SpecAst::Dot(f) => seq![SpecOp::Any(f)],
        SpecAst::Cls(rs, f) => seq![SpecOp::Cls(rs, f)],
        SpecAst::Cat(x, y) => emit(*x, at, env) + emit(*y, at + code_len(*x), env),
        SpecAst::Choice(x, y) => seq![SpecOp::Choice(code_len(*x) + 2 as int)] + emit(*x, at + 1, env)
            + seq![SpecOp::Commit(code_len(*y) + 1 as int)] + emit(*y, at + 2 + code_len(*x), env),
        SpecAst::Star(x) => seq![SpecOp::Choice(code_len(*x) + 2 as int)] + emit(*x, at + 1, env)
            + seq![SpecOp::PartialCommit(-(code_len(*x) as int))],
        SpecAst::Not(x) => seq![SpecOp::Choice(code_len(*x) + 3 as int)] + emit(*x, at + 1, env)
            + seq![SpecOp::Commit(1)] + seq![SpecOp::Fail],
        SpecAst::Cap(n, x) => seq![SpecOp::FullCapture(CapKind::Cposition, n)] + emit(
            *x,
            at + 1,
            env,
        ) + seq![SpecOp::FullCapture(CapKind::Cclose, n)],
        SpecAst::Ref(nm) => seq![
            SpecOp::Call(
                match lookup(env, nm) {
                    Some(ad) => ad - at,
                    None => 0,
                },
            ),
        ],
        SpecAst::Grammar(bs, ns) => seq![SpecOp::Call(2)] + seq![
            SpecOp::Jmp(1 + rules_len(bs) as int),
        ] + emit_rules(bs, at + 2, rule_addrs(bs, ns, at)),
    }
}

/// The instructions of a run of grammar rules: each body, then its return.
pub open spec fn emit_rules(bs: Seq<SpecAst>, pos: int, env: RuleAddrs) -> Seq<SpecOp>
    decreases bs, 0int,
{
    if bs.len() == 0 {
        Seq::empty()
    } else {
        emit(bs[0], pos, env) + seq![SpecOp::Ret] + emit_rules(
            bs.drop_first(),
            pos + code_len(bs[0]) + 1,
            env,
        )
    }
}

/// Why a pattern is refused, or nothing where it compiles: grammar shape is
/// checked first, then rule resolution, then the size of the code.
pub open spec fn compile_err(a: SpecAst) -> Option<CompileError> {
    if !shape_ok(a) {
        Some(CompileError::MalformedGrammar)
    } else if !resolves(a, Seq::empty()) {
        Some(CompileError::UnresolvedRule)
    } else if code_len(a) + 1 > MAX_CODE {
        Some(CompileError::TooLarge)
    } else {
        None
    }
}

/// The whole program a pattern compiles to: its code, then the end
/// instruction.
pub open spec fn compiled(a: SpecAst) -> Seq<SpecOp> {
    emit(a, 0, Seq::empty()).push(SpecOp::End)
}

/// The length of what [`emit`] emits is [`code_len`].
pub proof fn lemma_emit_len(a: SpecAst, at: int, env: RuleAddrs)
    ensures
        emit(a, at, env).len() == code_len(a),
    decreases a, 1int,
{
    match a {
        SpecAst::Cat(x, y) => {
            lemma_emit_len(*x, at, env);
            lemma_emit_len(*y, at + code_len(*x), env);
            assert(emit(a, at, env) == emit(*x, at, env) + emit(*y, at + code_len(*x), env));
            assert(emit(a, at, env).len() == code_len(a));
        },
        SpecAst::Choice(x, y) => {
            lemma_emit_len(*x, at + 1, env);
            lemma_emit_len(*y, at + 2 + code_len(*x), env);
            assert(emit(a, at, env).len() == code_len(a));
        },
        SpecAst::Star(x) => {
            lemma_emit_len(*x, at + 1, env);
            assert(emit(a, at, env).len() == code_len(a));
        },
        SpecAst::Not(x) => {
            lemma_emit_len(*x, at + 1, env);
            assert(emit(a, at, env).len() == code_len(a));
        },
        SpecAst::Cap(_, x) => {
            lemma_emit_len(*x, at + 1, env);
            assert(emit(a, at, env).len() == code_len(a));
        },
        SpecAst::Grammar(bs, ns) => {
            lemma_emit_rules_len(bs, at + 2, rule_addrs(bs, ns, at));
            assert(emit(a, at, env).len() == code_len(a));
        },
        SpecAst::Never => {
            assert(emit(a, at, env).len() == code_len(a));
        },
        SpecAst::Empty => {
            assert(emit(a, at, env).len() == code_len(a));
        },
        SpecAst::Lit(s, f) => {
            lemma_lit_ops(s, f);
        },
        SpecAst::Dot(_) => {
            assert(emit(a, at, env).len() == code_len(a));
        },
        SpecAst::Cls(_, _) => {
            assert(emit(a, at, env).len() == code_len(a));
        },
        SpecAst::Ref(nm) => {
            assert(emit(a, at, env).len() == code_len(a));
        },
    }
}

/// The length of what [`emit_rules`] emits is [`rules_len`].
pub proof fn lemma_emit_rules_len(bs: Seq<SpecAst>, pos: int, env: RuleAddrs)
    ensures
        emit_rules(bs, pos, env).len() == rules_len(bs),
    decreases bs, 0int,
{
    if bs.len() > 0 {
        lemma_emit_len(bs[0], pos, env);
        lemma_emit_rules_len(bs.drop_first(), pos + code_len(bs[0]) + 1, env);
    }
}

/// The code length of a pattern, or nothing where it exceeds [`MAX_CODE`].
fn code_size(a: &Ast) -> (r: Option<usize>)
    ensures
        match r {
            Some(n) => n == code_len(a@) && n <= MAX_CODE,
            None => code_len(a@) > MAX_CODE,
        },
    decreases a, 1int,
{
    match a {
        Ast::Nil => Some(0),
        Ast::Lit(s, _) => {
            let n = s.as_str().unicode_len();
            if n > MAX_CODE {
                None
            } else {
                Some(n)
            }
        },
        Ast::Dot(_) => Some(1),
        Ast::Cls(_, _) => Some(1),
        Ast::Cat(es) => {
            proof {
                assert(es@.skip(0) =~= es@);
            }
            code_size_cat(es, 0)
        },
        Ast::Alt(es) => {
            proof {
                assert(es@.skip(0) =~= es@);
            }
            code_size_alt(es, 0)
        },
        Ast::Rep(e, rep) => {
            let n = match code_size(e) {
                Some(n) => n,
                None => {
                    return None;
                },
            };
            let ghost b = ast_view(*(*e));
            match rep {
                crate::ast::Repeater::ZeroOne => {
                    proof {
                        assert(code_len(SpecAst::Empty) == 0);
                        assert(code_len(a@) == code_len(b) + 2);
                    }
                    if n > MAX_CODE - 2 {
                        None
                    } else {
                        Some(n + 2)
                    }
                },
                crate::ast::Repeater::ZeroMore => {
                    if n > MAX_CODE - 2 {
                        None
                    } else {
                        Some(n + 2)
                    }
                },
                crate::ast::Repeater::OneMore => {
                    proof {
                        assert(code_len(SpecAst::Star(Box::new(b))) == code_len(b) + 2);
                        assert(code_len(a@) == code_len(b) + code_len(b) + 2);
                    }
                    if n > (MAX_CODE - 2) / 2 {
                        None
                    } else {
                        Some(n + n + 2)
                    }
                },
            }
        },
        Ast::And(e) => {
            proof {
                let b = ast_view(*(*e));
                assert(code_len(SpecAst::Not(Box::new(b))) == code_len(b) + 3);
                assert(code_len(a@) == code_len(b) + 6);
            }
            match code_size(e) {
                Some(n) => if n > MAX_CODE - 6 {
                    None
                } else {
                    Some(n + 6)
                },
                None => None,
            }
        },
        Ast::Not(e) => {
            match code_size(e) {
                Some(n) => if n > MAX_CODE - 3 {
                    None
                } else {
                    Some(n + 3)
                },
                None => None,
            }
        },
        Ast::Cap(_, _, e) => {
            match code_size(e) {
                Some(n) => if n > MAX_CODE - 2 {
                    None
                } else {
                    Some(n + 2)
                },
                None => None,
            }
        },
        Ast::Ref(_) => Some(1),
        Ast::Grammar(bodies, _) => {
            proof {
                assert(views_of(bodies@).skip(0) =~= views_of(bodies@));
            }
            match code_size_rules(bodies, 0) {
                Some(n) => if n > MAX_CODE - 2 {
                    None
                } else {
                    Some(n + 2)
                },
                None => None,
            }
        },
    }
}

/// The code length of the concatenation of `es[k..]`.
fn code_size_cat(es: &Vec<Ast>, k: usize) -> (r: Option<usize>)
    requires
        k <= es@.len(),
    ensures
        match r {
            Some(n) => n == code_len(cat_fold(es@.skip(k as int))) && n <= MAX_CODE,
            None => code_len(cat_fold(es@.skip(k as int))) > MAX_CODE,
        },
    decreases es, es@.len() - k,
{
    let ghost tail = es@.skip(k as int);
    if k == es.len() {
        proof {
            assert(tail =~= Seq::<Ast>::empty());
        }
        Some(0)
    } else if k == es.len() - 1 {
        proof {
            assert(tail[0] == es@[k as int]);
        }
        code_size(&es[k])
    } else {
        proof {
            assert(tail[0] == es@[k as int]);
            assert(tail.drop_first() =~= es@.skip(k + 1 as int));
        }
        let n1 = match code_size(&es[k]) {
            Some(n) => n,
            None => {
                return None;
            },
        };
        let n2 = match code_size_cat(es, k + 1) {
            Some(n) => n,
            None => {
                return None;
            },
        };
        if n1 > MAX_CODE - n2 {
            None
        } else {
            Some(n1 + n2)
        }
    }
}

/// The code length of the ordered choice of `es[k..]`.
fn code_size_alt(es: &Vec<Ast>, k: usize) -> (r: Option<usize>)
    requires
        k <= es@.len(),
    ensures
        match r {
            Some(n) => n == code_len(alt_fold(es@.skip(k as int))) && n <= MAX_CODE,
            None => code_len(alt_fold(es@.skip(k as int))) > MAX_CODE,
        },
    decreases es, es@.len() - k,
{
    let ghost tail = es@.skip(k as int);
    if k == es.len() {
        proof {
            assert(tail =~= Seq::<Ast>::empty());
        }
        Some(1)
    } else if k == es.len() - 1 {
        proof {
            assert(tail[0] == es@[k as int]);
        }
        code_size(&es[k])
    } else {
        proof {
            assert(tail[0] == es@[k as int]);
            assert(tail.drop_first() =~= es@.skip(k + 1 as int));
        }
        let n1 = match code_size(&es[k]) {
            Some(n) => n,
            None => {
                return None;
            },
        };
        let n2 = match code_size_alt(es, k + 1) {
            Some(n) => n,
            None => {
                return None;
            },
        };
        if n1 > MAX_CODE - 2 || n1 + 2 > MAX_CODE - n2 {
            None
        } else {
            Some(n1 + 2 + n2)
        }
    }
}

/// The code length of the rule run of `es[k..]`, each body and its return.
fn code_size_rules(es: &Vec<Ast>, k: usize) -> (r: Option<usize>)
    requires
        k <= es@.len(),
    ensures
        match r {
            Some(n) => n == rules_len(views_of(es@).skip(k as int)) && n <= MAX_CODE,
            None => rules_len(views_of(es@).skip(k as int)) > MAX_CODE,
        },
    decreases es, es@.len() - k,
{
    proof {
        lemma_views_of(es@);
    }
    let ghost tail = views_of(es@).skip(k as int);
    if k == es.len() {
        proof {
            assert(tail =~= Seq::<SpecAst>::empty());
        }
        Some(0)
    } else {
        proof {
            assert(tail[0] == ast_view(es@[k as int]));
            assert(tail.drop_first() =~= views_of(es@).skip(k + 1 as int));
        }
        let n1 = match code_size(&es[k]) {
            Some(n) => n,
            None => {
                return None;
            },
        };
        let n2 = match code_size_rules(es, k + 1) {
            Some(n) => n,
            None => {
                return None;
            },
        };
        if n1 > MAX_CODE - 1 || n1 + 1 > MAX_CODE - n2 {
            None
        } else {
            Some(n1 + 1 + n2)
        }
    }
}

/// A name is found in a table exactly when it is one of the table's names.
pub proof fn lemma_lookup_names(env: RuleAddrs, nm: Seq<char>)
    ensures
        lookup(env, nm) is Some <==> names_of(env).contains(nm),
    decreases env.len(),
{
    if env.len() > 0 {
        lemma_lookup_names(env.drop_first(), nm);
        assert(names_of(env.drop_first()) =~= names_of(env).drop_first());
        if env[0].0 == nm {
            assert(names_of(env)[0] == nm);
        } else {
            if names_of(env).contains(nm) {
                let j = choose|j: int| 0 <= j < names_of(env).len() && names_of(env)[j] == nm;
                assert(names_of(env).drop_first()[j - 1] == nm);
            }
            if names_of(env).drop_first().contains(nm) {
                let j = choose|j: int|
                    0 <= j < names_of(env).drop_first().len() && names_of(env).drop_first()[j]
                        == nm;
                assert(names_of(env)[j + 1] == nm);
            }
        }
    }
}

/// A found address lies inside a legal program when the table does.
pub proof fn lemma_lookup_ok(env: RuleAddrs, nm: Seq<char>)
    requires
        env_ok(env),
        lookup(env, nm) is Some,
    ensures
        0 <= lookup(env, nm).unwrap() <= MAX_CODE,
    decreases env.len(),
{
    if env.len() > 0 && env[0].0 != nm {
        assert(env_ok(env.drop_first())) by {
            assert(forall|k: int|
                0 <= k < env.drop_first().len() ==> (#[trigger] env.drop_first()[k]) == env[k + 1]);
        }
        lemma_lookup_ok(env.drop_first(), nm);
    }
}

/// Splitting a rule run at `k`: the first `k` rules' code and the rest.
pub proof fn lemma_rules_split(bs: Seq<SpecAst>, k: int)
    requires
        0 <= k <= bs.len(),
    ensures
        rules_len_prefix(bs, k) + rules_len(bs.skip(k)) == rules_len(bs),
    decreases k,
{
    if k == 0 {
        assert(bs.skip(0) =~= bs);
    } else {
        lemma_rules_split(bs, k - 1);
        assert(bs.skip(k - 1).drop_first() =~= bs.skip(k));
        assert(bs.skip(k - 1)[0] == bs[k - 1]);
    }
}

/// The names of a grammar's rule table are the grammar's rule names.
pub proof fn lemma_rule_addrs_names(bs: Seq<SpecAst>, ns: Seq<Seq<char>>, at: int)
    ensures
        names_of(rule_addrs(bs, ns, at)) == ns,
{
    assert(names_of(rule_addrs(bs, ns, at)) =~= ns);
}

/// The ghost form of an executable rule table.
pub open spec fn env_view(env: Seq<(String, usize)>) -> RuleAddrs {
    env.map_values(|p: (String, usize)| (p.0@, p.1 as int))
}

/// First-match lookup in an executable rule table.
fn env_find(env: &Vec<(String, usize)>, name: &String) -> (r: Option<usize>)
    ensures
        match r {
            Some(ad) => lookup(env_view(env@), name@) == Some(ad as int),
            None => lookup(env_view(env@), name@) is None,
        },
{
    let mut k: usize = 0;
    proof {
        assert(env_view(env@).skip(0) =~= env_view(env@));
    }
    while k < env.len()
        invariant
            k <= env@.len(),
            lookup(env_view(env@), name@) == lookup(env_view(env@).skip(k as int), name@),
        decreases env@.len() - k,
    {
        let ghost tail = env_view(env@).skip(k as int);
        proof {
            assert(tail[0] == env_view(env@)[k as int]);
            assert(tail.drop_first() =~= env_view(env@).skip(k + 1 as int));
        }
        if env[k].0 == *name {
            return Some(env[k].1);
        }
        k = k + 1;
    }
    proof {
        assert(env_view(env@).skip(k as int) =~= Seq::<(Seq<char>, int)>::empty());
    }
    None
}

/// A copy of a range list.
fn copy_ranges(rs: &Vec<(char, char)>) -> (r: Vec<(char, char)>)
    ensures
        r@ == rs@,
{
    let mut v: Vec<(char, char)> = Vec::new();
    let mut k: usize = 0;
    while k < rs.len()
        invariant
            k <= rs@.len(),
            v@ == rs@.take(k as int),
        decreases rs@.len() - k,
    {
        v.push(rs[k]);
        proof {
            assert(v@ =~= rs@.take(k + 1 as int));
        }
        k = k + 1;
    }
    proof {
        assert(rs@.take(rs@.len() as int) =~= rs@);
    }
    v
}

/// A compiled program: a flat instruction sequence, immutable thereafter
/// and reusable across any number of matches.
pub struct Program {
    /// The instruction sequence, ending in the end instruction.
    pub insts: Vec<Opcode>,
}

/// The emission state: the instructions laid down so far.
struct Compiler {
    insts: Vec<Opcode>,
}

impl Compiler {
    /// Appends the given instruction to the program.
    fn push(&mut self, x: Opcode)
        ensures
            final(self).insts@ == old(self).insts@.push(x),
            code_view(final(self).insts@) == code_view(old(self).insts@).push(x@),
    {
        let ghost g = x@;
        self.insts.push(x);
        proof {
            assert(code_view(self.insts@) =~= code_view(old(self).insts@).push(g));
        }
    }

    /// Emits the code of a pattern at the current position, under the given
    /// rule table: exactly what [`emit`] prescribes there.
    #[verifier::loop_isolation(false)]
    #[verifier::rlimit(100)]
    fn compile(&mut self, ast: &Ast, env: &Vec<(String, usize)>)
        requires
            shape_ok(ast@),
            resolves(ast@, names_of(env_view(env@))),
            env_ok(env_view(env@)),
            old(self).insts@.len() + code_len(ast@) <= MAX_CODE,
        ensures
            final(self).insts@.len() == old(self).insts@.len() + code_len(ast@),
            code_view(final(self).insts@) == code_view(old(self).insts@) + emit(
                ast@,
                old(self).insts@.len() as int,
                env_view(env@),
            ),
        decreases ast, 0int,
    {
        let ghost c0 = code_view(self.insts@);
        let ghost at = self.insts@.len() as int;
        let ghost genv = env_view(env@);
        match ast {
            Ast::Nil => {
                proof {
                    assert(code_view(self.insts@) =~= c0 + emit(ast@, at, genv));
                }
            },
            Ast::Lit(s, fl) => {
                let n = s.as_str().unicode_len();
                let base = self.insts.len();
                let mut j: usize = 0;
                while j < n
                    invariant
                        j <= n,
                        n == s@.len(),
                        base == old(self).insts@.len(),
                        base + n <= MAX_CODE,
                        self.insts@.len() == base + j,
                        forall|i: int| 0 <= i < base ==> self.insts@[i] == old(self).insts@[i],
                        forall|i: int|
                            0 <= i < j ==> (#[trigger] self.insts@[base + i])@ == SpecOp::Char(
                                s@[i],
                                *fl,
                            ),
                    decreases n - j,
                {
                    let c = s.as_str().get_char(j);
                    self.push(Opcode::IChar(c, *fl));
                    j = j + 1;
                }
                proof {
                    lemma_lit_ops(s@, *fl);
                    assert forall|i: int| base <= i < base + n implies (#[trigger] self.insts@[i])@
                        == SpecOp::Char(s@[i - base], *fl) by {
                        assert(self.insts@[base + (i - base)]@ == SpecOp::Char(s@[i - base], *fl));
                    }
                    assert(code_view(self.insts@) =~= c0 + lit_ops(s@, *fl));
                }
            },
            Ast::Dot(fl) => {
                self.push(Opcode::IAny(*fl));
                proof {
                    assert(code_view(self.insts@) =~= c0 + emit(ast@, at, genv));
                }
            },
            Ast::Cls(rs, fl) => {
                let v = copy_ranges(rs);
                self.push(Opcode::ISet(v, *fl));
                proof {
                    assert(code_view(self.insts@) =~= c0 + emit(ast@, at, genv));
                }
            },
            Ast::Cat(es) => {
                proof {
                    assert(es@.skip(0) =~= es@);
                }
                self.compile_cat(es, 0, env);
            },
            Ast::Alt(es) => {
                proof {
                    assert(es@.skip(0) =~= es@);
                }
                self.compile_alt(es, 0, env);
            },
            Ast::Rep(e, rep) => {
                let ghost b = ast_view(*(*e));
                let sz = match code_size(e) {
                    Some(szz) => szz,
                    None => {
                        proof {
                            assert(code_len(b) <= code_len(ast@));
                            assert(false);
                        }
                        0
                    },
                };
                match rep {
                    crate::ast::Repeater::ZeroOne => {
                        proof {
                            assert(code_len(SpecAst::Empty) == 0);
                            assert(emit(SpecAst::Empty, at + 2 + sz, genv) =~= Seq::<
                                SpecOp,
                            >::empty());
                        }
                        self.push(Opcode::IChoice((sz + 2) as i64));
                        self.compile(e, env);
                        self.push(Opcode::ICommit(1));
                        proof {
                            assert(code_view(self.insts@) =~= c0 + emit(ast@, at, genv));
                        }
                    },
                    crate::ast::Repeater::ZeroMore => {
                        proof {
                            assert(emit(ast@, at, genv) == seq![
                                SpecOp::Choice(code_len(b) + 2 as int),
                            ] + emit(b, at + 1, genv) + seq![
                                SpecOp::PartialCommit(-(code_len(b) as int)),
                            ]);
                        }
                        self.push(Opcode::IChoice((sz + 2) as i64));
                        self.compile(e, env);
                        self.push(Opcode::IPartialCommit(-(sz as i64)));
                        proof {
                            assert(code_view(self.insts@) =~= c0 + emit(ast@, at, genv));
                        }
                    },
                    crate::ast::Repeater::OneMore => {
                        proof {
                            assert(code_len(SpecAst::Star(Box::new(b))) == code_len(b) + 2);
                            assert(emit(SpecAst::Star(Box::new(b)), at + code_len(b), genv) == seq![
                                SpecOp::Choice(code_len(b) + 2 as int),
                            ] + emit(b, at + code_len(b) + 1, genv) + seq![
                                SpecOp::PartialCommit(-(code_len(b) as int)),
                            ]);
                            assert(emit(ast@, at, genv) == emit(b, at, genv) + emit(
                                SpecAst::Star(Box::new(b)),
                                at + code_len(b),
                                genv,
                            ));
                        }
                        self.compile(e, env);
                        self.push(Opcode::IChoice((sz + 2) as i64));
                        self.compile(e, env);
                        self.push(Opcode::IPartialCommit(-(sz as i64)));
                        proof {
                            assert(code_view(self.insts@) =~= c0 + emit(ast@, at, genv));
                        }
                    },
                }
            },
            Ast::And(e) => {
                let ghost b = ast_view(*(*e));
                let ghost nb = SpecAst::Not(Box::new(b));
                proof {
                    assert(code_len(nb) == code_len(b) + 3);
                    assert(code_len(ast@) == code_len(nb) + 3);
                    assert(shape_ok(ast@) == shape_ok(nb));
                    assert(shape_ok(nb) == shape_ok(b));
                    assert(resolves(ast@, names_of(genv)) == resolves(nb, names_of(genv)));
                    assert(resolves(nb, names_of(genv)) == resolves(b, names_of(genv)));
                    assert(emit(nb, at + 1, genv) == seq![
                        SpecOp::Choice(code_len(b) + 3 as int),
                    ] + emit(b, at + 2, genv) + seq![SpecOp::Commit(1)] + seq![SpecOp::Fail]);
                    assert(emit(ast@, at, genv) == seq![
                        SpecOp::Choice(code_len(nb) + 3 as int),
                    ] + emit(nb, at + 1, genv) + seq![SpecOp::Commit(1)] + seq![SpecOp::Fail]);
                }
                let sz = match code_size(e) {
                    Some(szz) => szz,
                    None => {
                        proof {
                            assert(false);
                        }
                        0
                    },
                };
                self.push(Opcode::IChoice((sz + 6) as i64));
                self.push(Opcode::IChoice((sz + 3) as i64));
                self.compile(e, env);
                self.push(Opcode::ICommit(1));
                self.push(Opcode::IFail);
                self.push(Opcode::ICommit(1));
                self.push(Opcode::IFail);
                proof {
                    assert(code_view(self.insts@) =~= c0 + emit(ast@, at, genv));
                }
            },
            Ast::Not(e) => {
                let sz = match code_size(e) {
                    Some(szz) => szz,
                    None => {
                        proof {
                            assert(false);
                        }
                        0
                    },
                };
                self.push(Opcode::IChoice((sz + 3) as i64));
                self.compile(e, env);
                self.push(Opcode::ICommit(1));
                self.push(Opcode::IFail);
                proof {
                    assert(code_view(self.insts@) =~= c0 + emit(ast@, at, genv));
                }
            },
            Ast::Cap(n, _name, e) => {
                self.push(Opcode::IFullCapture(CapKind::Cposition, *n));
                self.compile(e, env);
                self.push(Opcode::IFullCapture(CapKind::Cclose, *n));
                proof {
                    assert(code_view(self.insts@) =~= c0 + emit(ast@, at, genv));
                }
            },
            Ast::Ref(name) => {
                match env_find(env, name) {
                    Some(ad) => {
                        proof {
                            lemma_lookup_ok(genv, name@);
                        }
                        let here = self.insts.len();
                        let off = ad as i64 - here as i64;
                        self.push(Opcode::ICall(off));
                        proof {
                            assert(code_view(self.insts@) =~= c0 + emit(ast@, at, genv));
                        }
                    },
                    None => {
                        proof {
                            lemma_lookup_names(genv, name@);
                            assert(false);
                        }
                    },
                }
            },
            Ast::Grammar(bodies, names) => {
                let ghost bs = views_of(bodies@);
                let ghost ns = names@.map_values(|nm: String| nm@);
                proof {
                    lemma_views_of(bodies@);
                    assert(code_len(ast@) == 2 + rules_len(bs));
                    assert(bs.skip(0) =~= bs);
                }
                let base = self.insts.len();
                // First pass: assign each rule its address.
                let mut env2: Vec<(String, usize)> = Vec::new();
                let mut acc: usize = base + 2;
                let mut k: usize = 0;
                proof {
                    assert(rules_len_prefix(bs, 0) == 0);
                    lemma_rules_split(bs, 0);
                }
                while k < bodies.len()
                    invariant
                        k <= bodies@.len(),
                        acc == rule_start(bs, base as int, k as int),
                        acc <= MAX_CODE,
                        env2@.len() == k,
                        forall|i: int|
                            0 <= i < k ==> (#[trigger] env_view(env2@)[i]) == rule_addrs(
                                bs,
                                ns,
                                base as int,
                            )[i],
                    decreases bodies@.len() - k,
                {
                    let ghost tail = bs.skip(k as int);
                    proof {
                        assert(tail[0] == bs[k as int]);
                        assert(tail.drop_first() =~= bs.skip(k + 1 as int));
                        lemma_rules_split(bs, k as int);
                    }
                    let sz = match code_size(&bodies[k]) {
                        Some(szz) => szz,
                        None => {
                            proof {
                                assert(false);
                            }
                            0
                        },
                    };
                    let ghost prev = env2@;
                    env2.push((names[k].clone(), acc));
                    proof {
                        assert forall|i: int| 0 <= i < k + 1 implies (#[trigger] env_view(
                            env2@,
                        )[i]) == rule_addrs(bs, ns, base as int)[i] by {
                            if i < k {
                                assert(env2@[i] == prev[i]);
                                assert(env_view(prev)[i] == rule_addrs(bs, ns, base as int)[i]);
                            } else {
                                assert(env2@[i].1 == acc);
                                assert(env2@[i].0@ == names@[i]@);
                                assert(ns[i] == names@[i]@);
                            }
                        }
                        lemma_rules_split(bs, k + 1 as int);
                        assert(rules_len_prefix(bs, k + 1 as int) == rules_len_prefix(bs, k as int)
                            + code_len(bs[k as int]) + 1);
                    }
                    acc = acc + (sz + 1);
                    k = k + 1;
                }
                proof {
                    assert(bs.skip(bodies@.len() as int) =~= Seq::<SpecAst>::empty());
                    assert(env_view(env2@) =~= rule_addrs(bs, ns, base as int));
                    lemma_rule_addrs_names(bs, ns, base as int);
                }
                // Entry: call the start rule, and jump past the rules when
                // the whole grammar has matched.
                let total = acc - base;
                self.push(Opcode::ICall(2));
                self.push(Opcode::IJmp((total - 1) as i64));
                proof {
                    lemma_rules_split(bs, bs.len() as int);
                    assert(rules_len(bs.skip(bs.len() as int)) == 0);
                    assert(total - 1 == 1 + rules_len(bs));
                    assert(bs.skip(0) =~= bs);
                }
                proof {
                    match ast@ {
                        SpecAst::Grammar(gbs, gns) => {
                            assert(gbs == bs);
                            assert(gns =~= ns);
                        },
                        _ => {},
                    }
                    let renv = rule_addrs(bs, ns, base as int);
                    assert forall|i: int| 0 <= i < renv.len() implies 0 <= (#[trigger] renv[i]).1
                        <= MAX_CODE by {
                        lemma_rules_split(bs, i);
                    }
                    assert(env_ok(env_view(env2@)));
                }
                self.compile_rules(bodies, 0, &env2);
                proof {
                    assert(code_view(self.insts@) =~= c0 + emit(ast@, at, genv));
                }
            },
        }
    }

    /// Emits the concatenation of `es[k..]` at the current position.
    fn compile_cat(&mut self, es: &Vec<Ast>, k: usize, env: &Vec<(String, usize)>)
        requires
            k <= es@.len(),
            shape_ok(cat_fold(es@.skip(k as int))),
            resolves(cat_fold(es@.skip(k as int)), names_of(env_view(env@))),
            env_ok(env_view(env@)),
            old(self).insts@.len() + code_len(cat_fold(es@.skip(k as int))) <= MAX_CODE,
        ensures
            final(self).insts@.len() == old(self).insts@.len() + code_len(
                cat_fold(es@.skip(k as int)),
            ),
            code_view(final(self).insts@) == code_view(old(self).insts@) + emit(
                cat_fold(es@.skip(k as int)),
                old(self).insts@.len() as int,
                env_view(env@),
            ),
        decreases es, es@.len() - k, 0int,
    {
        let ghost c0 = code_view(self.insts@);
        let ghost at = self.insts@.len() as int;
        let ghost genv = env_view(env@);
        let ghost tail = es@.skip(k as int);
        if k == es.len() {
            proof {
                assert(tail =~= Seq::<Ast>::empty());
                assert(code_view(self.insts@) =~= c0 + emit(cat_fold(tail), at, genv));
            }
        } else if k == es.len() - 1 {
            proof {
                assert(tail[0] == es@[k as int]);
            }
            self.compile(&es[k], env);
        } else {
            proof {
                assert(tail[0] == es@[k as int]);
                assert(tail.drop_first() =~= es@.skip(k + 1 as int));
            }
            self.compile(&es[k], env);
            self.compile_cat(es, k + 1, env);
            proof {
                assert(code_view(self.insts@) =~= c0 + emit(cat_fold(tail), at, genv));
            }
        }
    }

    /// Emits the ordered choice of `es[k..]` at the current position.
    fn compile_alt(&mut self, es: &Vec<Ast>, k: usize, env: &Vec<(String, usize)>)
        requires
            k <= es@.len(),
            shape_ok(alt_fold(es@.skip(k as int))),
            resolves(alt_fold(es@.skip(k as int)), names_of(env_view(env@))),
            env_ok(env_view(env@)),
            old(self).insts@.len() + code_len(alt_fold(es@.skip(k as int))) <= MAX_CODE,
        ensures
            final(self).insts@.len() == old(self).insts@.len() + code_len(
                alt_fold(es@.skip(k as int)),
            ),
            code_view(final(self).insts@) == code_view(old(self).insts@) + emit(
                alt_fold(es@.skip(k as int)),
                old(self).insts@.len() as int,
                env_view(env@),
            ),
        decreases es, es@.len() - k, 0int,
    {
        let ghost c0 = code_view(self.insts@);
        let ghost at = self.insts@.len() as int;
        let ghost genv = env_view(env@);
        let ghost tail = es@.skip(k as int);
        if k == es.len() {
            proof {
                assert(tail =~= Seq::<Ast>::empty());
            }
            self.push(Opcode::IFail);
            proof {
                assert(code_view(self.insts@) =~= c0 + emit(alt_fold(tail), at, genv));
            }
        } else if k == es.len() - 1 {
            proof {
                assert(tail[0] == es@[k as int]);
            }
            self.compile(&es[k], env);
        } else {
            proof {
                assert(tail[0] == es@[k as int]);
                assert(tail.drop_first() =~= es@.skip(k + 1 as int));
            }
            let sz = match code_size(&es[k]) {
                Some(szz) => szz,
                None => {
                    proof {
                        assert(false);
                    }
                    0
                },
            };
            let rest = match code_size_alt(es, k + 1) {
                Some(szz) => szz,
                None => {
                    proof {
                        assert(false);
                    }
                    0
                },
            };
            self.push(Opcode::IChoice((sz + 2) as i64));
            self.compile(&es[k], env);
            self.push(Opcode::ICommit((rest + 1) as i64));
            self.compile_alt(es, k + 1, env);
            proof {
                assert(code_view(self.insts@) =~= c0 + emit(alt_fold(tail), at, genv));
            }
        }
    }

    /// Emits the rule run of `es[k..]`: each body, then its return.
    fn compile_rules(&mut self, es: &Vec<Ast>, k: usize, env: &Vec<(String, usize)>)
        requires
            k <= es@.len(),
            shapes_list(views_of(es@).skip(k as int)),
            resolves_list(views_of(es@).skip(k as int), names_of(env_view(env@))),
            env_ok(env_view(env@)),
            old(self).insts@.len() + rules_len(views_of(es@).skip(k as int)) <= MAX_CODE,
        ensures
            final(self).insts@.len() == old(self).insts@.len() + rules_len(
                views_of(es@).skip(k as int),
            ),
            code_view(final(self).insts@) == code_view(old(self).insts@) + emit_rules(
                views_of(es@).skip(k as int),
                old(self).insts@.len() as int,
                env_view(env@),
            ),
        decreases es, es@.len() - k, 1int,
    {
        let ghost c0 = code_view(self.insts@);
        let ghost at = self.insts@.len() as int;
        let ghost genv = env_view(env@);
        proof {
            lemma_views_of(es@);
        }
        let ghost tail = views_of(es@).skip(k as int);
        if k == es.len() {
            proof {
                assert(tail =~= Seq::<SpecAst>::empty());
                assert(code_view(self.insts@) =~= c0 + emit_rules(tail, at, genv));
            }
        } else {
            proof {
                assert(tail[0] == ast_view(es@[k as int]));
                assert(tail.drop_first() =~= views_of(es@).skip(k + 1 as int));
            }
            self.compile(&es[k], env);
            self.push(Opcode::IRet);
            self.compile_rules(es, k + 1, env);
            proof {
                assert(code_view(self.insts@) =~= c0 + emit_rules(tail, at, genv));
            }
        }
    }
}

impl Program {
    /// Compiles a pattern to a program: the pattern's code with the end
    /// instruction appended, exactly as [`compiled`] prescribes, or the
    /// first reason of [`compile_err`] why it cannot be.
    pub fn new(ast: Ast) -> (r: Result<Program, CompileError>)
        ensures
            match r {
                Ok(p) => compile_err(ast@) is None && code_view(p.insts@) == compiled(ast@),
                Err(e) => compile_err(ast@) == Some(e),
            },
    {
        if !shape_check(&ast) {
            return Err(CompileError::MalformedGrammar);
        }
        let none_env: Vec<(String, usize)> = Vec::new();
        proof {
            assert(env_view(none_env@) =~= Seq::<(Seq<char>, int)>::empty());
            assert(names_of(env_view(none_env@)) =~= Seq::<Seq<char>>::empty());
        }
        if !resolve_check(&ast, &none_env) {
            return Err(CompileError::UnresolvedRule);
        }
        let n = match code_size(&ast) {
            Some(n) => n,
            None => {
                return Err(CompileError::TooLarge);
            },
        };
        if n + 1 > MAX_CODE {
            return Err(CompileError::TooLarge);
        }
        proof {
            assert(env_view(none_env@) =~= Seq::<(Seq<char>, int)>::empty());
            assert(names_of(env_view(none_env@)) =~= Seq::<Seq<char>>::empty());
        }
        let mut c = Compiler { insts: Vec::with_capacity(100) };
        c.compile(&ast, &none_env);
        c.push(Opcode::IEnd);
        proof {
            assert(code_view(c.insts@) =~= Seq::<SpecOp>::empty() + emit(
                ast@,
                0,
                Seq::empty(),
            ).push(SpecOp::End));
            assert(Seq::<SpecOp>::empty() + emit(ast@, 0, Seq::empty()).push(SpecOp::End) =~= emit(
                ast@,
                0,
                Seq::empty(),
            ).push(SpecOp::End));
        }
        Ok(Program { insts: c.insts })
    }
}

/// Whether every grammar node is structurally sound.
fn shape_check(a: &Ast) -> (r: bool)
    ensures
        r == shape_ok(a@),
    decreases a, 0int,
{
    match a {
        Ast::Cat(es) => {
            proof {
                assert(es@.skip(0) =~= es@);
            }
            shape_cat_from(es, 0)
        },
        Ast::Alt(es) => {
            proof {
                assert(es@.skip(0) =~= es@);
            }
            shape_alt_from(es, 0)
        },
        Ast::Rep(e, rep) => {
            let ghost b = ast_view(*(*e));
            proof {
                assert(shape_ok(SpecAst::Empty));
                assert(shape_ok(SpecAst::Star(Box::new(b))) == shape_ok(b));
                assert(shape_ok(SpecAst::Not(Box::new(b))) == shape_ok(b));
            }
            shape_check(e)
        },
        Ast::And(e) => {
            let ghost b = ast_view(*(*e));
            proof {
                assert(shape_ok(SpecAst::Not(Box::new(b))) == shape_ok(b));
            }
            shape_check(e)
        },
        Ast::Not(e) => shape_check(e),
        Ast::Cap(_, _, e) => shape_check(e),
        Ast::Grammar(bodies, names) => {
            proof {
                lemma_views_of(bodies@);
                assert(views_of(bodies@).skip(0) =~= views_of(bodies@));
            }
            if bodies.len() != names.len() || bodies.len() == 0 {
                false
            } else {
                shape_check_rules(bodies, 0)
            }
        },
        _ => true,
    }
}

/// [`shape_ok`] of the fold of `es[k..]` as a concatenation.
fn shape_cat_from(es: &Vec<Ast>, k: usize) -> (r: bool)
    requires
        k <= es@.len(),
    ensures
        r == shape_ok(cat_fold(es@.skip(k as int))),
    decreases es, es@.len() - k,
{
    let ghost tail = es@.skip(k as int);
    if k == es.len() {
        proof {
            assert(tail =~= Seq::<Ast>::empty());
        }
        true
    } else if k == es.len() - 1 {
        proof {
            assert(tail[0] == es@[k as int]);
        }
        shape_check(&es[k])
    } else {
        proof {
            assert(tail[0] == es@[k as int]);
            assert(tail.drop_first() =~= es@.skip(k + 1 as int));
        }
        let a = shape_check(&es[k]);
        if !a {
            return false;
        }
        shape_cat_from(es, k + 1)
    }
}

/// [`shape_ok`] of the fold of `es[k..]` as an ordered choice.
fn shape_alt_from(es: &Vec<Ast>, k: usize) -> (r: bool)
    requires
        k <= es@.len(),
    ensures
        r == shape_ok(alt_fold(es@.skip(k as int))),
    decreases es, es@.len() - k,
{
    let ghost tail = es@.skip(k as int);
    if k == es.len() {
        proof {
            assert(tail =~= Seq::<Ast>::empty());
        }
        true
    } else if k == es.len() - 1 {
        proof {
            assert(tail[0] == es@[k as int]);
        }
        shape_check(&es[k])
    } else {
        proof {
            assert(tail[0] == es@[k as int]);
            assert(tail.drop_first() =~= es@.skip(k + 1 as int));
        }
        let a = shape_check(&es[k]);
        if !a {
            return false;
        }
        shape_alt_from(es, k + 1)
    }
}

/// [`shapes_list`] of the views of `es[k..]`.
fn shape_check_rules(es: &Vec<Ast>, k: usize) -> (r: bool)
    requires
        k <= es@.len(),
    ensures
        r == shapes_list(views_of(es@).skip(k as int)),
    decreases es, es@.len() - k,
{
    proof {
        lemma_views_of(es@);
    }
    let ghost tail = views_of(es@).skip(k as int);
    if k == es.len() {
        proof {
            assert(tail =~= Seq::<SpecAst>::empty());
        }
        true
    } else {
        proof {
            assert(tail[0] == ast_view(es@[k as int]));
            assert(tail.drop_first() =~= views_of(es@).skip(k + 1 as int));
        }
        let a = shape_check(&es[k]);
        if !a {
            return false;
        }
        shape_check_rules(es, k + 1)
    }
}

/// Whether every rule reference resolves against the given table's names.
fn resolve_check(a: &Ast, env: &Vec<(String, usize)>) -> (r: bool)
    ensures
        r == resolves(a@, names_of(env_view(env@))),
    decreases a, 0int,
{
    let ghost ns = names_of(env_view(env@));
    match a {
        Ast::Cat(es) => {
            proof {
                assert(es@.skip(0) =~= es@);
            }
            resolve_cat_from(es, 0, env)
        },
        Ast::Alt(es) => {
            proof {
                assert(es@.skip(0) =~= es@);
            }
            resolve_alt_from(es, 0, env)
        },
        Ast::Rep(e, _) => {
            let ghost b = ast_view(*(*e));
            proof {
                assert(resolves(SpecAst::Empty, ns));
                assert(resolves(SpecAst::Star(Box::new(b)), ns) == resolves(b, ns));
            }
            resolve_check(e, env)
        },
        Ast::And(e) => {
            let ghost b = ast_view(*(*e));
            proof {
                assert(resolves(SpecAst::Not(Box::new(b)), ns) == resolves(b, ns));
            }
            resolve_check(e, env)
        },
        Ast::Not(e) => resolve_check(e, env),
        Ast::Cap(_, _, e) => resolve_check(e, env),
        Ast::Ref(name) => {
            match env_find(env, name) {
                Some(_) => {
                    proof {
                        lemma_lookup_names(env_view(env@), name@);
                    }
                    true
                },
                None => {
                    proof {
                        lemma_lookup_names(env_view(env@), name@);
                    }
                    false
                },
            }
        },
        Ast::Grammar(bodies, names) => {
            // The inner grammar's references see its own rules only; the
            // addresses do not matter for resolution.
            let mut env2: Vec<(String, usize)> = Vec::new();
            let mut k: usize = 0;
            while k < names.len()
                invariant
                    k <= names@.len(),
                    env2@.len() == k,
                    forall|i: int|
                        0 <= i < k ==> (#[trigger] env_view(env2@)[i]).0 == names@[i]@,
                decreases names@.len() - k,
            {
                let ghost prev = env2@;
                env2.push((names[k].clone(), 0));
                proof {
                    assert forall|i: int| 0 <= i < k + 1 implies (#[trigger] env_view(
                        env2@,
                    )[i]).0 == names@[i]@ by {
                        if i < k {
                            assert(env2@[i] == prev[i]);
                            assert(env_view(prev)[i].0 == names@[i]@);
                        } else {
                            assert(env2@[i].0@ == names@[i]@);
                        }
                    }
                }
                k = k + 1;
            }
            proof {
                lemma_views_of(bodies@);
                assert(views_of(bodies@).skip(0) =~= views_of(bodies@));
                match a@ {
                    SpecAst::Grammar(gbs, gns) => {
                        assert(gbs == views_of(bodies@));
                        assert(names_of(env_view(env2@)) =~= gns);
                    },
                    _ => {},
                }
            }
            resolve_rules_from(bodies, 0, &env2)
        },
        _ => true,
    }
}

/// [`resolves`] of the fold of `es[k..]` as a concatenation.
fn resolve_cat_from(es: &Vec<Ast>, k: usize, env: &Vec<(String, usize)>) -> (r: bool)
    requires
        k <= es@.len(),
    ensures
        r == resolves(cat_fold(es@.skip(k as int)), names_of(env_view(env@))),
    decreases es, es@.len() - k,
{
    let ghost tail = es@.skip(k as int);
    if k == es.len() {
        proof {
            assert(tail =~= Seq::<Ast>::empty());
        }
        true
    } else if k == es.len() - 1 {
        proof {
            assert(tail[0] == es@[k as int]);
        }
        resolve_check(&es[k], env)
    } else {
        proof {
            assert(tail[0] == es@[k as int]);
            assert(tail.drop_first() =~= es@.skip(k + 1 as int));
        }
        let a = resolve_check(&es[k], env);
        if !a {
            return false;
        }
        resolve_cat_from(es, k + 1, env)
    }
}

/// [`resolves`] of the fold of `es[k..]` as an ordered choice.
fn resolve_alt_from(es: &Vec<Ast>, k: usize, env: &Vec<(String, usize)>) -> (r: bool)
    requires
        k <= es@.len(),
    ensures
        r == resolves(alt_fold(es@.skip(k as int)), names_of(env_view(env@))),
    decreases es, es@.len() - k,
{
    let ghost tail = es@.skip(k as int);
    if k == es.len() {
        proof {
            assert(tail =~= Seq::<Ast>::empty());
        }
        true
    } else if k == es.len() - 1 {
        proof {
            assert(tail[0] == es@[k as int]);
        }
        resolve_check(&es[k], env)
    } else {
        proof {
            assert(tail[0] == es@[k as int]);
            assert(tail.drop_first() =~= es@.skip(k + 1 as int));
        }
        let a = resolve_check(&es[k], env);
        if !a {
            return false;
        }
        resolve_alt_from(es, k + 1, env)
    }
}

/// [`resolves_list`] of the views of `es[k..]`.
fn resolve_rules_from(es: &Vec<Ast>, k: usize, env: &Vec<(String, usize)>) -> (r: bool)
    requires
        k <= es@.len(),
    ensures
        r == resolves_list(views_of(es@).skip(k as int), names_of(env_view(env@))),
    decreases es, es@.len() - k,
{
    proof {
        lemma_views_of(es@);
    }
    let ghost tail = views_of(es@).skip(k as int);
    if k == es.len() {
        proof {
            assert(tail =~= Seq::<SpecAst>::empty());
        }
        true
    } else {
        proof {
            assert(tail[0] == ast_view(es@[k as int]));
            assert(tail.drop_first() =~= views_of(es@).skip(k + 1 as int));
        }
        let a = resolve_check(&es[k], env);
        if !a {
            return false;
        }
        resolve_rules_from(es, k + 1, env)
    }
}

} // verus!
