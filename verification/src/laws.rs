//! The laws the engine obeys, proved once over the machine semantics.
//!
//! The heart of this module is [`lemma_emit_runs`]: the code the compiler
//! emits for a pattern — recursive grammars included — drives the machine
//! exactly as the pattern's fuel-indexed evaluation [`geval`] prescribes,
//! from any position, stack and capture list.  Where evaluation settles at
//! some budget, the machine halts with that very outcome
//! ([`lemma_compiled_outcome`]); a diverging pattern, such as a
//! left-recursive grammar, settles at no budget and the machine indeed runs
//! for ever.  The named laws — a literal matches itself, zero-or-one never
//! fails, ordered choice is left-biased, a starred empty literal
//! terminates, lookahead consumes nothing, captures bracket their body —
//! fall out as corollaries over [`aeval`], the budget-free evaluation of
//! patterns without rule calls.

use vstd::prelude::*;
use crate::ast::{Flags, SpecAst, FLAG_NORMAL};
use crate::capture::CapKind;
use crate::code::SpecOp;
use crate::compile::{code_len, compiled, emit, emit_rules, lit_ops, RuleAddrs};
use crate::vm::{
    cap_entry, cls_matches, vm_failure, vm_fault, vm_halts, vm_init, vm_run, vm_sound, vm_step,
    vm_success, vm_terminal, MachineState, SpecCapture, SpecStackEntry,
};

verus! {

/// A pattern without rule references or grammars: what a single rule's body
/// is made of.
pub open spec fn call_free(a: SpecAst) -> bool
    decreases a,
{
    match a {
        SpecAst::Cat(x, y) => call_free(*x) && call_free(*y),
        SpecAst::Choice(x, y) => call_free(*x) && call_free(*y),
        SpecAst::Star(x) => call_free(*x),
        SpecAst::Not(x) => call_free(*x),
        SpecAst::Cap(_, x) => call_free(*x),
        SpecAst::Ref(_) => false,
        SpecAst::Grammar(_, _) => false,
        _ => true,
    }
}

/// What evaluating a pattern at a position yields: the new position and the
/// capture entries recorded, or failure.
pub enum EvalResult {
    Matched(int, Seq<SpecCapture>),
    NoMatch,
}

/// The budget-free evaluation of a pattern without rule calls; on such
/// patterns it agrees with [`geval`] under every rule set and every budget.
/// Repetition stops at the first iteration that consumes nothing, so it is
/// total even over bodies that match the empty string.
pub open spec fn aeval(a: SpecAst, input: Seq<char>, pos: int) -> EvalResult
    decreases input.len() - pos, a,
{
    match a {
        SpecAst::Never => EvalResult::NoMatch,
        SpecAst::Empty => EvalResult::Matched(pos, Seq::empty()),
        SpecAst::Lit(s, _) => if pos + s.len() <= input.len() && input.subrange(
            pos,
            pos + s.len(),
        ) == s {
            EvalResult::Matched(pos + s.len(), Seq::empty())
        } else {
            EvalResult::NoMatch
        },
        SpecAst::Dot(_) => if pos < input.len() {
            EvalResult::Matched(pos + 1, Seq::empty())
        } else {
            EvalResult::NoMatch
        },
        SpecAst::Cls(rs, f) => if pos < input.len() && cls_matches(rs, f, input[pos]) {
            EvalResult::Matched(pos + 1, Seq::empty())
        } else {
            EvalResult::NoMatch
        },
        SpecAst::Cat(x, y) => match aeval(*x, input, pos) {
            EvalResult::Matched(p1, c1) => if pos <= p1 <= input.len() {
                match aeval(*y, input, p1) {
                    EvalResult::Matched(p2, c2) => EvalResult::Matched(p2, c1 + c2),
                    EvalResult::NoMatch => EvalResult::NoMatch,
                }
            } else {
                EvalResult::NoMatch
            },
            EvalResult::NoMatch => EvalResult::NoMatch,
        },
        SpecAst::Choice(x, y) => match aeval(*x, input, pos) {
            EvalResult::Matched(p1, c1) => EvalResult::Matched(p1, c1),
            EvalResult::NoMatch => aeval(*y, input, pos),
        },
        SpecAst::Star(x) => match aeval(*x, input, pos) {
            EvalResult::Matched(p1, c1) => if pos < p1 <= input.len() {
                match aeval(a, input, p1) {
                    EvalResult::Matched(p2, c2) => EvalResult::Matched(p2, c1 + c2),
                    EvalResult::NoMatch => EvalResult::NoMatch,
                }
            } else if p1 == pos {
                EvalResult::Matched(pos, c1)
            } else {
                EvalResult::NoMatch
            },
            EvalResult::NoMatch => EvalResult::Matched(pos, Seq::empty()),
        },
        SpecAst::Not(x) => match aeval(*x, input, pos) {
            EvalResult::Matched(_, _) => EvalResult::NoMatch,
            EvalResult::NoMatch => EvalResult::Matched(pos, Seq::empty()),
        },
        SpecAst::Cap(n, x) => match aeval(*x, input, pos) {
            EvalResult::Matched(p1, c1) => EvalResult::Matched(
                p1,
                seq![cap_entry(pos, CapKind::Cposition, n as int)] + c1 + seq![
                    cap_entry(p1, CapKind::Cclose, n as int),
                ],
            ),
            EvalResult::NoMatch => EvalResult::NoMatch,
        },
        SpecAst::Ref(_) => EvalResult::NoMatch,
        SpecAst::Grammar(_, _) => EvalResult::NoMatch,
    }
}

/// A match never moves the position backwards nor past the end.
pub proof fn lemma_aeval_bounds(a: SpecAst, input: Seq<char>, pos: int)
    requires
        0 <= pos <= input.len(),
    ensures
        aeval(a, input, pos) matches EvalResult::Matched(p1, _) ==> pos <= p1 <= input.len(),
    decreases input.len() - pos, a,
{
    match a {
        SpecAst::Cat(x, y) => {
            lemma_aeval_bounds(*x, input, pos);
            if let EvalResult::Matched(p1, _) = aeval(*x, input, pos) {
                lemma_aeval_bounds(*y, input, p1);
            }
        },
        SpecAst::Choice(x, y) => {
            lemma_aeval_bounds(*x, input, pos);
            lemma_aeval_bounds(*y, input, pos);
        },
        SpecAst::Star(x) => {
            lemma_aeval_bounds(*x, input, pos);
            if let EvalResult::Matched(p1, _) = aeval(*x, input, pos) {
                if pos < p1 <= input.len() {
                    lemma_aeval_bounds(a, input, p1);
                }
            }
        },
        SpecAst::Cap(_, x) => {
            lemma_aeval_bounds(*x, input, pos);
        },
        _ => {},
    }
}

/// A grammar's rules as evaluation sees them: names beside bodies, looked
/// up front to back.
pub type RuleSet = Seq<(Seq<char>, SpecAst)>;

/// First-match lookup of a rule's body.
pub open spec fn rlookup(rules: RuleSet, nm: Seq<char>) -> Option<SpecAst>
    decreases rules.len(),
{
    if rules.len() == 0 {
        None
    } else if rules[0].0 == nm {
        Some(rules[0].1)
    } else {
        rlookup(rules.drop_first(), nm)
    }
}

/// What evaluating a full pattern yields: a match, a failure, or fuel
/// exhaustion — the recursion budget ran out, as it does at every budget on
/// a left-recursive grammar.
pub enum GEval {
    Matched(int, Seq<SpecCapture>),
    NoMatch,
    Hung,
}

/// A grammar's rule set: its names beside its bodies.
pub open spec fn rules_of(bs: Seq<SpecAst>, ns: Seq<Seq<char>>) -> RuleSet {
    Seq::new(ns.len(), |k: int| (ns[k], bs[k]))
}

/// The evaluation of a full pattern, rule references included: each call
/// spends one unit of fuel, so the function is total, and diverging
/// grammars answer [`GEval::Hung`] at every budget.
pub open spec fn geval(a: SpecAst, rules: RuleSet, input: Seq<char>, pos: int, fuel: nat) -> GEval
    decreases fuel, input.len() - pos, a,
{
    match a {
        SpecAst::Never => GEval::NoMatch,
        SpecAst::Empty => GEval::Matched(pos, Seq::empty()),
        SpecAst::Lit(s, _) => if pos + s.len() <= input.len() && input.subrange(
            pos,
            pos + s.len(),
        ) == s {
            GEval::Matched(pos + s.len(), Seq::empty())
        } else {
            GEval::NoMatch
        },
        SpecAst::Dot(_) => if pos < input.len() {
            GEval::Matched(pos + 1, Seq::empty())
        } else {
            GEval::NoMatch
        },
        SpecAst::Cls(rs, f) => if pos < input.len() && cls_matches(rs, f, input[pos]) {
            GEval::Matched(pos + 1, Seq::empty())
        } else {
            GEval::NoMatch
        },
        SpecAst::Cat(x, y) => match geval(*x, rules, input, pos, fuel) {
            GEval::Matched(p1, c1) => if pos <= p1 <= input.len() {
                match geval(*y, rules, input, p1, fuel) {
                    GEval::Matched(p2, c2) => GEval::Matched(p2, c1 + c2),
                    GEval::NoMatch => GEval::NoMatch,
                    GEval::Hung => GEval::Hung,
                }
            } else {
                GEval::NoMatch
            },
            GEval::NoMatch => GEval::NoMatch,
            GEval::Hung => GEval::Hung,
        },
        SpecAst::Choice(x, y) => match geval(*x, rules, input, pos, fuel) {
            GEval::Matched(p1, c1) => GEval::Matched(p1, c1),
            GEval::NoMatch => geval(*y, rules, input, pos, fuel),
            GEval::Hung => GEval::Hung,
        },
        SpecAst::Star(x) => match geval(*x, rules, input, pos, fuel) {
            GEval::Matched(p1, c1) => if pos < p1 <= input.len() {
                match geval(a, rules, input, p1, fuel) {
                    GEval::Matched(p2, c2) => GEval::Matched(p2, c1 + c2),
                    GEval::NoMatch => GEval::NoMatch,
                    GEval::Hung => GEval::Hung,
                }
            } else if p1 == pos {
                GEval::Matched(pos, c1)
            } else {
                GEval::NoMatch
            },
            GEval::NoMatch => GEval::Matched(pos, Seq::empty()),
            GEval::Hung => GEval::Hung,
        },
        SpecAst::Not(x) => match geval(*x, rules, input, pos, fuel) {
            GEval::Matched(_, _) => GEval::NoMatch,
            GEval::NoMatch => GEval::Matched(pos, Seq::empty()),
            GEval::Hung => GEval::Hung,
        },
        SpecAst::Cap(n, x) => match geval(*x, rules, input, pos, fuel) {
            GEval::Matched(p1, c1) => GEval::Matched(
                p1,
                seq![cap_entry(pos, CapKind::Cposition, n as int)] + c1 + seq![
                    cap_entry(p1, CapKind::Cclose, n as int),
                ],
            ),
            GEval::NoMatch => GEval::NoMatch,
            GEval::Hung => GEval::Hung,
        },
        SpecAst::Ref(nm) => match rlookup(rules, nm) {
            Some(b) => if fuel == 0 {
                GEval::Hung
            } else {
                geval(b, rules, input, pos, (fuel - 1) as nat)
            },
            None => GEval::NoMatch,
        },
        SpecAst::Grammar(bs, ns) => if bs.len() == 0 {
            GEval::NoMatch
        } else {
            geval(bs[0], rules_of(bs, ns), input, pos, fuel)
        },
    }
}

/// A match never moves the position backwards nor past the end.
pub proof fn lemma_geval_bounds(
    a: SpecAst,
    rules: RuleSet,
    input: Seq<char>,
    pos: int,
    fuel: nat,
)
    requires
        0 <= pos <= input.len(),
    ensures
        geval(a, rules, input, pos, fuel) matches GEval::Matched(p1, _) ==> pos <= p1
            <= input.len(),
    decreases fuel, input.len() - pos, a,
{
    match a {
        SpecAst::Cat(x, y) => {
            lemma_geval_bounds(*x, rules, input, pos, fuel);
            if let GEval::Matched(p1, _) = geval(*x, rules, input, pos, fuel) {
                if pos <= p1 <= input.len() {
                    lemma_geval_bounds(*y, rules, input, p1, fuel);
                }
            }
        },
        SpecAst::Choice(x, y) => {
            lemma_geval_bounds(*x, rules, input, pos, fuel);
            lemma_geval_bounds(*y, rules, input, pos, fuel);
        },
        SpecAst::Star(x) => {
            lemma_geval_bounds(*x, rules, input, pos, fuel);
            if let GEval::Matched(p1, _) = geval(*x, rules, input, pos, fuel) {
                if pos < p1 <= input.len() {
                    lemma_geval_bounds(a, rules, input, p1, fuel);
                }
            }
        },
        SpecAst::Cap(_, x) => {
            lemma_geval_bounds(*x, rules, input, pos, fuel);
        },
        SpecAst::Ref(nm) => {
            if let Some(b) = rlookup(rules, nm) {
                if fuel > 0 {
                    lemma_geval_bounds(b, rules, input, pos, (fuel - 1) as nat);
                }
            }
        },
        SpecAst::Grammar(bs, ns) => {
            if bs.len() > 0 {
                lemma_geval_bounds(bs[0], rules_of(bs, ns), input, pos, fuel);
            }
        },
        _ => {},
    }
}

/// Some number of dispatches leads from `s` to `t`.
pub open spec fn reaches(
    code: Seq<SpecOp>,
    input: Seq<char>,
    s: MachineState,
    t: MachineState,
) -> bool {
    exists|n: nat| vm_run(code, input, s, n) == t
}

/// Every state reaches itself.
pub proof fn lemma_reaches_refl(code: Seq<SpecOp>, input: Seq<char>, s: MachineState)
    ensures
        reaches(code, input, s, s),
{
    assert(vm_run(code, input, s, 0) == s);
}

/// A state that is not terminal reaches its successor.
pub proof fn lemma_reaches_step(code: Seq<SpecOp>, input: Seq<char>, s: MachineState)
    ensures
        reaches(code, input, s, vm_step(code, input, s)),
{
    assert(vm_run(code, input, s, 1) == vm_step(code, input, vm_run(code, input, s, 0)));
}

/// Runs compose.
pub proof fn lemma_reaches_trans(
    code: Seq<SpecOp>,
    input: Seq<char>,
    s: MachineState,
    t: MachineState,
    u: MachineState,
)
    requires
        reaches(code, input, s, t),
        reaches(code, input, t, u),
    ensures
        reaches(code, input, s, u),
{
    let n1 = choose|n: nat| vm_run(code, input, s, n) == t;
    let n2 = choose|n: nat| vm_run(code, input, t, n) == u;
    crate::vm::lemma_run_add(code, input, s, n1, n2);
    assert(vm_run(code, input, s, n1 + n2) == u);
}

/// Where a rule table and a rule set carry the same names in the same
/// order, a found address and a found body come from the same rule.
proof fn lemma_lookup_pair(env: RuleAddrs, rules: RuleSet, nm: Seq<char>)
    requires
        env.len() == rules.len(),
        forall|k: int| 0 <= k < env.len() ==> (#[trigger] env[k]).0 == rules[k].0,
    ensures
        match crate::compile::lookup(env, nm) {
            Some(ad) => exists|j: int|
                0 <= j < env.len() && (#[trigger] env[j]).1 == ad && env[j].0 == nm && rlookup(
                    rules,
                    nm,
                ) == Some(rules[j].1),
            None => rlookup(rules, nm) is None,
        },
    decreases env.len(),
{
    if env.len() > 0 {
        assert(env[0].0 == rules[0].0);
        if env[0].0 == nm {
            assert(crate::compile::lookup(env, nm) == Some(env[0].1));
            assert(rlookup(rules, nm) == Some(rules[0].1));
        } else {
            assert(forall|k: int|
                0 <= k < env.drop_first().len() ==> (#[trigger] env.drop_first()[k]) == env[k + 1]
                    && rules.drop_first()[k] == rules[k + 1]);
            lemma_lookup_pair(env.drop_first(), rules.drop_first(), nm);
            if let Some(ad) = crate::compile::lookup(env, nm) {
                let j = choose|j: int|
                    0 <= j < env.drop_first().len() && (#[trigger] env.drop_first()[j]).1 == ad
                        && env.drop_first()[j].0 == nm && rlookup(rules.drop_first(), nm) == Some(
                        rules.drop_first()[j].1,
                    );
                assert(0 <= j + 1 < env.len() && env[j + 1].1 == ad && env[j + 1].0 == nm
                    && rlookup(rules, nm) == Some(rules[j + 1].1));
            }
        }
    }
}

/// Every member of a resolving list resolves.
proof fn lemma_resolves_list_index(bs: Seq<SpecAst>, ns: Seq<Seq<char>>, k: int)
    requires
        crate::compile::resolves_list(bs, ns),
        0 <= k < bs.len(),
    ensures
        crate::compile::resolves(bs[k], ns),
    decreases k,
{
    if k > 0 {
        lemma_resolves_list_index(bs.drop_first(), ns, k - 1);
        assert(bs.drop_first()[k - 1] == bs[k]);
    }
}

/// Every member of a well-shaped list is well shaped.
proof fn lemma_shapes_list_index(bs: Seq<SpecAst>, k: int)
    requires
        crate::compile::shapes_list(bs),
        0 <= k < bs.len(),
    ensures
        crate::compile::shape_ok(bs[k]),
    decreases k,
{
    if k > 0 {
        lemma_shapes_list_index(bs.drop_first(), k - 1);
        assert(bs.drop_first()[k - 1] == bs[k]);
    }
}

/// Rule `k` of an emitted rule run stands at its own offset: its body's
/// code followed by the return instruction.
proof fn lemma_emit_rules_slice(bs: Seq<SpecAst>, pos: int, env: RuleAddrs, k: int)
    requires
        0 <= k < bs.len(),
    ensures
        ({
            let pre = crate::compile::rules_len_prefix(bs, k) as int;
            let lk = code_len(bs[k]) as int;
            &&& pre + lk + 1 <= emit_rules(bs, pos, env).len()
            &&& emit_rules(bs, pos, env).subrange(pre, pre + lk + 1) == emit(
                bs[k],
                pos + pre,
                env,
            ) + seq![SpecOp::Ret]
        }),
    decreases k,
{
    let whole = emit_rules(bs, pos, env);
    let l0 = code_len(bs[0]) as int;
    crate::compile::lemma_emit_len(bs[0], pos, env);
    crate::compile::lemma_emit_rules_len(bs, pos, env);
    crate::compile::lemma_emit_rules_len(bs.drop_first(), pos + l0 + 1, env);
    crate::compile::lemma_rules_split(bs, k);
    if k == 0 {
        crate::compile::lemma_rules_split(bs, 1);
        assert(whole.subrange(0, l0 + 1) =~= emit(bs[0], pos, env) + seq![SpecOp::Ret]);
    } else {
        let bt = bs.drop_first();
        let pre = crate::compile::rules_len_prefix(bs, k) as int;
        let pret = crate::compile::rules_len_prefix(bt, k - 1) as int;
        assert(bt[k - 1] == bs[k]);
        let lk = code_len(bs[k]) as int;
        lemma_emit_rules_slice(bt, pos + l0 + 1, env, k - 1);
        assert(pre == pret + l0 + 1) by {
            lemma_rules_prefix_shift(bs, k);
        }
        let tailcode = emit_rules(bt, pos + l0 + 1, env);
        assert(whole == emit(bs[0], pos, env) + seq![SpecOp::Ret] + tailcode);
        assert(whole.subrange(pre, pre + lk + 1) =~= tailcode.subrange(pret, pret + lk + 1)) by {
            assert forall|i: int| 0 <= i < lk + 1 implies (#[trigger] whole.subrange(
                pre,
                pre + lk + 1,
            )[i]) == tailcode.subrange(pret, pret + lk + 1)[i] by {
                assert(whole.subrange(pre, pre + lk + 1)[i] == whole[pre + i]);
                assert(whole[pre + i] == tailcode[pret + i]);
                assert(tailcode.subrange(pret, pret + lk + 1)[i] == tailcode[pret + i]);
            }
        }
    }
}

/// The first `k` rules of a run are the leading body and return, then the
/// first `k - 1` rules of the rest.
proof fn lemma_rules_prefix_shift(bs: Seq<SpecAst>, k: int)
    requires
        1 <= k <= bs.len(),
    ensures
        crate::compile::rules_len_prefix(bs, k) == code_len(bs[0]) + 1
            + crate::compile::rules_len_prefix(bs.drop_first(), k - 1),
    decreases k,
{
    if k == 1 {
        assert(crate::compile::rules_len_prefix(bs, 0) == 0);
        assert(crate::compile::rules_len_prefix(bs.drop_first(), 0) == 0);
    } else {
        lemma_rules_prefix_shift(bs, k - 1);
        assert(bs.drop_first()[k - 2] == bs[k - 1]);
    }
}

/// The tie between a rule table and the program: each named address holds
/// the named body's code followed by a return, the body's own references
/// resolving in the same table.
pub open spec fn env_rules_agree(code: Seq<SpecOp>, env: RuleAddrs, rules: RuleSet) -> bool {
    &&& env.len() == rules.len()
    &&& forall|k: int|
        #![trigger env[k], rules[k]]
        0 <= k < env.len() ==> {
            &&& env[k].0 == rules[k].0
            &&& 0 <= env[k].1
            &&& env[k].1 + code_len(rules[k].1) + 1 <= code.len()
            &&& code.subrange(env[k].1, env[k].1 + code_len(rules[k].1) + 1) == emit(
                rules[k].1,
                env[k].1,
                env,
            ) + seq![SpecOp::Ret]
            &&& crate::compile::resolves(rules[k].1, crate::compile::names_of(env))
            &&& crate::compile::shape_ok(rules[k].1)
        }
}

/// The machine driven by the code of a literal: it consumes the literal
/// where the input carries it, and fails without recording anything where
/// not.
proof fn lemma_lit_runs(
    s: Seq<char>,
    f: Flags,
    input: Seq<char>,
    code: Seq<SpecOp>,
    at: int,
    pos: int,
    stk: Seq<SpecStackEntry>,
    caps: Seq<SpecCapture>,
)
    requires
        0 <= at,
        at + s.len() <= code.len(),
        code.subrange(at, at + s.len()) == lit_ops(s, f),
        0 <= pos <= input.len(),
        stk.len() >= 1,
    ensures
        (pos + s.len() <= input.len() && input.subrange(pos, pos + s.len()) == s) ==> reaches(
            code,
            input,
            MachineState { p: Some(at), i: pos, stk, caps },
            MachineState { p: Some(at + s.len()), i: pos + s.len(), stk, caps },
        ),
        !(pos + s.len() <= input.len() && input.subrange(pos, pos + s.len()) == s) ==> exists|
            ii: int,
        |
            reaches(
                code,
                input,
                MachineState { p: Some(at), i: pos, stk, caps },
                MachineState { p: None, i: ii, stk, caps },
            ),
    decreases s.len(),
{
    let s0 = MachineState { p: Some(at), i: pos, stk, caps };
    crate::compile::lemma_lit_ops(s, f);
    if s.len() == 0 {
        assert(input.subrange(pos, pos) =~= Seq::<char>::empty());
        assert(input.subrange(pos, pos) =~= s);
        lemma_reaches_refl(code, input, s0);
        assert(MachineState { p: Some(at + s.len()), i: pos + s.len(), stk, caps } == s0);
    } else {
        assert(code.subrange(at, at + s.len())[0] == code[at]);
        assert(code[at] == SpecOp::Char(s[0], f));
        assert(!vm_terminal(code, s0));
        if pos < input.len() && input[pos] == s[0] {
            let s1 = MachineState { p: Some(at + 1), i: pos + 1, stk, caps };
            assert(vm_step(code, input, s0) == s1);
            lemma_reaches_step(code, input, s0);
            let t = s.drop_first();
            assert(code.subrange(at + 1, at + 1 + t.len()) =~= lit_ops(t, f)) by {
                crate::compile::lemma_lit_ops(t, f);
                assert forall|i: int| 0 <= i < t.len() implies (#[trigger] code.subrange(
                    at + 1,
                    at + 1 + t.len(),
                )[i]) == lit_ops(t, f)[i] by {
                    assert(code.subrange(at + 1, at + 1 + t.len())[i] == code[at + 1 + i]);
                    assert(code.subrange(at, at + s.len())[i + 1] == code[at + 1 + i]);
                    assert(lit_ops(s, f)[i + 1] == SpecOp::Char(s[i + 1], f));
                    assert(lit_ops(t, f)[i] == SpecOp::Char(t[i], f));
                }
            }
            lemma_lit_runs(t, f, input, code, at + 1, pos + 1, stk, caps);
            let whole_here = pos + s.len() <= input.len() && input.subrange(pos, pos + s.len())
                == s;
            let rest_there = pos + 1 + t.len() <= input.len() && input.subrange(
                pos + 1,
                pos + 1 + t.len(),
            ) == t;
            assert(whole_here == rest_there) by {
                if whole_here {
                    assert(input.subrange(pos + 1, pos + 1 + t.len()) =~= t) by {
                        assert forall|i: int| 0 <= i < t.len() implies input.subrange(
                            pos + 1,
                            pos + 1 + t.len(),
                        )[i] == t[i] by {
                            assert(input.subrange(pos, pos + s.len())[i + 1] == input[pos + 1
                                + i]);
                        }
                    }
                }
                if rest_there {
                    assert(input.subrange(pos, pos + s.len()) =~= s) by {
                        assert forall|i: int| 0 <= i < s.len() implies input.subrange(
                            pos,
                            pos + s.len(),
                        )[i] == s[i] by {
                            if i > 0 {
                                assert(input.subrange(pos + 1, pos + 1 + t.len())[i - 1]
                                    == input[pos + i]);
                                assert(t[i - 1] == s[i]);
                            }
                        }
                    }
                }
            }
            if whole_here {
                lemma_reaches_trans(
                    code,
                    input,
                    s0,
                    s1,
                    MachineState { p: Some(at + s.len()), i: pos + s.len(), stk, caps },
                );
            } else {
                let ii = choose|ii: int|
                    reaches(
                        code,
                        input,
                        s1,
                        MachineState { p: None, i: ii, stk, caps },
                    );
                lemma_reaches_trans(
                    code,
                    input,
                    s0,
                    s1,
                    MachineState { p: None, i: ii, stk, caps },
                );
            }
        } else {
            let s1 = MachineState { p: None, i: pos, stk, caps };
            assert(vm_step(code, input, s0) == s1);
            lemma_reaches_step(code, input, s0);
            if pos + s.len() <= input.len() && input.subrange(pos, pos + s.len()) == s {
                assert(input.subrange(pos, pos + s.len())[0] == input[pos]);
                assert(false);
            }
        }
    }
}

/// The central theorem: the code emitted for a pattern — rule calls and
/// grammars included — drives the machine exactly as [`geval`] prescribes
/// under the same rules and budget.  From the pattern's first instruction,
/// a match runs to the instruction past the fragment with the position
/// advanced and the capture entries appended, the stack as it was; a
/// failure runs to a failing state with the stack as it was and the capture
/// list at worst extended, about to backtrack into the caller's choice
/// points; where evaluation runs out of fuel, nothing is claimed, and the
/// machine may indeed run for ever.
#[verifier::rlimit(100)]
#[verifier::spinoff_prover]
pub proof fn lemma_emit_runs(
    a: SpecAst,
    input: Seq<char>,
    code: Seq<SpecOp>,
    env: RuleAddrs,
    rules: RuleSet,
    at: int,
    pos: int,
    stk: Seq<SpecStackEntry>,
    caps: Seq<SpecCapture>,
    fuel: nat,
)
    requires
        crate::compile::shape_ok(a),
        crate::compile::resolves(a, crate::compile::names_of(env)),
        env_rules_agree(code, env, rules),
        0 <= at,
        at + code_len(a) <= code.len(),
        code.subrange(at, at + code_len(a)) == emit(a, at, env),
        0 <= pos <= input.len(),
        stk.len() >= 1,
    ensures
        match geval(a, rules, input, pos, fuel) {
            GEval::Matched(p1, delta) => reaches(
                code,
                input,
                MachineState { p: Some(at), i: pos, stk, caps },
                MachineState { p: Some(at + code_len(a)), i: p1, stk, caps: caps + delta },
            ),
            GEval::NoMatch => exists|ii: int, junk: Seq<SpecCapture>|
                reaches(
                    code,
                    input,
                    MachineState { p: Some(at), i: pos, stk, caps },
                    MachineState { p: None, i: ii, stk, caps: caps + junk },
                ),
            GEval::Hung => true,
        },
    decreases fuel, input.len() - pos, a, 1int,
{
    let s0 = MachineState { p: Some(at), i: pos, stk, caps };
    let ghost latc = at + code_len(a);
    match a {
        SpecAst::Never => {
            assert(code.subrange(at, at + 1)[0] == code[at]);
            assert(code[at] == SpecOp::Fail);
            assert(!vm_terminal(code, s0));
            let s1 = MachineState { p: None, i: pos, stk, caps };
            assert(vm_step(code, input, s0) == s1);
            lemma_reaches_step(code, input, s0);
            assert(caps =~= caps + Seq::<SpecCapture>::empty());
            assert(reaches(
                code,
                input,
                s0,
                MachineState { p: None, i: pos, stk, caps: caps + Seq::empty() },
            ));
        },
        SpecAst::Empty => {
            lemma_reaches_refl(code, input, s0);
            assert(caps =~= caps + Seq::<SpecCapture>::empty());
        },
        SpecAst::Lit(s, f) => {
            lemma_lit_runs(s, f, input, code, at, pos, stk, caps);
            if !(pos + s.len() <= input.len() && input.subrange(pos, pos + s.len()) == s) {
                let ii = choose|ii: int|
                    reaches(
                        code,
                        input,
                        s0,
                        MachineState { p: None, i: ii, stk, caps },
                    );
                assert(caps =~= caps + Seq::<SpecCapture>::empty());
                assert(reaches(
                    code,
                    input,
                    s0,
                    MachineState { p: None, i: ii, stk, caps: caps + Seq::empty() },
                ));
            } else {
                assert(caps =~= caps + Seq::<SpecCapture>::empty());
            }
        },
        SpecAst::Dot(_) => {
            assert(code.subrange(at, at + 1)[0] == code[at]);
            assert(!vm_terminal(code, s0));
            lemma_reaches_step(code, input, s0);
            assert(caps =~= caps + Seq::<SpecCapture>::empty());
            if pos < input.len() {
                assert(vm_step(code, input, s0) == MachineState {
                    p: Some(at + 1),
                    i: pos + 1,
                    stk,
                    caps,
                });
            } else {
                assert(vm_step(code, input, s0) == MachineState { p: None, i: pos, stk, caps });
                assert(reaches(
                    code,
                    input,
                    s0,
                    MachineState { p: None, i: pos, stk, caps: caps + Seq::empty() },
                ));
            }
        },
        SpecAst::Cls(rs, f) => {
            assert(code.subrange(at, at + 1)[0] == code[at]);
            assert(code[at] == SpecOp::Cls(rs, f));
            assert(!vm_terminal(code, s0));
            lemma_reaches_step(code, input, s0);
            assert(caps =~= caps + Seq::<SpecCapture>::empty());
            if pos < input.len() && cls_matches(rs, f, input[pos]) {
                assert(vm_step(code, input, s0) == MachineState {
                    p: Some(at + 1),
                    i: pos + 1,
                    stk,
                    caps,
                });
            } else {
                assert(vm_step(code, input, s0) == MachineState { p: None, i: pos, stk, caps });
                assert(reaches(
                    code,
                    input,
                    s0,
                    MachineState { p: None, i: pos, stk, caps: caps + Seq::empty() },
                ));
            }
        },
        SpecAst::Cat(x, y) => {
            let lx = code_len(*x) as int;
            let ly = code_len(*y) as int;
            crate::compile::lemma_emit_len(*x, at, env);
            crate::compile::lemma_emit_len(*y, at + lx, env);
            assert(code.subrange(at, at + lx) =~= emit(*x, at, env)) by {
                assert forall|i: int| 0 <= i < lx implies (#[trigger] code.subrange(at, at + lx)[i]) == emit(
                    *x,
                    at,
                    env,
                )[i] by {
                    assert(code.subrange(at, at + lx)[i] == code[at + i]);
                    assert(code.subrange(at, latc)[i] == code[at + i]);
                }
            }
            assert(code.subrange(at + lx, at + lx + ly) =~= emit(*y, at + lx, env)) by {
                assert forall|i: int| 0 <= i < ly implies (#[trigger] code.subrange(
                    at + lx,
                    at + lx + ly,
                )[i]) == emit(*y, at + lx, env)[i] by {
                    assert(code.subrange(at + lx, at + lx + ly)[i] == code[at + lx + i]);
                    assert(code.subrange(at, latc)[lx + i] == code[at + lx + i]);
                }
            }
            lemma_emit_runs(*x, input, code, env, rules, at, pos, stk, caps, fuel);
            lemma_geval_bounds(*x, rules, input, pos, fuel);
            match geval(*x, rules, input, pos, fuel) {
                GEval::Matched(p1, c1) => {
                    let s1 = MachineState { p: Some(at + lx), i: p1, stk, caps: caps + c1 };
                    lemma_emit_runs(*y, input, code, env, rules, at + lx, p1, stk, caps + c1, fuel);
                    match geval(*y, rules, input, p1, fuel) {
                        GEval::Matched(p2, c2) => {
                            let s2 = MachineState {
                                p: Some(at + lx + ly),
                                i: p2,
                                stk,
                                caps: (caps + c1) + c2,
                            };
                            lemma_reaches_trans(code, input, s0, s1, s2);
                            assert((caps + c1) + c2 =~= caps + (c1 + c2));
                            assert(s2 == MachineState {
                                p: Some(latc),
                                i: p2,
                                stk,
                                caps: caps + (c1 + c2),
                            });
                        },
                        GEval::NoMatch => {
                            let (ii, junk) = choose|ii: int, junk: Seq<SpecCapture>|
                                reaches(
                                    code,
                                    input,
                                    s1,
                                    MachineState { p: None, i: ii, stk, caps: (caps + c1) + junk },
                                );
                            let s2 = MachineState {
                                p: None,
                                i: ii,
                                stk,
                                caps: (caps + c1) + junk,
                            };
                            lemma_reaches_trans(code, input, s0, s1, s2);
                            assert((caps + c1) + junk =~= caps + (c1 + junk));
                            assert(reaches(
                                code,
                                input,
                                s0,
                                MachineState { p: None, i: ii, stk, caps: caps + (c1 + junk) },
                            ));
                        },
                        GEval::Hung => {
                        },
                    }
                },
                GEval::NoMatch => {
                },
                GEval::Hung => {
                },
            }
        },
        SpecAst::Choice(x, y) => {
            let lx = code_len(*x) as int;
            let ly = code_len(*y) as int;
            crate::compile::lemma_emit_len(*x, at + 1, env);
            crate::compile::lemma_emit_len(*y, at + 2 + lx, env);
            assert(code.subrange(at, latc)[0] == code[at]);
            assert(code[at] == SpecOp::Choice(lx + 2));
            assert(code.subrange(at, latc)[lx + 1] == code[at + lx + 1]);
            assert(code[at + lx + 1] == SpecOp::Commit(ly + 1));
            assert(code.subrange(at + 1, at + 1 + lx) =~= emit(*x, at + 1, env)) by {
                assert forall|i: int| 0 <= i < lx implies (#[trigger] code.subrange(
                    at + 1,
                    at + 1 + lx,
                )[i]) == emit(*x, at + 1, env)[i] by {
                    assert(code.subrange(at + 1, at + 1 + lx)[i] == code[at + 1 + i]);
                    assert(code.subrange(at, latc)[1 + i] == code[at + 1 + i]);
                }
            }
            assert(code.subrange(at + 2 + lx, at + 2 + lx + ly) =~= emit(*y, at + 2 + lx, env))
                by {
                assert forall|i: int| 0 <= i < ly implies (#[trigger] code.subrange(
                    at + 2 + lx,
                    at + 2 + lx + ly,
                )[i]) == emit(*y, at + 2 + lx, env)[i] by {
                    assert(code.subrange(at + 2 + lx, at + 2 + lx + ly)[i] == code[at + 2 + lx
                        + i]);
                    assert(code.subrange(at, latc)[2 + lx + i] == code[at + 2 + lx + i]);
                }
            }
            let alt0 = SpecStackEntry::Alt(at + lx + 2, pos, caps.len() as int);
            let stka = stk.push(alt0);
            let s1 = MachineState { p: Some(at + 1), i: pos, stk: stka, caps };
            assert(!vm_terminal(code, s0));
            assert(vm_step(code, input, s0) == s1);
            lemma_reaches_step(code, input, s0);
            lemma_emit_runs(*x, input, code, env, rules, at + 1, pos, stka, caps, fuel);
            match geval(*x, rules, input, pos, fuel) {
                GEval::Matched(p1, c1) => {
                    let s2 = MachineState { p: Some(at + 1 + lx), i: p1, stk: stka, caps: caps + c1 };
                    assert(!vm_terminal(code, s2));
                    let s3 = MachineState { p: Some(latc), i: p1, stk, caps: caps + c1 };
                    assert(stka.last() == alt0);
                    assert(stka.drop_last() =~= stk);
                    assert(vm_step(code, input, s2) == s3);
                    lemma_reaches_step(code, input, s2);
                    lemma_reaches_trans(code, input, s0, s1, s2);
                    lemma_reaches_trans(code, input, s0, s2, s3);
                },
                GEval::NoMatch => {
                    let (ii, junk) = choose|ii: int, junk: Seq<SpecCapture>|
                        reaches(
                            code,
                            input,
                            s1,
                            MachineState { p: None, i: ii, stk: stka, caps: caps + junk },
                        );
                    let s2 = MachineState { p: None, i: ii, stk: stka, caps: caps + junk };
                    lemma_reaches_trans(code, input, s0, s1, s2);
                    assert(!vm_terminal(code, s2));
                    assert(stka.last() == alt0);
                    assert(stka.drop_last() =~= stk);
                    assert((caps + junk).take(caps.len() as int) =~= caps);
                    let s3 = MachineState { p: Some(at + lx + 2), i: pos, stk, caps };
                    assert(vm_step(code, input, s2) == s3);
                    lemma_reaches_step(code, input, s2);
                    lemma_reaches_trans(code, input, s0, s2, s3);
                    lemma_emit_runs(*y, input, code, env, rules, at + 2 + lx, pos, stk, caps, fuel);
                    match geval(*y, rules, input, pos, fuel) {
                        GEval::Matched(p2, c2) => {
                            lemma_reaches_trans(
                                code,
                                input,
                                s0,
                                s3,
                                MachineState { p: Some(latc), i: p2, stk, caps: caps + c2 },
                            );
                        },
                        GEval::NoMatch => {
                            let (ii2, junk2) = choose|ii2: int, junk2: Seq<SpecCapture>|
                                reaches(
                                    code,
                                    input,
                                    s3,
                                    MachineState { p: None, i: ii2, stk, caps: caps + junk2 },
                                );
                            lemma_reaches_trans(
                                code,
                                input,
                                s0,
                                s3,
                                MachineState { p: None, i: ii2, stk, caps: caps + junk2 },
                            );
                        },
                        GEval::Hung => {
                        },
                    }
                },
                GEval::Hung => {
                },
            }
        },
        SpecAst::Star(x) => {
            let lx = code_len(*x) as int;
            assert(code.subrange(at, latc)[0] == code[at]);
            assert(code[at] == SpecOp::Choice(lx + 2));
            let alt0 = SpecStackEntry::Alt(at + lx + 2, pos, caps.len() as int);
            let s1 = MachineState { p: Some(at + 1), i: pos, stk: stk.push(alt0), caps };
            assert(!vm_terminal(code, s0));
            assert(vm_step(code, input, s0) == s1);
            lemma_reaches_step(code, input, s0);
            lemma_star_runs(*x, input, code, env, rules, at, pos, stk, caps, fuel);
            match geval(a, rules, input, pos, fuel) {
                GEval::Matched(p2, d) => {
                    lemma_reaches_trans(
                        code,
                        input,
                        s0,
                        s1,
                        MachineState { p: Some(latc), i: p2, stk, caps: caps + d },
                    );
                },
                GEval::NoMatch => {
                },
                GEval::Hung => {
                },
            }
        },
        SpecAst::Not(x) => {
            let lx = code_len(*x) as int;
            crate::compile::lemma_emit_len(*x, at + 1, env);
            assert(code.subrange(at, latc)[0] == code[at]);
            assert(code[at] == SpecOp::Choice(lx + 3));
            assert(code.subrange(at, latc)[lx + 1] == code[at + lx + 1]);
            assert(code[at + lx + 1] == SpecOp::Commit(1));
            assert(code.subrange(at, latc)[lx + 2] == code[at + lx + 2]);
            assert(code[at + lx + 2] == SpecOp::Fail);
            assert(code.subrange(at + 1, at + 1 + lx) =~= emit(*x, at + 1, env)) by {
                assert forall|i: int| 0 <= i < lx implies (#[trigger] code.subrange(
                    at + 1,
                    at + 1 + lx,
                )[i]) == emit(*x, at + 1, env)[i] by {
                    assert(code.subrange(at + 1, at + 1 + lx)[i] == code[at + 1 + i]);
                    assert(code.subrange(at, latc)[1 + i] == code[at + 1 + i]);
                }
            }
            let alt0 = SpecStackEntry::Alt(at + lx + 3, pos, caps.len() as int);
            let stka = stk.push(alt0);
            let s1 = MachineState { p: Some(at + 1), i: pos, stk: stka, caps };
            assert(!vm_terminal(code, s0));
            assert(vm_step(code, input, s0) == s1);
            lemma_reaches_step(code, input, s0);
            lemma_emit_runs(*x, input, code, env, rules, at + 1, pos, stka, caps, fuel);
            match geval(*x, rules, input, pos, fuel) {
                GEval::Matched(p1, c1) => {
                    let s2 = MachineState { p: Some(at + 1 + lx), i: p1, stk: stka, caps: caps + c1 };
                    assert(stka.last() == alt0);
                    assert(stka.drop_last() =~= stk);
                    assert(!vm_terminal(code, s2));
                    let s3 = MachineState { p: Some(at + lx + 2), i: p1, stk, caps: caps + c1 };
                    assert(vm_step(code, input, s2) == s3);
                    lemma_reaches_step(code, input, s2);
                    assert(!vm_terminal(code, s3));
                    let s4 = MachineState { p: None, i: p1, stk, caps: caps + c1 };
                    assert(vm_step(code, input, s3) == s4);
                    lemma_reaches_step(code, input, s3);
                    lemma_reaches_trans(code, input, s0, s1, s2);
                    lemma_reaches_trans(code, input, s0, s2, s3);
                    lemma_reaches_trans(code, input, s0, s3, s4);
                    assert(reaches(
                        code,
                        input,
                        s0,
                        MachineState { p: None, i: p1, stk, caps: caps + c1 },
                    ));
                },
                GEval::NoMatch => {
                    let (ii, junk) = choose|ii: int, junk: Seq<SpecCapture>|
                        reaches(
                            code,
                            input,
                            s1,
                            MachineState { p: None, i: ii, stk: stka, caps: caps + junk },
                        );
                    let s2 = MachineState { p: None, i: ii, stk: stka, caps: caps + junk };
                    lemma_reaches_trans(code, input, s0, s1, s2);
                    assert(!vm_terminal(code, s2));
                    assert(stka.last() == alt0);
                    assert(stka.drop_last() =~= stk);
                    assert((caps + junk).take(caps.len() as int) =~= caps);
                    let s3 = MachineState { p: Some(at + lx + 3), i: pos, stk, caps };
                    assert(vm_step(code, input, s2) == s3);
                    lemma_reaches_step(code, input, s2);
                    lemma_reaches_trans(code, input, s0, s2, s3);
                    assert(caps =~= caps + Seq::<SpecCapture>::empty());
                    assert(s3 == MachineState {
                        p: Some(latc),
                        i: pos,
                        stk,
                        caps: caps + Seq::empty(),
                    });
                },
                GEval::Hung => {
                },
            }
        },
        SpecAst::Cap(n, x) => {
            let lx = code_len(*x) as int;
            crate::compile::lemma_emit_len(*x, at + 1, env);
            assert(code.subrange(at, latc)[0] == code[at]);
            assert(code[at] == SpecOp::FullCapture(CapKind::Cposition, n));
            assert(code.subrange(at, latc)[lx + 1] == code[at + lx + 1]);
            assert(code[at + lx + 1] == SpecOp::FullCapture(CapKind::Cclose, n));
            assert(code.subrange(at + 1, at + 1 + lx) =~= emit(*x, at + 1, env)) by {
                assert forall|i: int| 0 <= i < lx implies (#[trigger] code.subrange(
                    at + 1,
                    at + 1 + lx,
                )[i]) == emit(*x, at + 1, env)[i] by {
                    assert(code.subrange(at + 1, at + 1 + lx)[i] == code[at + 1 + i]);
                    assert(code.subrange(at, latc)[1 + i] == code[at + 1 + i]);
                }
            }
            let copen = cap_entry(pos, CapKind::Cposition, n as int);
            let caps1 = caps.push(copen);
            let s1 = MachineState { p: Some(at + 1), i: pos, stk, caps: caps1 };
            assert(!vm_terminal(code, s0));
            assert(vm_step(code, input, s0) == s1);
            lemma_reaches_step(code, input, s0);
            lemma_emit_runs(*x, input, code, env, rules, at + 1, pos, stk, caps1, fuel);
            match geval(*x, rules, input, pos, fuel) {
                GEval::Matched(p1, c1) => {
                    let s2 = MachineState { p: Some(at + 1 + lx), i: p1, stk, caps: caps1 + c1 };
                    assert(!vm_terminal(code, s2));
                    let cclose = cap_entry(p1, CapKind::Cclose, n as int);
                    let s3 = MachineState {
                        p: Some(latc),
                        i: p1,
                        stk,
                        caps: (caps1 + c1).push(cclose),
                    };
                    assert(vm_step(code, input, s2) == s3);
                    lemma_reaches_step(code, input, s2);
                    lemma_reaches_trans(code, input, s0, s1, s2);
                    lemma_reaches_trans(code, input, s0, s2, s3);
                    let delta = seq![copen] + c1 + seq![cclose];
                    assert((caps1 + c1).push(cclose) =~= caps + delta);
                    assert(s3 == MachineState { p: Some(latc), i: p1, stk, caps: caps + delta });
                },
                GEval::NoMatch => {
                    let (ii, junk) = choose|ii: int, junk: Seq<SpecCapture>|
                        reaches(
                            code,
                            input,
                            s1,
                            MachineState { p: None, i: ii, stk, caps: caps1 + junk },
                        );
                    let s2 = MachineState { p: None, i: ii, stk, caps: caps1 + junk };
                    lemma_reaches_trans(code, input, s0, s1, s2);
                    assert(caps1 + junk =~= caps + (seq![copen] + junk));
                    assert(reaches(
                        code,
                        input,
                        s0,
                        MachineState { p: None, i: ii, stk, caps: caps + (seq![copen] + junk) },
                    ));
                },
                GEval::Hung => {
                },
            }
        },
        SpecAst::Ref(nm) => {
            crate::compile::lemma_lookup_names(env, nm);
            assert(forall|k: int|
                0 <= k < env.len() ==> (#[trigger] env[k]).0 == rules[k].0);
            lemma_lookup_pair(env, rules, nm);
            match crate::compile::lookup(env, nm) {
                Some(ad) => {
                    let j = choose|j: int|
                        0 <= j < env.len() && (#[trigger] env[j]).1 == ad && env[j].0 == nm
                            && rlookup(rules, nm) == Some(rules[j].1);
                    let b = rules[j].1;
                    let lb = code_len(b) as int;
                    crate::compile::lemma_emit_len(b, ad, env);
                    assert(code.subrange(at, at + 1)[0] == code[at]);
                    assert(code[at] == SpecOp::Call(ad - at));
                    let rseg = code.subrange(ad, ad + lb + 1);
                    assert(rseg == emit(b, ad, env) + seq![SpecOp::Ret]);
                    assert(code.subrange(ad, ad + lb) =~= emit(b, ad, env)) by {
                        assert forall|i: int| 0 <= i < lb implies (#[trigger] code.subrange(
                            ad,
                            ad + lb,
                        )[i]) == emit(b, ad, env)[i] by {
                            assert(code.subrange(ad, ad + lb)[i] == code[ad + i]);
                            assert(rseg[i] == code[ad + i]);
                        }
                    }
                    assert(code[ad + lb] == SpecOp::Ret) by {
                        assert(rseg[lb] == code[ad + lb]);
                    }
                    if fuel == 0 {
                        assert(geval(a, rules, input, pos, fuel) is Hung);
                    } else {
                        let fm = (fuel - 1) as nat;
                        let ret0 = SpecStackEntry::Ret(Some(at + 1));
                        let stkr = stk.push(ret0);
                        assert(!vm_terminal(code, s0));
                        let s1 = MachineState { p: Some(ad), i: pos, stk: stkr, caps };
                        assert(vm_step(code, input, s0) == s1);
                        lemma_reaches_step(code, input, s0);
                        lemma_emit_runs(b, input, code, env, rules, ad, pos, stkr, caps, fm);
                        match geval(b, rules, input, pos, fm) {
                            GEval::Matched(p1, c1) => {
                                let s2 = MachineState {
                                    p: Some(ad + lb),
                                    i: p1,
                                    stk: stkr,
                                    caps: caps + c1,
                                };
                                assert(stkr.last() == ret0);
                                assert(stkr.drop_last() =~= stk);
                                assert(!vm_terminal(code, s2));
                                let s3 = MachineState {
                                    p: Some(at + 1),
                                    i: p1,
                                    stk,
                                    caps: caps + c1,
                                };
                                assert(vm_step(code, input, s2) == s3);
                                lemma_reaches_step(code, input, s2);
                                lemma_reaches_trans(code, input, s0, s1, s2);
                                lemma_reaches_trans(code, input, s0, s2, s3);
                            },
                            GEval::NoMatch => {
                                let (ii, junk) = choose|ii: int, junk: Seq<SpecCapture>|
                                    reaches(
                                        code,
                                        input,
                                        s1,
                                        MachineState {
                                            p: None,
                                            i: ii,
                                            stk: stkr,
                                            caps: caps + junk,
                                        },
                                    );
                                let s2 = MachineState {
                                    p: None,
                                    i: ii,
                                    stk: stkr,
                                    caps: caps + junk,
                                };
                                lemma_reaches_trans(code, input, s0, s1, s2);
                                assert(stkr.last() == ret0);
                                assert(stkr.drop_last() =~= stk);
                                assert(!vm_terminal(code, s2));
                                let s3 = MachineState { p: None, i: ii, stk, caps: caps + junk };
                                assert(vm_step(code, input, s2) == s3);
                                lemma_reaches_step(code, input, s2);
                                lemma_reaches_trans(code, input, s0, s2, s3);
                            },
                            GEval::Hung => {
                            },
                        }
                    }
                },
                None => {
                    assert(false);
                },
            }
        },
        SpecAst::Grammar(bs, ns) => {
            let rules2 = rules_of(bs, ns);
            let env2 = crate::compile::rule_addrs(bs, ns, at);
            let rl = crate::compile::rules_len(bs) as int;
            let l0 = code_len(bs[0]) as int;
            let rcode = emit_rules(bs, at + 2, env2);
            crate::compile::lemma_emit_rules_len(bs, at + 2, env2);
            crate::compile::lemma_rule_addrs_names(bs, ns, at);
            assert(code.subrange(at, latc)[0] == code[at]);
            assert(code[at] == SpecOp::Call(2));
            assert(code.subrange(at, latc)[1] == code[at + 1]);
            assert(code[at + 1] == SpecOp::Jmp(1 + rl));
            assert(code.subrange(at + 2, at + 2 + rl) =~= rcode) by {
                assert forall|i: int| 0 <= i < rl implies (#[trigger] code.subrange(
                    at + 2,
                    at + 2 + rl,
                )[i]) == rcode[i] by {
                    assert(code.subrange(at + 2, at + 2 + rl)[i] == code[at + 2 + i]);
                    assert(code.subrange(at, latc)[2 + i] == code[at + 2 + i]);
                }
            }
            assert(env_rules_agree(code, env2, rules2)) by {
                assert forall|k: int| 0 <= k < env2.len() implies {
                    &&& (#[trigger] env2[k]).0 == (#[trigger] rules2[k]).0
                    &&& 0 <= env2[k].1
                    &&& env2[k].1 + code_len(rules2[k].1) + 1 <= code.len()
                    &&& code.subrange(env2[k].1, env2[k].1 + code_len(rules2[k].1) + 1) == emit(
                        rules2[k].1,
                        env2[k].1,
                        env2,
                    ) + seq![SpecOp::Ret]
                    &&& crate::compile::resolves(rules2[k].1, crate::compile::names_of(env2))
                    &&& crate::compile::shape_ok(rules2[k].1)
                } by {
                    let pre = crate::compile::rules_len_prefix(bs, k) as int;
                    let lk = code_len(bs[k]) as int;
                    let adk = at + 2 + pre;
                    crate::compile::lemma_rules_split(bs, k);
                    assert(crate::compile::rules_len(bs.skip(k)) >= lk + 1) by {
                        assert(bs.skip(k)[0] == bs[k]);
                        assert(bs.skip(k).len() > 0);
                    }
                    lemma_emit_rules_slice(bs, at + 2, env2, k);
                    assert(code.subrange(adk, adk + lk + 1) =~= rcode.subrange(pre, pre + lk + 1))
                        by {
                        assert forall|i: int| 0 <= i < lk + 1 implies (#[trigger] code.subrange(
                            adk,
                            adk + lk + 1,
                        )[i]) == rcode.subrange(pre, pre + lk + 1)[i] by {
                            assert(code.subrange(adk, adk + lk + 1)[i] == code[adk + i]);
                            assert(code.subrange(at + 2, at + 2 + rl)[pre + i] == code[adk + i]);
                            assert(rcode.subrange(pre, pre + lk + 1)[i] == rcode[pre + i]);
                        }
                    }
                    lemma_resolves_list_index(bs, ns, k);
                    lemma_shapes_list_index(bs, k);
                }
            }
            let ret0 = SpecStackEntry::Ret(Some(at + 1));
            let stkr = stk.push(ret0);
            assert(!vm_terminal(code, s0));
            let s1 = MachineState { p: Some(at + 2), i: pos, stk: stkr, caps };
            assert(vm_step(code, input, s0) == s1);
            lemma_reaches_step(code, input, s0);
            assert(code.subrange(at + 2, at + 2 + l0) =~= emit(bs[0], at + 2, env2)) by {
                crate::compile::lemma_rules_split(bs, 0);
                assert(crate::compile::rules_len_prefix(bs, 0) == 0);
                lemma_emit_rules_slice(bs, at + 2, env2, 0);
                crate::compile::lemma_emit_len(bs[0], at + 2, env2);
                assert forall|i: int| 0 <= i < l0 implies (#[trigger] code.subrange(
                    at + 2,
                    at + 2 + l0,
                )[i]) == emit(bs[0], at + 2, env2)[i] by {
                    assert(code.subrange(at + 2, at + 2 + l0)[i] == code[at + 2 + i]);
                    assert(code.subrange(at + 2, at + 2 + rl)[i] == code[at + 2 + i]);
                    assert(rcode.subrange(0, l0 + 1)[i] == rcode[i]);
                    assert((emit(bs[0], at + 2, env2) + seq![SpecOp::Ret])[i] == emit(
                        bs[0],
                        at + 2,
                        env2,
                    )[i]);
                }
            }
            assert(code[at + 2 + l0] == SpecOp::Ret) by {
                crate::compile::lemma_rules_split(bs, 0);
                assert(crate::compile::rules_len_prefix(bs, 0) == 0);
                lemma_emit_rules_slice(bs, at + 2, env2, 0);
                crate::compile::lemma_emit_len(bs[0], at + 2, env2);
                assert(code.subrange(at + 2, at + 2 + rl)[l0] == code[at + 2 + l0]);
                assert(rcode.subrange(0, l0 + 1)[l0] == rcode[l0]);
                assert((emit(bs[0], at + 2, env2) + seq![SpecOp::Ret])[l0] == SpecOp::Ret);
            }
            assert(env2.len() == rules2.len());
            assert(crate::compile::resolves(bs[0], crate::compile::names_of(env2))) by {
                lemma_resolves_list_index(bs, ns, 0);
            }
            assert(crate::compile::shape_ok(bs[0])) by {
                lemma_shapes_list_index(bs, 0);
            }
            assert(crate::compile::rules_len(bs) >= l0 + 1) by {
                assert(bs.skip(0) =~= bs);
                crate::compile::lemma_rules_split(bs, 0);
                assert(bs.skip(0)[0] == bs[0]);
            }
            lemma_emit_runs(bs[0], input, code, env2, rules2, at + 2, pos, stkr, caps, fuel);
            assert(geval(a, rules, input, pos, fuel) == geval(bs[0], rules2, input, pos, fuel));
            match geval(bs[0], rules2, input, pos, fuel) {
                GEval::Matched(p1, c1) => {
                    let s2 = MachineState {
                        p: Some(at + 2 + l0),
                        i: p1,
                        stk: stkr,
                        caps: caps + c1,
                    };
                    assert(stkr.last() == ret0);
                    assert(stkr.drop_last() =~= stk);
                    assert(!vm_terminal(code, s2));
                    let s3 = MachineState { p: Some(at + 1), i: p1, stk, caps: caps + c1 };
                    assert(vm_step(code, input, s2) == s3);
                    lemma_reaches_step(code, input, s2);
                    assert(!vm_terminal(code, s3));
                    let s4 = MachineState { p: Some(latc), i: p1, stk, caps: caps + c1 };
                    assert(vm_step(code, input, s3) == s4);
                    lemma_reaches_step(code, input, s3);
                    lemma_reaches_trans(code, input, s0, s1, s2);
                    lemma_reaches_trans(code, input, s0, s2, s3);
                    lemma_reaches_trans(code, input, s0, s3, s4);
                },
                GEval::NoMatch => {
                    let (ii, junk) = choose|ii: int, junk: Seq<SpecCapture>|
                        reaches(
                            code,
                            input,
                            s1,
                            MachineState { p: None, i: ii, stk: stkr, caps: caps + junk },
                        );
                    let s2 = MachineState { p: None, i: ii, stk: stkr, caps: caps + junk };
                    lemma_reaches_trans(code, input, s0, s1, s2);
                    assert(stkr.last() == ret0);
                    assert(stkr.drop_last() =~= stk);
                    assert(!vm_terminal(code, s2));
                    let s3 = MachineState { p: None, i: ii, stk, caps: caps + junk };
                    assert(vm_step(code, input, s2) == s3);
                    lemma_reaches_step(code, input, s2);
                    lemma_reaches_trans(code, input, s0, s2, s3);
                },
                GEval::Hung => {
                },
            }
        },
    }
}

/// The loop of a zero-or-more repetition, entered just past its choice
/// point: each iteration that advances slides the choice point forward, the
/// first that does not ends the loop, and a failing body falls back to the
/// last position reached.  Repetition never fails; at worst it hangs.
#[verifier::rlimit(100)]
#[verifier::spinoff_prover]
proof fn lemma_star_runs(
    x: SpecAst,
    input: Seq<char>,
    code: Seq<SpecOp>,
    env: RuleAddrs,
    rules: RuleSet,
    at: int,
    pos: int,
    stk: Seq<SpecStackEntry>,
    caps: Seq<SpecCapture>,
    fuel: nat,
)
    requires
        crate::compile::shape_ok(x),
        crate::compile::resolves(x, crate::compile::names_of(env)),
        env_rules_agree(code, env, rules),
        0 <= at,
        at + code_len(SpecAst::Star(Box::new(x))) <= code.len(),
        code.subrange(at, at + code_len(SpecAst::Star(Box::new(x)))) == emit(
            SpecAst::Star(Box::new(x)),
            at,
            env,
        ),
        0 <= pos <= input.len(),
        stk.len() >= 1,
    ensures
        !(geval(SpecAst::Star(Box::new(x)), rules, input, pos, fuel) is NoMatch),
        match geval(SpecAst::Star(Box::new(x)), rules, input, pos, fuel) {
            GEval::Matched(p2, d) => reaches(
                code,
                input,
                MachineState {
                    p: Some(at + 1),
                    i: pos,
                    stk: stk.push(
                        SpecStackEntry::Alt(
                            at + code_len(x) + 2,
                            pos,
                            caps.len() as int,
                        ),
                    ),
                    caps,
                },
                MachineState {
                    p: Some(at + code_len(x) + 2),
                    i: p2,
                    stk,
                    caps: caps + d,
                },
            ),
            GEval::NoMatch => true,
            GEval::Hung => true,
        },
    decreases fuel, input.len() - pos, SpecAst::Star(Box::new(x)), 0int,
{
    let a = SpecAst::Star(Box::new(x));
    let lx = code_len(x) as int;
    let after = at + lx + 2;
    crate::compile::lemma_emit_len(x, at + 1, env);
    assert(code.subrange(at, at + lx + 2)[lx + 1] == code[at + lx + 1]);
    assert(code[at + lx + 1] == SpecOp::PartialCommit(-lx));
    assert(code.subrange(at + 1, at + 1 + lx) =~= emit(x, at + 1, env)) by {
        assert forall|i: int| 0 <= i < lx implies (#[trigger] code.subrange(
            at + 1,
            at + 1 + lx,
        )[i]) == emit(x, at + 1, env)[i] by {
            assert(code.subrange(at + 1, at + 1 + lx)[i] == code[at + 1 + i]);
            assert(code.subrange(at, at + lx + 2)[1 + i] == code[at + 1 + i]);
        }
    }
    let alt0 = SpecStackEntry::Alt(after, pos, caps.len() as int);
    let stka = stk.push(alt0);
    let s1 = MachineState { p: Some(at + 1), i: pos, stk: stka, caps };
    lemma_emit_runs(x, input, code, env, rules, at + 1, pos, stka, caps, fuel);
    lemma_geval_bounds(x, rules, input, pos, fuel);
    match geval(x, rules, input, pos, fuel) {
        GEval::NoMatch => {
            let (ii, junk) = choose|ii: int, junk: Seq<SpecCapture>|
                reaches(
                    code,
                    input,
                    s1,
                    MachineState { p: None, i: ii, stk: stka, caps: caps + junk },
                );
            let s2 = MachineState { p: None, i: ii, stk: stka, caps: caps + junk };
            assert(!vm_terminal(code, s2));
            assert(stka.last() == alt0);
            assert(stka.drop_last() =~= stk);
            assert((caps + junk).take(caps.len() as int) =~= caps);
            let s3 = MachineState { p: Some(after), i: pos, stk, caps };
            assert(vm_step(code, input, s2) == s3);
            lemma_reaches_step(code, input, s2);
            lemma_reaches_trans(code, input, s1, s2, s3);
            assert(caps =~= caps + Seq::<SpecCapture>::empty());
            assert(s3 == MachineState { p: Some(after), i: pos, stk, caps: caps + Seq::empty() });
        },
        GEval::Matched(p1, c1) => {
            let s2 = MachineState { p: Some(at + 1 + lx), i: p1, stk: stka, caps: caps + c1 };
            assert(stka.last() == alt0);
            assert(stka.drop_last() =~= stk);
            assert(!vm_terminal(code, s2));
            if p1 == pos {
                let s3 = MachineState { p: Some(after), i: p1, stk, caps: caps + c1 };
                assert(vm_step(code, input, s2) == s3);
                lemma_reaches_step(code, input, s2);
                lemma_reaches_trans(code, input, s1, s2, s3);
            } else {
                let caps1 = caps + c1;
                let alt1 = SpecStackEntry::Alt(after, p1, caps1.len() as int);
                let s3 = MachineState { p: Some(at + 1), i: p1, stk: stk.push(alt1), caps: caps1 };
                assert(stka.drop_last().push(alt1) =~= stk.push(alt1));
                assert(vm_step(code, input, s2) == s3);
                lemma_reaches_step(code, input, s2);
                lemma_reaches_trans(code, input, s1, s2, s3);
                lemma_star_runs(x, input, code, env, rules, at, p1, stk, caps1, fuel);
                match geval(a, rules, input, p1, fuel) {
                    GEval::Matched(p2, d2) => {
                        let s4 = MachineState { p: Some(after), i: p2, stk, caps: caps1 + d2 };
                        lemma_reaches_trans(code, input, s1, s3, s4);
                        assert(caps1 + d2 =~= caps + (c1 + d2));
                        assert(s4 == MachineState {
                            p: Some(after),
                            i: p2,
                            stk,
                            caps: caps + (c1 + d2),
                        });
                    },
                    GEval::NoMatch => {
                    },
                    GEval::Hung => {
                    },
                }
            }
        },
        GEval::Hung => {
        },
    }
}

/// The whole-program theorem for full patterns: where the fuel-indexed
/// evaluation of a compilable pattern settles at some budget, the compiled
/// program halts on that input, reaches no internal invariant violation,
/// and its one terminal state is the success or failure evaluation
/// prescribes — on success with exactly the evaluation's position and
/// capture list.  Where evaluation hangs at the given budget, nothing is
/// claimed.
pub proof fn lemma_compiled_outcome(a: SpecAst, input: Seq<char>, fuel: nat)
    requires
        crate::compile::shape_ok(a),
        crate::compile::resolves(a, Seq::empty()),
    ensures
        match geval(a, Seq::empty(), input, 0, fuel) {
            GEval::Matched(p1, d) => {
                &&& vm_halts(compiled(a), input)
                &&& vm_sound(compiled(a), input)
                &&& forall|m: nat|
                    vm_terminal(compiled(a), #[trigger] vm_run(compiled(a), input, vm_init(), m))
                        ==> vm_run(compiled(a), input, vm_init(), m) == (MachineState {
                        p: Some(compiled(a).len() as int),
                        i: p1,
                        stk: seq![SpecStackEntry::Ret(None)],
                        caps: d,
                    })
            },
            GEval::NoMatch => {
                &&& vm_halts(compiled(a), input)
                &&& vm_sound(compiled(a), input)
                &&& forall|m: nat|
                    vm_terminal(compiled(a), #[trigger] vm_run(compiled(a), input, vm_init(), m))
                        ==> vm_failure(vm_run(compiled(a), input, vm_init(), m))
            },
            GEval::Hung => true,
        },
{
    let code = compiled(a);
    let l = code_len(a) as int;
    crate::compile::lemma_emit_len(a, 0, Seq::empty());
    assert(code.len() == l + 1);
    assert(code.subrange(0, l) =~= emit(a, 0, Seq::empty())) by {
        assert forall|i: int| 0 <= i < l implies (#[trigger] code.subrange(0, l)[i]) == emit(
            a,
            0,
            Seq::empty(),
        )[i] by {
            assert(code.subrange(0, l)[i] == code[i]);
            assert(code[i] == emit(a, 0, Seq::empty()).push(SpecOp::End)[i]);
        }
    }
    let sent = seq![SpecStackEntry::Ret(None::<int>)];
    let caps0 = Seq::<SpecCapture>::empty();
    let s0 = MachineState { p: Some(0), i: 0, stk: sent, caps: caps0 };
    assert(s0 == vm_init());
    assert(crate::compile::resolves(a, crate::compile::names_of(Seq::empty()))) by {
        assert(crate::compile::names_of(Seq::empty()) =~= Seq::<Seq<char>>::empty());
    }
    assert(env_rules_agree(code, Seq::empty(), Seq::empty()));
    lemma_emit_runs(a, input, code, Seq::empty(), Seq::empty(), 0, 0, sent, caps0, fuel);
    match geval(a, Seq::empty(), input, 0, fuel) {
        GEval::Matched(p1, d) => {
            let s1 = MachineState { p: Some(l), i: p1, stk: sent, caps: caps0 + d };
            assert(code[l] == SpecOp::End);
            assert(!vm_terminal(code, s1));
            let s2 = MachineState { p: Some(l + 1), i: p1, stk: sent, caps: caps0 + d };
            assert(vm_step(code, input, s1) == s2);
            lemma_reaches_step(code, input, s1);
            lemma_reaches_trans(code, input, s0, s1, s2);
            assert(caps0 + d =~= d);
            let fin = MachineState { p: Some(code.len() as int), i: p1, stk: sent, caps: d };
            assert(s2 == fin);
            assert(vm_success(code, fin));
            let n0 = choose|n: nat| vm_run(code, input, s0, n) == fin;
            assert(vm_terminal(code, vm_run(code, input, vm_init(), n0)));
            assert forall|m: nat|
                vm_terminal(code, #[trigger] vm_run(code, input, vm_init(), m)) implies vm_run(
                code,
                input,
                vm_init(),
                m,
            ) == fin by {
                crate::vm::lemma_terminal_unique(code, input, vm_init(), m, n0);
            }
            assert forall|m: nat| !vm_fault(code, #[trigger] vm_run(code, input, vm_init(), m))
                by {
                if vm_fault(code, vm_run(code, input, vm_init(), m)) {
                    assert(vm_terminal(code, vm_run(code, input, vm_init(), m)));
                    assert(vm_run(code, input, vm_init(), m) == fin);
                }
            }
        },
        GEval::NoMatch => {
            let (ii, junk) = choose|ii: int, junk: Seq<SpecCapture>|
                reaches(
                    code,
                    input,
                    s0,
                    MachineState { p: None, i: ii, stk: sent, caps: caps0 + junk },
                );
            let fin = MachineState { p: None, i: ii, stk: sent, caps: caps0 + junk };
            assert(vm_failure(fin));
            let n0 = choose|n: nat| vm_run(code, input, s0, n) == fin;
            assert(vm_terminal(code, vm_run(code, input, vm_init(), n0)));
            assert forall|m: nat|
                vm_terminal(code, #[trigger] vm_run(code, input, vm_init(), m)) implies vm_failure(
                vm_run(code, input, vm_init(), m),
            ) by {
                crate::vm::lemma_terminal_unique(code, input, vm_init(), m, n0);
            }
            assert forall|m: nat| !vm_fault(code, #[trigger] vm_run(code, input, vm_init(), m))
                by {
                if vm_fault(code, vm_run(code, input, vm_init(), m)) {
                    assert(vm_terminal(code, vm_run(code, input, vm_init(), m)));
                    assert(vm_run(code, input, vm_init(), m) == fin);
                }
            }
        },
        GEval::Hung => {
        },
    }
}

/// A call-free pattern is well shaped and resolves against any names.
proof fn lemma_call_free_wf(a: SpecAst, ns: Seq<Seq<char>>)
    requires
        call_free(a),
    ensures
        crate::compile::shape_ok(a),
        crate::compile::resolves(a, ns),
    decreases a,
{
    match a {
        SpecAst::Cat(x, y) => {
            lemma_call_free_wf(*x, ns);
            lemma_call_free_wf(*y, ns);
        },
        SpecAst::Choice(x, y) => {
            lemma_call_free_wf(*x, ns);
            lemma_call_free_wf(*y, ns);
        },
        SpecAst::Star(x) => {
            lemma_call_free_wf(*x, ns);
        },
        SpecAst::Not(x) => {
            lemma_call_free_wf(*x, ns);
        },
        SpecAst::Cap(_, x) => {
            lemma_call_free_wf(*x, ns);
        },
        _ => {},
    }
}

/// A call-free pattern needs no rules and no fuel: its evaluation agrees
/// with [`aeval`] under any rule set and any budget.
proof fn lemma_call_free_geval(
    a: SpecAst,
    rules: RuleSet,
    input: Seq<char>,
    pos: int,
    fuel: nat,
)
    requires
        call_free(a),
    ensures
        geval(a, rules, input, pos, fuel) == (match aeval(a, input, pos) {
            EvalResult::Matched(p, d) => GEval::Matched(p, d),
            EvalResult::NoMatch => GEval::NoMatch,
        }),
    decreases input.len() - pos, a,
{
    match a {
        SpecAst::Cat(x, y) => {
            lemma_call_free_geval(*x, rules, input, pos, fuel);
            if let EvalResult::Matched(p1, _) = aeval(*x, input, pos) {
                if pos <= p1 <= input.len() {
                    lemma_call_free_geval(*y, rules, input, p1, fuel);
                }
            }
        },
        SpecAst::Choice(x, y) => {
            lemma_call_free_geval(*x, rules, input, pos, fuel);
            lemma_call_free_geval(*y, rules, input, pos, fuel);
        },
        SpecAst::Star(x) => {
            lemma_call_free_geval(*x, rules, input, pos, fuel);
            if let EvalResult::Matched(p1, _) = aeval(*x, input, pos) {
                if pos < p1 <= input.len() {
                    lemma_call_free_geval(a, rules, input, p1, fuel);
                }
            }
        },
        SpecAst::Not(x) => {
            lemma_call_free_geval(*x, rules, input, pos, fuel);
        },
        SpecAst::Cap(_, x) => {
            lemma_call_free_geval(*x, rules, input, pos, fuel);
        },
        _ => {},
    }
}

/// The whole-program corollary: a compiled call-free pattern halts on every
/// input, reaches no internal invariant violation, and its one terminal
/// state is the success or failure that [`aeval`] prescribes — on success
/// with exactly the evaluation's position and capture list.
pub proof fn lemma_compiled_runs(a: SpecAst, input: Seq<char>)
    requires
        call_free(a),
    ensures
        vm_halts(compiled(a), input),
        vm_sound(compiled(a), input),
        match aeval(a, input, 0) {
            EvalResult::Matched(p1, d) => forall|m: nat|
                vm_terminal(compiled(a), #[trigger] vm_run(compiled(a), input, vm_init(), m))
                    ==> vm_run(compiled(a), input, vm_init(), m) == (MachineState {
                    p: Some(compiled(a).len() as int),
                    i: p1,
                    stk: seq![SpecStackEntry::Ret(None)],
                    caps: d,
                }),
            EvalResult::NoMatch => forall|m: nat|
                vm_terminal(compiled(a), #[trigger] vm_run(compiled(a), input, vm_init(), m))
                    ==> vm_failure(vm_run(compiled(a), input, vm_init(), m)),
        },
{
    lemma_call_free_wf(a, Seq::empty());
    lemma_compiled_outcome(a, input, 0);
    lemma_call_free_geval(a, Seq::empty(), input, 0, 0);
}

/// A literal matches itself: compiled and run against input equal to the
/// literal, the match succeeds, consumes the whole input, and records no
/// captures.
pub proof fn lemma_literal_matches_itself(s: Seq<char>, f: Flags)
    ensures
        vm_halts(compiled(SpecAst::Lit(s, f)), s),
        vm_sound(compiled(SpecAst::Lit(s, f)), s),
        forall|m: nat|
            vm_terminal(
                compiled(SpecAst::Lit(s, f)),
                #[trigger] vm_run(compiled(SpecAst::Lit(s, f)), s, vm_init(), m),
            ) ==> vm_run(compiled(SpecAst::Lit(s, f)), s, vm_init(), m) == (MachineState {
                p: Some(compiled(SpecAst::Lit(s, f)).len() as int),
                i: s.len() as int,
                stk: seq![SpecStackEntry::Ret(None)],
                caps: Seq::empty(),
            }),
{
    let a = SpecAst::Lit(s, f);
    assert(s.subrange(0, s.len() as int) =~= s);
    assert(aeval(a, s, 0) == EvalResult::Matched(s.len() as int, Seq::<SpecCapture>::empty()));
    lemma_compiled_runs(a, s);
}

/// A pattern the compiler accepts, size apart: grammars well shaped, every
/// rule reference bound by its grammar.
pub open spec fn well_formed(a: SpecAst) -> bool {
    crate::compile::shape_ok(a) && crate::compile::resolves(a, Seq::empty())
}

/// Zero-or-one never fails: where the body fails at the start of the input,
/// the compiled `e?` still succeeds, consuming nothing and recording
/// nothing.
pub proof fn lemma_zero_or_one_never_fails(x: SpecAst, input: Seq<char>, fuel: nat)
    requires
        well_formed(x),
        geval(x, Seq::empty(), input, 0, fuel) is NoMatch,
    ensures
        ({
            let a = SpecAst::Choice(Box::new(x), Box::new(SpecAst::Empty));
            &&& vm_halts(compiled(a), input)
            &&& vm_sound(compiled(a), input)
            &&& forall|m: nat|
                vm_terminal(compiled(a), #[trigger] vm_run(compiled(a), input, vm_init(), m))
                    ==> vm_run(compiled(a), input, vm_init(), m) == (MachineState {
                    p: Some(compiled(a).len() as int),
                    i: 0,
                    stk: seq![SpecStackEntry::Ret(None)],
                    caps: Seq::empty(),
                })
        }),
{
    let a = SpecAst::Choice(Box::new(x), Box::new(SpecAst::Empty));
    assert(crate::compile::shape_ok(SpecAst::Empty));
    assert(crate::compile::resolves(SpecAst::Empty, Seq::empty()));
    assert(geval(SpecAst::Empty, Seq::empty(), input, 0, fuel) == GEval::Matched(
        0int,
        Seq::<SpecCapture>::empty(),
    ));
    assert(geval(a, Seq::empty(), input, 0, fuel) == GEval::Matched(
        0int,
        Seq::<SpecCapture>::empty(),
    ));
    lemma_compiled_outcome(a, input, fuel);
}

/// Ordered choice is left-biased: where the first alternative matches, the
/// compiled choice gives exactly the first alternative's result, captures
/// included, whatever the second could have done.
pub proof fn lemma_choice_left_biased(x: SpecAst, y: SpecAst, input: Seq<char>, fuel: nat)
    requires
        well_formed(x),
        well_formed(y),
        geval(x, Seq::empty(), input, 0, fuel) is Matched,
    ensures
        ({
            let a = SpecAst::Choice(Box::new(x), Box::new(y));
            match geval(x, Seq::empty(), input, 0, fuel) {
                GEval::Matched(p1, d) => {
                    &&& vm_halts(compiled(a), input)
                    &&& vm_sound(compiled(a), input)
                    &&& forall|m: nat|
                        vm_terminal(
                            compiled(a),
                            #[trigger] vm_run(compiled(a), input, vm_init(), m),
                        ) ==> vm_run(compiled(a), input, vm_init(), m) == (MachineState {
                            p: Some(compiled(a).len() as int),
                            i: p1,
                            stk: seq![SpecStackEntry::Ret(None)],
                            caps: d,
                        })
                },
                _ => true,
            }
        }),
{
    let a = SpecAst::Choice(Box::new(x), Box::new(y));
    assert(geval(a, Seq::empty(), input, 0, fuel) == geval(x, Seq::empty(), input, 0, fuel));
    lemma_compiled_outcome(a, input, fuel);
}

/// A zero-or-more repetition of the empty literal terminates on every
/// input, consuming nothing: the loop ends at the first iteration that
/// fails to advance.
pub proof fn lemma_empty_star_terminates(f: Flags, input: Seq<char>)
    ensures
        ({
            let a = SpecAst::Star(Box::new(SpecAst::Lit(Seq::empty(), f)));
            &&& vm_halts(compiled(a), input)
            &&& vm_sound(compiled(a), input)
            &&& forall|m: nat|
                vm_terminal(compiled(a), #[trigger] vm_run(compiled(a), input, vm_init(), m))
                    ==> vm_run(compiled(a), input, vm_init(), m) == (MachineState {
                    p: Some(compiled(a).len() as int),
                    i: 0,
                    stk: seq![SpecStackEntry::Ret(None)],
                    caps: Seq::empty(),
                })
        }),
{
    let e = SpecAst::Lit(Seq::<char>::empty(), f);
    let a = SpecAst::Star(Box::new(e));
    assert(call_free(e));
    assert(input.subrange(0, 0) =~= Seq::<char>::empty());
    assert(aeval(e, input, 0) == EvalResult::Matched(0int, Seq::<SpecCapture>::empty()));
    assert(aeval(a, input, 0) == EvalResult::Matched(0int, Seq::<SpecCapture>::empty()));
    lemma_compiled_runs(a, input);
}

/// Negative lookahead consumes no input on either outcome: compiled `!e`
/// succeeds consuming nothing exactly where `e` fails, and fails outright —
/// position-free, as every failure is — exactly where `e` matches.
pub proof fn lemma_negative_lookahead_consumes_nothing(x: SpecAst, input: Seq<char>, fuel: nat)
    requires
        well_formed(x),
        !(geval(x, Seq::empty(), input, 0, fuel) is Hung),
    ensures
        ({
            let a = SpecAst::Not(Box::new(x));
            &&& vm_halts(compiled(a), input)
            &&& vm_sound(compiled(a), input)
            &&& geval(x, Seq::empty(), input, 0, fuel) is NoMatch ==> forall|m: nat|
                vm_terminal(compiled(a), #[trigger] vm_run(compiled(a), input, vm_init(), m))
                    ==> vm_run(compiled(a), input, vm_init(), m) == (MachineState {
                    p: Some(compiled(a).len() as int),
                    i: 0,
                    stk: seq![SpecStackEntry::Ret(None)],
                    caps: Seq::empty(),
                })
            &&& geval(x, Seq::empty(), input, 0, fuel) is Matched ==> forall|m: nat|
                vm_terminal(compiled(a), #[trigger] vm_run(compiled(a), input, vm_init(), m))
                    ==> vm_failure(vm_run(compiled(a), input, vm_init(), m))
        }),
{
    let a = SpecAst::Not(Box::new(x));
    lemma_compiled_outcome(a, input, fuel);
}

/// A capture brackets its body's entries exactly: on success the compiled
/// capture yields an opening entry at the start position, the body's own
/// entries, and a closing entry at the end position — the recorded span is
/// the body's match, no more and no less.
pub proof fn lemma_capture_brackets(n: usize, x: SpecAst, input: Seq<char>, fuel: nat)
    requires
        well_formed(x),
        !(geval(x, Seq::empty(), input, 0, fuel) is Hung),
    ensures
        ({
            let a = SpecAst::Cap(n, Box::new(x));
            &&& vm_halts(compiled(a), input)
            &&& vm_sound(compiled(a), input)
            &&& match geval(x, Seq::empty(), input, 0, fuel) {
                GEval::Matched(p1, c1) => forall|m: nat|
                    vm_terminal(compiled(a), #[trigger] vm_run(compiled(a), input, vm_init(), m))
                        ==> vm_run(compiled(a), input, vm_init(), m) == (MachineState {
                        p: Some(compiled(a).len() as int),
                        i: p1,
                        stk: seq![SpecStackEntry::Ret(None)],
                        caps: seq![cap_entry(0, CapKind::Cposition, n as int)] + c1 + seq![
                            cap_entry(p1, CapKind::Cclose, n as int),
                        ],
                    }),
                GEval::NoMatch => forall|m: nat|
                    vm_terminal(compiled(a), #[trigger] vm_run(compiled(a), input, vm_init(), m))
                        ==> vm_failure(vm_run(compiled(a), input, vm_init(), m)),
                GEval::Hung => true,
            }
        }),
{
    let a = SpecAst::Cap(n, Box::new(x));
    lemma_compiled_outcome(a, input, fuel);
}

/// Positive lookahead consumes no input on success: where `e` matches,
/// compiled `&e` — negative lookahead applied twice — succeeds consuming
/// nothing and recording nothing.
pub proof fn lemma_positive_lookahead_consumes_nothing(x: SpecAst, input: Seq<char>, fuel: nat)
    requires
        well_formed(x),
        geval(x, Seq::empty(), input, 0, fuel) is Matched,
    ensures
        ({
            let a = SpecAst::Not(Box::new(SpecAst::Not(Box::new(x))));
            &&& vm_halts(compiled(a), input)
            &&& vm_sound(compiled(a), input)
            &&& forall|m: nat|
                vm_terminal(compiled(a), #[trigger] vm_run(compiled(a), input, vm_init(), m))
                    ==> vm_run(compiled(a), input, vm_init(), m) == (MachineState {
                    p: Some(compiled(a).len() as int),
                    i: 0,
                    stk: seq![SpecStackEntry::Ret(None)],
                    caps: Seq::empty(),
                })
        }),
{
    let nx = SpecAst::Not(Box::new(x));
    let a = SpecAst::Not(Box::new(nx));
    assert(crate::compile::shape_ok(nx));
    assert(crate::compile::resolves(nx, Seq::empty()));
    assert(geval(nx, Seq::empty(), input, 0, fuel) is NoMatch);
    assert(geval(a, Seq::empty(), input, 0, fuel) == GEval::Matched(
        0int,
        Seq::<SpecCapture>::empty(),
    ));
    lemma_compiled_outcome(a, input, fuel);
}

/// The body of the right-recursive rule `A <- 'a' A / 'a'`.
pub open spec fn rr_body() -> SpecAst {
    SpecAst::Choice(
        Box::new(SpecAst::Cat(
            Box::new(SpecAst::Lit(seq!['a'], FLAG_NORMAL)),
            Box::new(SpecAst::Ref(seq!['A'])),
        )),
        Box::new(SpecAst::Lit(seq!['a'], FLAG_NORMAL)),
    )
}

/// The grammar holding that one rule.
pub open spec fn rr_grammar() -> SpecAst {
    SpecAst::Grammar(seq![rr_body()], seq![seq!['A']])
}

/// Its rule set.
pub open spec fn rr_rules() -> RuleSet {
    rules_of(seq![rr_body()], seq![seq!['A']])
}

/// On an all-`a` input the rule body consumes everything that is left,
/// given a call budget of at least one per remaining character.
proof fn lemma_rr_eval(input: Seq<char>, pos: int, fuel: nat)
    requires
        forall|i: int| 0 <= i < input.len() ==> input[i] == 'a',
        0 <= pos < input.len(),
        fuel >= input.len() - pos,
    ensures
        geval(rr_body(), rr_rules(), input, pos, fuel) == GEval::Matched(
            input.len() as int,
            Seq::<SpecCapture>::empty(),
        ),
    decreases input.len() - pos,
{
    let lita = SpecAst::Lit(seq!['a'], FLAG_NORMAL);
    let refa = SpecAst::Ref(seq!['A']);
    let len = input.len() as int;
    assert(input.subrange(pos, pos + 1) =~= seq!['a']);
    assert(geval(lita, rr_rules(), input, pos, fuel) == GEval::Matched(
        pos + 1,
        Seq::<SpecCapture>::empty(),
    ));
    assert(rr_rules()[0] == (seq!['A'], rr_body()));
    assert(rlookup(rr_rules(), seq!['A']) == Some(rr_body()));
    let fm = (fuel - 1) as nat;
    if pos + 1 < len {
        lemma_rr_eval(input, pos + 1, fm);
        assert(geval(refa, rr_rules(), input, pos + 1, fuel) == GEval::Matched(
            len,
            Seq::<SpecCapture>::empty(),
        ));
        assert(Seq::<SpecCapture>::empty() + Seq::<SpecCapture>::empty() =~= Seq::<
            SpecCapture,
        >::empty());
        assert(geval(
            SpecAst::Cat(Box::new(lita), Box::new(refa)),
            rr_rules(),
            input,
            pos,
            fuel,
        ) == GEval::Matched(len, Seq::<SpecCapture>::empty()));
    } else {
        // The recursive call stands at the end of the input and fails, so
        // the second alternative closes the run.
        assert(geval(lita, rr_rules(), input, len, fm) == GEval::NoMatch);
        assert(geval(
            SpecAst::Cat(Box::new(lita), Box::new(refa)),
            rr_rules(),
            input,
            len,
            fm,
        ) == GEval::NoMatch);
        assert(geval(rr_body(), rr_rules(), input, len, fm) == GEval::NoMatch);
        assert(geval(refa, rr_rules(), input, len, fuel) == GEval::NoMatch);
        assert(geval(
            SpecAst::Cat(Box::new(lita), Box::new(refa)),
            rr_rules(),
            input,
            pos,
            fuel,
        ) == GEval::NoMatch);
        assert(geval(rr_body(), rr_rules(), input, pos, fuel) == GEval::Matched(
            len,
            Seq::<SpecCapture>::empty(),
        ));
    }
}

/// Grammar recursion: the right-recursive rule `A <- 'a' A / 'a'`,
/// compiled as a grammar, consumes the whole of any non-empty all-`a`
/// input, and fails on the empty input — halting either way.
pub proof fn lemma_right_recursion(input: Seq<char>)
    requires
        forall|i: int| 0 <= i < input.len() ==> input[i] == 'a',
    ensures
        vm_halts(compiled(rr_grammar()), input),
        vm_sound(compiled(rr_grammar()), input),
        input.len() > 0 ==> forall|m: nat|
            vm_terminal(
                compiled(rr_grammar()),
                #[trigger] vm_run(compiled(rr_grammar()), input, vm_init(), m),
            ) ==> vm_run(compiled(rr_grammar()), input, vm_init(), m) == (MachineState {
                p: Some(compiled(rr_grammar()).len() as int),
                i: input.len() as int,
                stk: seq![SpecStackEntry::Ret(None)],
                caps: Seq::empty(),
            }),
        input.len() == 0 ==> forall|m: nat|
            vm_terminal(
                compiled(rr_grammar()),
                #[trigger] vm_run(compiled(rr_grammar()), input, vm_init(), m),
            ) ==> vm_failure(vm_run(compiled(rr_grammar()), input, vm_init(), m)),
{
    let g = rr_grammar();
    let lita = SpecAst::Lit(seq!['a'], FLAG_NORMAL);
    let refa = SpecAst::Ref(seq!['A']);
    let ns = seq![seq!['A']];
    assert(crate::compile::shape_ok(g)) by {
        assert(crate::compile::shape_ok(lita));
        assert(crate::compile::shape_ok(refa));
        assert(crate::compile::shape_ok(SpecAst::Cat(Box::new(lita), Box::new(refa))));
        assert(crate::compile::shape_ok(rr_body()));
        assert(crate::compile::shapes_list(seq![rr_body()].drop_first()));
        assert(crate::compile::shapes_list(seq![rr_body()]));
    }
    assert(crate::compile::resolves(g, Seq::empty())) by {
        assert(ns[0] == seq!['A']);
        assert(ns.contains(seq!['A']));
        assert(crate::compile::resolves(refa, ns));
        assert(crate::compile::resolves(lita, ns));
        assert(crate::compile::resolves(SpecAst::Cat(Box::new(lita), Box::new(refa)), ns));
        assert(crate::compile::resolves(rr_body(), ns));
        assert(crate::compile::resolves_list(seq![rr_body()].drop_first(), ns));
        assert(crate::compile::resolves_list(seq![rr_body()], ns));
    }
    let fuel = input.len();
    assert(seq![rr_body()][0] == rr_body());
    if input.len() > 0 {
        lemma_rr_eval(input, 0, fuel);
        assert(geval(g, Seq::empty(), input, 0, fuel) == GEval::Matched(
            input.len() as int,
            Seq::<SpecCapture>::empty(),
        ));
    } else {
        assert(geval(lita, rr_rules(), input, 0, fuel) == GEval::NoMatch);
        assert(geval(
            SpecAst::Cat(Box::new(lita), Box::new(refa)),
            rr_rules(),
            input,
            0,
            fuel,
        ) == GEval::NoMatch);
        assert(geval(rr_body(), rr_rules(), input, 0, fuel) == GEval::NoMatch);
        assert(geval(g, Seq::empty(), input, 0, fuel) == GEval::NoMatch);
    }
    lemma_compiled_outcome(g, input, fuel);
}

} // verus!
