//! The pattern syntax tree: what a parsing expression looks like before it
//! is compiled to bytecode, together with its mathematical view.
//!
//! An [`Ast`] is finite and acyclic; recursion in grammars is expressed only
//! through named rule references inside a [`Ast::Grammar`] node, never by a
//! node containing itself.  The view of an [`Ast`] is a [`SpecAst`], a ghost
//! tree in which the convenience forms (n-ary concatenation and choice, the
//! three repetition shapes, positive lookahead) are reduced to a small core,
//! so that the compiler and the machine semantics speak one language.

use vstd::prelude::*;

verus! {

/// Option bits carried by literal, any-character and class nodes.
pub type Flags = u8;

/// No options: match exactly.
pub const FLAG_NORMAL: u8 = 0;

/// Case-insensitive request; recorded on the node, but matching compares
/// characters exactly, as the machine's step table prescribes.
pub const FLAG_NOCASE: u8 = 1 << 0;

/// A negated character class: match a character outside every range.
pub const FLAG_NEGATED: u8 = 1 << 4;

/// How often a repetition node repeats its body.
#[derive(Debug, PartialEq, Eq, Structural, Clone, Copy)]
pub enum Repeater {
    ZeroOne,
    ZeroMore,
    OneMore,
}

/// A parsing expression.
///
/// `Cat` is ordered concatenation (every part must match, positions chain);
/// `Alt` is ordered choice (first successful alternative wins).  `Ref` names
/// a rule of the innermost enclosing `Grammar`, whose rules are given as a
/// vector of bodies beside a vector of names of the same length; rule 0 is
/// the start rule.
#[derive(Debug)]
pub enum Ast {
    /// The empty string, matches everywhere consuming nothing.
    Nil,
    /// A literal character sequence.
    Lit(String, Flags),
    /// Any single character.
    Dot(Flags),
    /// A character class: inclusive ranges, negated when `FLAG_NEGATED` is set.
    Cls(Vec<(char, char)>, Flags),
    /// Concatenation of sub-expressions, in order.
    Cat(Vec<Ast>),
    /// Ordered choice among sub-expressions.
    Alt(Vec<Ast>),
    /// Repetition of one sub-expression.
    Rep(Box<Ast>, Repeater),
    /// Positive lookahead: the body must match, nothing is consumed.
    And(Box<Ast>),
    /// Negative lookahead: succeeds exactly when the body fails, consuming
    /// nothing either way.
    Not(Box<Ast>),
    /// A numbered, optionally named capture around one sub-expression.
    Cap(usize, Option<String>, Box<Ast>),
    /// A reference to a named rule of the enclosing grammar.
    Ref(String),
    /// A grammar: rule bodies beside rule names, rule 0 first.
    Grammar(Vec<Ast>, Vec<String>),
}

/// The ghost core of the pattern language.
///
/// The compiler's specification and the machine's semantics are stated over
/// this type.  It has binary concatenation and choice only; the view of an
/// [`Ast`] folds the n-ary forms into it, turns `e?` into `e / ε`, `e+` into
/// `e e*`, and `&e` into `!!e`.
pub enum SpecAst {
    /// Matches nothing (the empty ordered choice).
    Never,
    /// The empty string.
    Empty,
    /// A literal character sequence.
    Lit(Seq<char>, Flags),
    /// Any single character.
    Dot(Flags),
    /// A character class.
    Cls(Seq<(char, char)>, Flags),
    /// `a` then `b`.
    Cat(Box<SpecAst>, Box<SpecAst>),
    /// `a`, or `b` where `a` fails, the subject position restored in between.
    Choice(Box<SpecAst>, Box<SpecAst>),
    /// Zero or more repetitions of the body.
    Star(Box<SpecAst>),
    /// Negative lookahead.
    Not(Box<SpecAst>),
    /// A numbered capture.
    Cap(usize, Box<SpecAst>),
    /// A reference to a named rule.
    Ref(Seq<char>),
    /// A grammar: rule bodies beside rule names.
    Grammar(Seq<SpecAst>, Seq<Seq<char>>),
}

/// The view of a pattern: its meaning as a core expression.
pub open spec fn ast_view(a: Ast) -> SpecAst
    decreases a,
{
    match a {
        Ast::Nil => SpecAst::Empty,
        Ast::Lit(s, f) => SpecAst::Lit(s@, f),
        Ast::Dot(f) => SpecAst::Dot(f),
        Ast::Cls(rs, f) => SpecAst::Cls(rs@, f),
        Ast::Cat(es) => cat_fold(es@),
        Ast::Alt(es) => alt_fold(es@),
        Ast::Rep(e, r) => match r {
            Repeater::ZeroOne => SpecAst::Choice(Box::new(ast_view(*e)), Box::new(SpecAst::Empty)),
            Repeater::ZeroMore => SpecAst::Star(Box::new(ast_view(*e))),
            Repeater::OneMore => SpecAst::Cat(
                Box::new(ast_view(*e)),
                Box::new(SpecAst::Star(Box::new(ast_view(*e)))),
            ),
        },
        Ast::And(e) => SpecAst::Not(Box::new(SpecAst::Not(Box::new(ast_view(*e))))),
        Ast::Not(e) => SpecAst::Not(Box::new(ast_view(*e))),
        Ast::Cap(n, _name, e) => SpecAst::Cap(n, Box::new(ast_view(*e))),
        Ast::Ref(name) => SpecAst::Ref(name@),
        Ast::Grammar(bodies, names) => SpecAst::Grammar(
            views_of(bodies@),
            names@.map_values(|n: String| n@),
        ),
    }
}

/// Folds a concatenation list: empty is the empty string, a singleton is
/// itself, a longer list nests to the right.
pub open spec fn cat_fold(s: Seq<Ast>) -> SpecAst
    decreases s, 1int,
{
    if s.len() == 0 {
        SpecAst::Empty
    } else if s.len() == 1 {
        ast_view(s[0])
    } else {
        SpecAst::Cat(Box::new(ast_view(s[0])), Box::new(cat_fold(s.drop_first())))
    }
}

/// Folds an ordered-choice list: empty matches nothing, a singleton is
/// itself, a longer list nests to the right.
pub open spec fn alt_fold(s: Seq<Ast>) -> SpecAst
    decreases s, 1int,
{
    if s.len() == 0 {
        SpecAst::Never
    } else if s.len() == 1 {
        ast_view(s[0])
    } else {
        SpecAst::Choice(Box::new(ast_view(s[0])), Box::new(alt_fold(s.drop_first())))
    }
}

/// The views of every element of a rule-body list, in order.
pub open spec fn views_of(s: Seq<Ast>) -> Seq<SpecAst>
    decreases s, 1int,
{
    if s.len() == 0 {
        Seq::empty()
    } else {
        views_of(s.drop_last()).push(ast_view(s.last()))
    }
}

/// What [`views_of`] holds: the view of each element, in place.
pub proof fn lemma_views_of(s: Seq<Ast>)
    ensures
        views_of(s).len() == s.len(),
        forall|i: int| 0 <= i < s.len() ==> views_of(s)[i] == ast_view(s[i]),
    decreases s,
{
    if s.len() > 0 {
        lemma_views_of(s.drop_last());
        assert(forall|i: int| 0 <= i < s.len() - 1 ==> s.drop_last()[i] == s[i]);
    }
}

impl View for Ast {
    type V = SpecAst;

    open spec fn view(&self) -> SpecAst {
        ast_view(*self)
    }
}

/// Zero or more repetitions: `e*`.
pub fn many(ast: Ast) -> (r: Ast)
    ensures
        r@ == SpecAst::Star(Box::new(ast@)),
{
    Ast::Rep(Box::new(ast), Repeater::ZeroMore)
}

/// One or more repetitions: `e+`.
pub fn some(ast: Ast) -> (r: Ast)
    ensures
        r@ == (SpecAst::Cat(Box::new(ast@), Box::new(SpecAst::Star(Box::new(ast@))))),
{
    Ast::Rep(Box::new(ast), Repeater::OneMore)
}

/// Zero or one repetition: `e?`.
pub fn opt(ast: Ast) -> (r: Ast)
    ensures
        r@ == (SpecAst::Choice(Box::new(ast@), Box::new(SpecAst::Empty))),
{
    Ast::Rep(Box::new(ast), Repeater::ZeroOne)
}

/// `a1` followed by `a2`.
pub fn seq(a1: Ast, a2: Ast) -> (r: Ast)
    ensures
        r@ == (SpecAst::Cat(Box::new(a1@), Box::new(a2@))),
{
    let ghost (g1, g2) = (a1@, a2@);
    let mut es: Vec<Ast> = Vec::new();
    es.push(a1);
    es.push(a2);
    proof {
        let t = es@.drop_first();
        assert(t =~= seq![es@[1]]);
        assert(cat_fold(t) == ast_view(t[0]));
        assert(cat_fold(es@) == SpecAst::Cat(Box::new(g1), Box::new(g2)));
    }
    Ast::Cat(es)
}

/// `a1 a2 a3` in order.
pub fn seq3(a1: Ast, a2: Ast, a3: Ast) -> (r: Ast)
    ensures
        r@ == (SpecAst::Cat(
            Box::new(a1@),
            Box::new(SpecAst::Cat(Box::new(a2@), Box::new(a3@))),
        )),
{
    seq(a1, seq(a2, a3))
}

/// `a1 a2 a3 a4` in order.
pub fn seq4(a1: Ast, a2: Ast, a3: Ast, a4: Ast) -> (r: Ast)
    ensures
        r@ == (SpecAst::Cat(
            Box::new(a1@),
            Box::new(SpecAst::Cat(
                Box::new(a2@),
                Box::new(SpecAst::Cat(Box::new(a3@), Box::new(a4@))),
            )),
        )),
{
    seq(a1, seq(a2, seq(a3, a4)))
}

/// `a1 a2 a3 a4 a5` in order.
pub fn seq5(a1: Ast, a2: Ast, a3: Ast, a4: Ast, a5: Ast) -> (r: Ast)
    ensures
        r@ == (SpecAst::Cat(
            Box::new(a1@),
            Box::new(SpecAst::Cat(
                Box::new(a2@),
                Box::new(SpecAst::Cat(
                    Box::new(a3@),
                    Box::new(SpecAst::Cat(Box::new(a4@), Box::new(a5@))),
                )),
            )),
        )),
{
    seq(a1, seq(a2, seq(a3, seq(a4, a5))))
}

/// Ordered choice `a1 / a2`.
pub fn alt(a1: Ast, a2: Ast) -> (r: Ast)
    ensures
        r@ == (SpecAst::Choice(Box::new(a1@), Box::new(a2@))),
{
    let ghost (g1, g2) = (a1@, a2@);
    let mut es: Vec<Ast> = Vec::new();
    es.push(a1);
    es.push(a2);
    proof {
        let t = es@.drop_first();
        assert(t =~= seq![es@[1]]);
        assert(alt_fold(t) == ast_view(t[0]));
        assert(alt_fold(es@) == SpecAst::Choice(Box::new(g1), Box::new(g2)));
    }
    Ast::Alt(es)
}

/// Ordered choice `a1 / a2 / a3`.
pub fn alt3(a1: Ast, a2: Ast, a3: Ast) -> (r: Ast)
    ensures
        r@ == (SpecAst::Choice(
            Box::new(a1@),
            Box::new(SpecAst::Choice(Box::new(a2@), Box::new(a3@))),
        )),
{
    alt(a1, alt(a2, a3))
}

/// Ordered choice `a1 / a2 / a3 / a4`.
pub fn alt4(a1: Ast, a2: Ast, a3: Ast, a4: Ast) -> (r: Ast)
    ensures
        r@ == (SpecAst::Choice(
            Box::new(a1@),
            Box::new(SpecAst::Choice(
                Box::new(a2@),
                Box::new(SpecAst::Choice(Box::new(a3@), Box::new(a4@))),
            )),
        )),
{
    alt(a1, alt(a2, alt(a3, a4)))
}

/// Ordered choice `a1 / a2 / a3 / a4 / a5`.
pub fn alt5(a1: Ast, a2: Ast, a3: Ast, a4: Ast, a5: Ast) -> (r: Ast)
    ensures
        r@ == (SpecAst::Choice(
            Box::new(a1@),
            Box::new(SpecAst::Choice(
                Box::new(a2@),
                Box::new(SpecAst::Choice(
                    Box::new(a3@),
                    Box::new(SpecAst::Choice(Box::new(a4@), Box::new(a5@))),
                )),
            )),
        )),
{
    alt(a1, alt(a2, alt(a3, alt(a4, a5))))
}

/// A case-sensitive literal.
pub fn lit(s: &str) -> (r: Ast)
    ensures
        r@ == SpecAst::Lit(s@, FLAG_NORMAL),
{
    Ast::Lit(String::from_str(s), FLAG_NORMAL)
}

/// Negative lookahead `!e`.
pub fn not(ast: Ast) -> (r: Ast)
    ensures
        r@ == SpecAst::Not(Box::new(ast@)),
{
    Ast::Not(Box::new(ast))
}

/// Any single character.
pub fn dot() -> (r: Ast)
    ensures
        r@ == SpecAst::Dot(FLAG_NORMAL),
{
    Ast::Dot(FLAG_NORMAL)
}

/// The white-space view used by the bootstrap grammar.
pub open spec fn spec_sp() -> SpecAst {
    SpecAst::Star(Box::new(SpecAst::Choice(
        Box::new(SpecAst::Lit(seq![' '], FLAG_NORMAL)),
        Box::new(SpecAst::Choice(
            Box::new(SpecAst::Lit(seq!['\t'], FLAG_NORMAL)),
            Box::new(SpecAst::Lit(seq!['\n'], FLAG_NORMAL)),
        )),
    )))
}

/// Optional white space: `(' ' / '\t' / '\n')*`.
pub fn sp() -> (r: Ast)
    ensures
        r@ == spec_sp(),
{
    proof {
        reveal_strlit(" ");
        reveal_strlit("\t");
        reveal_strlit("\n");
    }
    let r = many(alt3(lit(" "), lit("\t"), lit("\n")));
    proof {
        assert(" "@ =~= seq![' ']);
        assert("\t"@ =~= seq!['\t']);
        assert("\n"@ =~= seq!['\n']);
    }
    r
}

/// A single-character literal view.
pub open spec fn spec_ch(c: char) -> SpecAst {
    SpecAst::Lit(seq![c], FLAG_NORMAL)
}

/// The letter class of the bootstrap grammar: `[a-zA-Z]`.
pub open spec fn spec_letter() -> SpecAst {
    SpecAst::Cls(seq![('a', 'z'), ('A', 'Z')], FLAG_NORMAL)
}

/// A nonterminal of the bootstrap grammar: `[a-zA-Z]+ sp`.
pub open spec fn spec_nonterm() -> SpecAst {
    SpecAst::Cat(
        Box::new(SpecAst::Cat(Box::new(spec_letter()), Box::new(SpecAst::Star(Box::new(spec_letter()))))),
        Box::new(spec_sp()),
    )
}

/// A character class of the bootstrap grammar: `'[' (!']' (. '-' . / .))* ']' sp`.
pub open spec fn spec_charclass() -> SpecAst {
    SpecAst::Cat(
        Box::new(spec_ch('[')),
        Box::new(SpecAst::Cat(
            Box::new(SpecAst::Star(Box::new(SpecAst::Cat(
                Box::new(SpecAst::Not(Box::new(spec_ch(']')))),
                Box::new(SpecAst::Choice(
                    Box::new(SpecAst::Cat(
                        Box::new(SpecAst::Dot(FLAG_NORMAL)),
                        Box::new(SpecAst::Cat(
                            Box::new(spec_ch('-')),
                            Box::new(SpecAst::Dot(FLAG_NORMAL)),
                        )),
                    )),
                    Box::new(SpecAst::Dot(FLAG_NORMAL)),
                )),
            )))),
            Box::new(SpecAst::Cat(Box::new(spec_ch(']')), Box::new(spec_sp()))),
        )),
    )
}

/// A quoted literal of the bootstrap grammar: `"'" (!"'" .)* "'" sp`.
pub open spec fn spec_quoted() -> SpecAst {
    SpecAst::Cat(
        Box::new(spec_ch('\'')),
        Box::new(SpecAst::Cat(
            Box::new(SpecAst::Star(Box::new(SpecAst::Cat(
                Box::new(SpecAst::Not(Box::new(spec_ch('\'')))),
                Box::new(SpecAst::Dot(FLAG_NORMAL)),
            )))),
            Box::new(SpecAst::Cat(Box::new(spec_ch('\'')), Box::new(spec_sp()))),
        )),
    )
}

/// A primary of the bootstrap grammar.  The parenthesised branch holds a
/// white-space placeholder where a full pattern would recurse; the
/// bootstrap stops there.
pub open spec fn spec_primary() -> SpecAst {
    SpecAst::Choice(
        Box::new(SpecAst::Cat(
            Box::new(spec_ch('(')),
            Box::new(SpecAst::Cat(
                Box::new(spec_sp()),
                Box::new(SpecAst::Cat(
                    Box::new(spec_sp()),
                    Box::new(SpecAst::Cat(Box::new(spec_ch(')')), Box::new(spec_sp()))),
                )),
            )),
        )),
        Box::new(SpecAst::Choice(
            Box::new(SpecAst::Cat(Box::new(SpecAst::Dot(FLAG_NORMAL)), Box::new(spec_sp()))),
            Box::new(SpecAst::Choice(
                Box::new(spec_quoted()),
                Box::new(SpecAst::Choice(
                    Box::new(spec_charclass()),
                    Box::new(SpecAst::Cat(
                        Box::new(spec_nonterm()),
                        Box::new(SpecAst::Not(Box::new(SpecAst::Lit(seq!['<', '-'], FLAG_NORMAL)))),
                    )),
                )),
            )),
        )),
    )
}

/// A suffix of the bootstrap grammar: `primary ([*+?] sp)*`.
pub open spec fn spec_suffix() -> SpecAst {
    SpecAst::Cat(
        Box::new(spec_primary()),
        Box::new(SpecAst::Star(Box::new(SpecAst::Cat(
            Box::new(SpecAst::Choice(
                Box::new(spec_ch('*')),
                Box::new(SpecAst::Choice(Box::new(spec_ch('+')), Box::new(spec_ch('?')))),
            )),
            Box::new(spec_sp()),
        )))),
    )
}

/// One alternative element of the bootstrap grammar: `([!&]? sp suffix)`.
pub open spec fn spec_alt_elem() -> SpecAst {
    SpecAst::Cat(
        Box::new(SpecAst::Choice(
            Box::new(SpecAst::Choice(Box::new(spec_ch('!')), Box::new(spec_ch('&')))),
            Box::new(SpecAst::Empty),
        )),
        Box::new(SpecAst::Cat(Box::new(spec_sp()), Box::new(spec_suffix()))),
    )
}

/// An alternative of the bootstrap grammar: one or more elements.
pub open spec fn spec_alternative() -> SpecAst {
    SpecAst::Cat(Box::new(spec_alt_elem()), Box::new(SpecAst::Star(Box::new(spec_alt_elem()))))
}

/// A simple pattern of the bootstrap grammar:
/// `alternative / ('/' sp alternative)*`.
pub open spec fn spec_simplepatt() -> SpecAst {
    SpecAst::Choice(
        Box::new(spec_alternative()),
        Box::new(SpecAst::Star(Box::new(SpecAst::Cat(
            Box::new(spec_ch('/')),
            Box::new(SpecAst::Cat(Box::new(spec_sp()), Box::new(spec_alternative()))),
        )))),
    )
}

/// One grammar rule of the bootstrap grammar: `nonterminal '<-' sp simplepatt`.
pub open spec fn spec_rule() -> SpecAst {
    SpecAst::Cat(
        Box::new(spec_nonterm()),
        Box::new(SpecAst::Cat(
            Box::new(SpecAst::Lit(seq!['<', '-'], FLAG_NORMAL)),
            Box::new(SpecAst::Cat(Box::new(spec_sp()), Box::new(spec_simplepatt()))),
        )),
    )
}

/// The whole bootstrap pattern: `rule+ / simplepatt`.
pub open spec fn spec_peg_pattern() -> SpecAst {
    SpecAst::Choice(
        Box::new(SpecAst::Cat(Box::new(spec_rule()), Box::new(SpecAst::Star(Box::new(spec_rule()))))),
        Box::new(spec_simplepatt()),
    )
}

/// The letter class `[a-zA-Z]`.
fn peg_letter() -> (r: Ast)
    ensures
        r@ == spec_letter(),
{
    let mut rs: Vec<(char, char)> = Vec::new();
    rs.push(('a', 'z'));
    rs.push(('A', 'Z'));
    proof {
        assert(rs@ =~= seq![('a', 'z'), ('A', 'Z')]);
    }
    Ast::Cls(rs, FLAG_NORMAL)
}

/// Relies on String::push: appends one character at the end of the string.
#[verifier::external_body]
fn string_push(s: &mut String, c: char)
    ensures
        final(s)@ == old(s)@.push(c),
{
    s.push(c)
}

/// A single-character literal.
fn ch(c: char) -> (r: Ast)
    ensures
        r@ == spec_ch(c),
{
    let mut s = String::new();
    string_push(&mut s, c);
    proof {
        assert(s@ =~= seq![c]);
    }
    Ast::Lit(s, FLAG_NORMAL)
}

/// A nonterminal: `[a-zA-Z]+ sp`.
fn peg_nonterm() -> (r: Ast)
    ensures
        r@ == spec_nonterm(),
{
    seq(some(peg_letter()), sp())
}

/// An alternative: one or more `([!&]? sp suffix)` elements.
fn peg_alternative() -> (r: Ast)
    ensures
        r@ == spec_alternative(),
{
    let charclass = seq4(
        ch('['),
        many(seq(not(ch(']')), alt(seq3(dot(), ch('-'), dot()), dot()))),
        ch(']'),
        sp(),
    );
    let quoted = seq4(ch('\''), many(seq(not(ch('\'')), dot())), ch('\''), sp());
    let arrow = || -> (a: Ast)
        ensures
            a@ == SpecAst::Lit(seq!['<', '-'], FLAG_NORMAL),
        {
            proof {
                reveal_strlit("<-");
                assert("<-"@ =~= seq!['<', '-']);
            }
            lit("<-")
        };
    let primary = alt5(
        seq5(ch('('), sp(), sp(), ch(')'), sp()),
        seq(dot(), sp()),
        quoted,
        charclass,
        seq(peg_nonterm(), not(arrow())),
    );
    let suffix = seq(primary, many(seq(alt3(ch('*'), ch('+'), ch('?')), sp())));
    some(seq3(opt(alt(ch('!'), ch('&'))), sp(), suffix))
}

/// A simple pattern: `alternative / ('/' sp alternative)*`.
fn peg_simplepatt() -> (r: Ast)
    ensures
        r@ == spec_simplepatt(),
{
    alt(peg_alternative(), many(seq3(ch('/'), sp(), peg_alternative())))
}

/// The pattern that recognises the PEG grammar syntax itself:
///
/// ```text
/// pattern    <- grammar / simplepatt
/// grammar    <- (nonterminal '<-' sp simplepatt)+
/// ```
///
/// with the sub-patterns written out as in [`spec_peg_pattern`].
pub fn mk_peg_grammar() -> (r: Ast)
    ensures
        r@ == spec_peg_pattern(),
{
    let arrow = {
        proof {
            reveal_strlit("<-");
            assert("<-"@ =~= seq!['<', '-']);
        }
        lit("<-")
    };
    let grammar = some(seq4(peg_nonterm(), arrow, sp(), peg_simplepatt()));
    alt(grammar, peg_simplepatt())
}

} // verus!
