//! A parsing-expression-grammar matching engine.
//!
//! A pattern — ordered choice, unlimited lookahead, repetition, captures and
//! recursive grammars — is compiled once into a linear bytecode program, and
//! a backtracking virtual machine runs that program against an input text to
//! decide whether, how far, and with what sub-matches it matches.
//!
//! The pattern tree lives in [`ast`], the instruction set in [`code`], the
//! compiler in [`compile`], the machine in [`vm`], capture bookkeeping in
//! [`capture`], and the laws the engine obeys — proved, not tested — in
//! [`laws`].  This file holds the surface shape of PEG grammar source, the
//! boundary left to a textual front end.

use vstd::prelude::*;

pub mod ast;
pub mod capture;
pub mod code;
pub mod compile;
pub mod laws;
pub mod parse;
pub mod vm;

verus! {

/// The name of a nonterminal of a PEG grammar's source form.
pub struct Symbol(pub String);

/// A whole pattern of PEG source: a grammar of named rules, or one simple
/// pattern standing for the grammar `S <- pattern`.
pub enum Pattern {
    PGrammar(Grammar),
    PSimplePat(SimplePattern),
}

/// A grammar of PEG source: a start symbol and named rules.
pub struct Grammar {
    pub start: Symbol,
    pub patterns: Vec<(Symbol, SimplePattern)>,
}

/// Ordered alternatives separated by `/`.
pub struct SimplePattern {
    pub alternatives: Vec<Alternative>,
}

/// One alternative: elements that must match in order.
pub struct Alternative {
    pub elems: Vec<Elem>,
}

/// One element: an optional lookahead sign and a suffixed primary.
pub struct Elem {
    pub predicate: Option<Lookahead>,
    pub suffix: Suffix,
}

/// The lookahead signs: `&x` must match, `!x` must not.
pub enum Lookahead {
    Positive,
    Negative,
}

/// A primary with an optional repetition qualifier.
pub struct Suffix {
    pub primary: Primary,
    pub repetition: Option<RepetitionQualifier>,
}

/// The primaries of PEG source: a parenthesised pattern, `.`, a quoted
/// literal, a character class, or a nonterminal.
pub enum Primary {
    PPattern(SimplePattern),
    PAnyOneChar,
    PLiteral(String),
    PCharClass(CharClass),
    PNonterminal(Symbol),
}

/// The repetition qualifiers `*`, `+` and `?`.
pub enum RepetitionQualifier {
    ZeroOrMore,
    OneOrMore,
    ZeroOrOne,
}

/// A character class of PEG source.
pub struct CharClass {
    pub items: Vec<CharClassItem>,
}

/// One item of a character class: a single character or a range.
pub enum CharClassItem {
    CChar(char),
    CRange(char, char),
}

/// The symbol spelt by the given text.
pub fn sym(s: &str) -> (r: Symbol)
    ensures
        r.0@ == s@,
{
    Symbol(String::from_str(s))
}

/// A nonterminal primary.
pub fn nonterm(s: &str) -> (r: Primary)
    ensures
        r matches Primary::PNonterminal(m) && m.0@ == s@,
{
    Primary::PNonterminal(sym(s))
}

/// A literal primary.
pub fn lit(s: &str) -> (r: Primary)
    ensures
        r matches Primary::PLiteral(t) && t@ == s@,
{
    Primary::PLiteral(String::from_str(s))
}

/// A simple pattern of the given alternatives.
pub fn simple(alts: Vec<Alternative>) -> (r: SimplePattern)
    ensures
        r.alternatives == alts,
{
    SimplePattern { alternatives: alts }
}

/// A bare element: no lookahead, no repetition.
pub fn elem(p: Primary) -> (r: Elem)
    ensures
        r.predicate is None && r.suffix.primary == p && r.suffix.repetition is None,
{
    Elem { predicate: None, suffix: Suffix { primary: p, repetition: None } }
}

/// An alternative of one bare element.
fn alt_of(p: Primary) -> (r: Alternative)
    ensures
        r.elems@.len() == 1,
{
    let mut es: Vec<Elem> = Vec::new();
    es.push(elem(p));
    Alternative { elems: es }
}

/// The PEG grammar's own source form, written out by hand: the rule names
/// beside their patterns, the deeper rules still to be filled in.  Kept as
/// the worked bootstrap example of the surface types.
pub fn test() -> (g: Pattern)
    ensures
        g matches Pattern::PGrammar(gr) && gr.start.0@ == "Start"@ && gr.patterns@.len() == 10,
{
    // pattern <- grammar / simplepatt
    let mut pattern_alts: Vec<Alternative> = Vec::new();
    pattern_alts.push(alt_of(nonterm("grammar")));
    pattern_alts.push(alt_of(nonterm("simplepatt")));
    let pattern = simple(pattern_alts);

    // grammar <- (nonterminal '<-' sp simplepatt)+
    let mut rule_elems: Vec<Elem> = Vec::new();
    rule_elems.push(elem(nonterm("nonterminal")));
    rule_elems.push(elem(lit("<-")));
    rule_elems.push(elem(nonterm("sp")));
    rule_elems.push(elem(nonterm("simplepatt")));
    let mut rule_alts: Vec<Alternative> = Vec::new();
    rule_alts.push(Alternative { elems: rule_elems });
    let mut grammar_elems: Vec<Elem> = Vec::new();
    grammar_elems.push(
        Elem {
            predicate: None,
            suffix: Suffix {
                primary: Primary::PPattern(simple(rule_alts)),
                repetition: Some(RepetitionQualifier::OneOrMore),
            },
        },
    );
    let mut grammar_alts: Vec<Alternative> = Vec::new();
    grammar_alts.push(Alternative { elems: grammar_elems });
    let grammar = simple(grammar_alts);

    let simplepatt = simple(Vec::new());
    let alternative = simple(Vec::new());
    let suffix = simple(Vec::new());
    let primary = simple(Vec::new());
    let literal = simple(Vec::new());
    let charclass = simple(Vec::new());
    let nonterminal = simple(Vec::new());
    let sp = simple(Vec::new());

    let mut patterns: Vec<(Symbol, SimplePattern)> = Vec::new();
    patterns.push((sym("pattern"), pattern));
    patterns.push((sym("grammar"), grammar));
    patterns.push((sym("simplepatt"), simplepatt));
    patterns.push((sym("alternative"), alternative));
    patterns.push((sym("suffix"), suffix));
    patterns.push((sym("primary"), primary));
    patterns.push((sym("literal"), literal));
    patterns.push((sym("charclass"), charclass));
    patterns.push((sym("nonterminal"), nonterminal));
    patterns.push((sym("sp"), sp));

    Pattern::PGrammar(Grammar { start: sym("Start"), patterns })
}

} // verus!
