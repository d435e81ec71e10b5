//! The surface types of PEG grammar source, and the front-end boundary.

use pegvm::{elem, lit, nonterm, simple, sym, Pattern, Primary};
use pegvm::parse::{err, parse};

#[test]
fn parse_names_the_boundary() {
    assert!(parse("a <- b / c").is_err());
}

#[test]
fn err_carries_position_and_message() {
    let r: Result<(), _> = err("expected a quote", 7);
    let e = r.unwrap_err();
    assert_eq!(e.pos, 7);
    assert_eq!(e.msg, "expected a quote");
    assert_eq!(e.message(), "syntax error near position 7: expected a quote");
}

#[test]
fn builders_shape_the_source_tree() {
    let s = sym("pattern");
    assert_eq!(s.0, "pattern");
    assert!(matches!(nonterm("sp"), Primary::PNonterminal(_)));
    assert!(matches!(lit("<-"), Primary::PLiteral(_)));
    let e = elem(lit("x"));
    assert!(e.predicate.is_none());
    assert!(e.suffix.repetition.is_none());
    let sp = simple(vec![]);
    assert!(sp.alternatives.is_empty());
}

#[test]
fn bootstrap_source_grammar_has_its_rules() {
    match pegvm::test() {
        Pattern::PGrammar(g) => {
            assert_eq!(g.start.0, "Start");
            assert_eq!(g.patterns.len(), 10);
            assert_eq!(g.patterns[0].0 .0, "pattern");
            assert_eq!(g.patterns[9].0 .0, "sp");
        },
        Pattern::PSimplePat(_) => panic!("the bootstrap pattern is a grammar"),
    }
}
