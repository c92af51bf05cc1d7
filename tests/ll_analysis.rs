use parsify::generator::strip_literal;
use parsify::ll_processing::{analyse, process};
use parsify::parser::Parser;
use parsify::productions::NonTerminal;
use parsify::scanner::Scanner;

fn grammar(text: &str) -> Vec<NonTerminal> {
    let mut scanner = Scanner::new(text);
    let tokens = scanner.scan().expect("scans");
    let mut parser = Parser::new(tokens);
    parser.parse().expect("parses")
}

fn plain(set: &Vec<String>) -> Vec<String> {
    let mut v: Vec<String> = set.iter().map(|s| strip_literal(s)).collect();
    v.sort();
    v
}

fn nt<'a>(nts: &'a Vec<NonTerminal>, name: &str) -> &'a NonTerminal {
    nts.iter().find(|n| n.name == name).expect("non-terminal")
}

fn strs(v: &[&str]) -> Vec<String> {
    let mut r: Vec<String> = v.iter().map(|s| s.to_string()).collect();
    r.sort();
    r
}

const ARITHMETIC: &str = "
E ::= T Ep ;
Ep ::= \"+\" T Ep | ;
T ::= F Tp ;
Tp ::= \"*\" F Tp | ;
F ::= \"(\" E \")\" | \"id\" ;
";

#[test]
fn arithmetic_is_ll1() {
    let mut nts = grammar(ARITHMETIC);
    let ambiguities = process(&mut nts);
    assert!(ambiguities.is_empty());
    for name in ["E", "T", "F"] {
        assert_eq!(plain(&nt(&nts, name).first_set), strs(&["(", "id"]));
    }
    assert_eq!(plain(&nt(&nts, "E").follow_set), strs(&["EOF", ")"]));
    let ep = nt(&nts, "Ep");
    assert!(ep.productions[1].list.is_empty());
    assert_eq!(plain(&ep.productions[1].predict_set), strs(&["EOF", ")"]));
}

#[test]
fn arithmetic_follow_sets() {
    let mut nts = grammar(ARITHMETIC);
    process(&mut nts);
    assert_eq!(plain(&nt(&nts, "Ep").follow_set), strs(&["EOF", ")"]));
    assert_eq!(plain(&nt(&nts, "T").follow_set), strs(&["EOF", ")", "+"]));
    assert_eq!(plain(&nt(&nts, "F").follow_set), strs(&["EOF", ")", "+", "*"]));
    assert!(nt(&nts, "Ep").is_nullable);
    assert!(!nt(&nts, "E").is_nullable);
}

#[test]
fn dangling_else_is_ambiguous() {
    let mut nts = grammar("S ::= \"if\" S \"else\" S | \"if\" S | \"other\" ;");
    let ambiguities = process(&mut nts);
    assert_eq!(ambiguities.len(), 1);
    assert_eq!(ambiguities[0].name, "S");
    assert_eq!(ambiguities[0].production, 1);
    assert_eq!(plain(&ambiguities[0].terminals), strs(&["if"]));
}

#[test]
fn empty_rhs_is_nullable() {
    let mut nts = grammar("S ::= A \"x\" ; A ::= ;");
    let ambiguities = process(&mut nts);
    assert!(ambiguities.is_empty());
    assert!(nt(&nts, "A").is_nullable);
    assert!(!nt(&nts, "S").is_nullable);
    assert_eq!(plain(&nt(&nts, "S").productions[0].predict_set), strs(&["x"]));
}

#[test]
fn empty_production_predicts_follow() {
    let mut nts = grammar("S ::= A \"x\" | A \"y\" \"z\" ; A ::= \"a\" | ;");
    process(&mut nts);
    let a = nt(&nts, "A");
    assert!(a.is_nullable);
    assert_eq!(plain(&a.follow_set), strs(&["x", "y"]));
    assert_eq!(plain(&a.productions[1].predict_set), strs(&["x", "y"]));
    assert_eq!(plain(&a.predict_set), strs(&["a", "x", "y"]));
}

#[test]
fn self_recursion_terminates() {
    let mut nts = grammar("A ::= A \"x\" | \"y\" ;");
    let ambiguities = process(&mut nts);
    assert_eq!(plain(&nt(&nts, "A").first_set), strs(&["y"]));
    assert_eq!(ambiguities.len(), 1);
    assert_eq!(plain(&ambiguities[0].terminals), strs(&["y"]));
}

#[test]
fn nullable_start_predicts_eof() {
    let mut nts = grammar("S ::= \"a\" S | ;");
    process(&mut nts);
    let s = nt(&nts, "S");
    assert!(s.is_nullable);
    assert_eq!(plain(&s.first_set), strs(&["EOF", "a"]));
    assert_eq!(plain(&s.follow_set), strs(&["EOF"]));
    assert_eq!(plain(&s.predict_set), strs(&["EOF", "a"]));
}

#[test]
fn pipeline_twice_is_stable() {
    let mut nts = grammar(ARITHMETIC);
    let first = process(&mut nts);
    let snapshot = format!("{:?}", nts);
    let second = process(&mut nts);
    assert_eq!(format!("{:?}", nts), snapshot);
    assert_eq!(first.len(), second.len());
}

#[test]
fn trailing_eof_is_dropped() {
    let mut nts = grammar("S ::= \"a\" EOF ;");
    process(&mut nts);
    let s = nt(&nts, "S");
    assert_eq!(s.productions[0].list.len(), 1);
    assert_eq!(plain(&s.first_set), strs(&["a"]));
}

#[test]
fn analyse_keeps_productions() {
    let mut nts = grammar(ARITHMETIC);
    analyse(&mut nts);
    assert_eq!(nts.len(), 5);
    assert_eq!(nt(&nts, "F").productions.len(), 2);
    assert!(nts[0].is_start_term);
    assert!(nt(&nts, "F").productions[0].predict_set.is_empty());
}

#[test]
fn empty_start_has_eof_first() {
    let mut nts = grammar("S ::= ;");
    process(&mut nts);
    assert_eq!(plain(&nt(&nts, "S").first_set), strs(&["EOF"]));
}

#[test]
fn nullable_non_start_has_no_eof_first() {
    let mut nts = grammar("S ::= A \"x\" ; A ::= \"a\" | ;");
    process(&mut nts);
    assert_eq!(plain(&nt(&nts, "A").first_set), strs(&["a"]));
}
