use parsify::generator::generate_parser;
use parsify::language::{Language, ReqFunctions, Wrapper};
use parsify::ll_processing::process;
use parsify::parser::{Parser, ParserError};
use parsify::scanner::{ScanError, Scanner, TokenKind};

fn kinds(text: &str) -> Vec<TokenKind> {
    let mut s = Scanner::new(text);
    s.scan().expect("scans").iter().map(|t| t.kind).collect()
}

#[test]
fn scans_every_kind() {
    assert_eq!(
        kinds("A ::= b 'c' | \"d\" ; // note\nB : ;\n"),
        vec![
            TokenKind::Id, TokenKind::Equals, TokenKind::Id, TokenKind::Term, TokenKind::Bar, TokenKind::Term,
            TokenKind::End, TokenKind::Id, TokenKind::Equals, TokenKind::End, TokenKind::Eof,
        ]
    );
}

#[test]
fn token_values_and_positions() {
    let mut s = Scanner::new("ab_1 ::=\n  'x y' .");
    let ts = s.scan().expect("scans");
    let values: Vec<&str> = ts.iter().map(|t| t.value.as_str()).collect();
    assert_eq!(values, vec!["ab_1", "::=", "'x y'", ".", ""]);
    assert_eq!(ts[2].span.start.line_num, 2);
    assert_eq!(ts[2].span.start.col, 3);
    assert_eq!(ts[0].span.start.line_num, 1);
    assert_eq!(ts[0].span.end.col, 5);
}

#[test]
fn unexpected_character() {
    let mut s = Scanner::new("A ::= # ;");
    match s.scan() {
        Err(ScanError::UnexpectedChar(expected, seen, at)) => {
            assert_eq!(expected, '_');
            assert_eq!(seen, '#');
            assert_eq!(at.col, 7);
        },
        other => panic!("unexpected result {:?}", other),
    }
}

#[test]
fn unterminated_literal() {
    let mut s = Scanner::new("A ::= 'abc");
    assert!(matches!(s.scan(), Err(ScanError::NoMoreChars(_))));
    let mut s = Scanner::new("A ::= 'ab\nc' ;");
    assert!(matches!(s.scan(), Err(ScanError::UnexpectedChar('\'', '\n', _))));
}

#[test]
fn broken_equals() {
    let mut s = Scanner::new("A ::x ;");
    assert!(matches!(s.scan(), Err(ScanError::UnexpectedChar('=', 'x', _))));
}

#[test]
fn parses_rules_in_order() {
    let mut s = Scanner::new("S ::= A b ; A ::= 'a' | ; S ::= 'c' ;");
    let mut p = Parser::new(s.scan().expect("scans"));
    let nts = p.parse().expect("parses");
    assert_eq!(nts.len(), 2);
    assert_eq!(nts[0].name, "S");
    assert!(nts[0].is_start_term);
    assert!(!nts[1].is_start_term);
    assert_eq!(nts[0].productions.len(), 2);
    assert_eq!(nts[0].productions[0].list[0].kind, TokenKind::Id);
    assert_eq!(nts[0].productions[0].list[1].kind, TokenKind::Term);
    assert!(nts[1].productions[1].list.is_empty());
}

#[test]
fn missing_end_is_reported() {
    let mut s = Scanner::new("S ::= 'a' T ::= 'b' ;");
    let mut p = Parser::new(s.scan().expect("scans"));
    match p.parse() {
        Err(ParserError::UnexpectedToken(tok, expected)) => {
            assert_eq!(tok.kind, TokenKind::Equals);
            assert_eq!(expected, vec![TokenKind::Bar, TokenKind::End, TokenKind::Id, TokenKind::Term]);
        },
        Ok(_) => panic!("should not parse"),
    }
}

#[test]
fn empty_input_is_reported() {
    let mut s = Scanner::new("  ");
    let mut p = Parser::new(s.scan().expect("scans"));
    assert!(matches!(p.parse(), Err(ParserError::UnexpectedToken(_, _))));
}

fn w(prefix: &str, suffix: &str) -> Wrapper {
    Wrapper { prefix: prefix.to_string(), suffix: suffix.to_string() }
}

fn language() -> Language {
    Language {
        imports: "use x;".to_string(),
        parse_error: "struct E;".to_string(),
        class_def: "struct P;".to_string(),
        class_body_wrapper: w("impl P {\n", "}\n"),
        required_functions: ReqFunctions {
            constructor: vec!["fn new() {}".to_string()],
            error_func: vec!["fn error() {}".to_string()],
            match_func: vec!["fn m() {}".to_string()],
            current_func: vec!["fn c() {}".to_string()],
        },
        func_call: w("self.", "();"),
        match_call: w("self.m(\"", "\");"),
        error_call: w("return self.error(&[", "]);"),
        condition: w("[", "].contains(&self.c())"),
        if_clause: w("if ", " "),
        elseif_clause: w(" else if ", " "),
        else_clause: " else ".to_string(),
        public_func_def: w("pub fn ", "(&mut self) "),
        private_func_def: w("fn ", "(&mut self) "),
        func_body: w("{", "}"),
        empty_production_body: "// empty".to_string(),
    }
}

#[test]
fn generates_parser_text() {
    let mut s = Scanner::new("S ::= 'a' S | ;");
    let mut p = Parser::new(s.scan().expect("scans"));
    let mut nts = p.parse().expect("parses");
    assert!(process(&mut nts).is_empty());
    let out = generate_parser(&nts, &language());
    assert!(out.starts_with("use x;\nstruct E;\nstruct P;\nimpl P {\n"));
    assert!(out.ends_with("}\n"));
    assert!(out.contains("    pub fn parse(&mut self) {\n        self.S();\n        self.m(\"EOF\");\n"));
    assert!(out.contains("if [\"a\"].contains(&self.c()) {\n            self.m(\"a\");\n            self.S();\n        }"));
    assert!(out.contains(" else if [\"EOF\"].contains(&self.c()) {\n            // empty\n        }"));
}

#[test]
fn parse_result_follows_tokens() {
    let mut s = Scanner::new("S ::= A 'x' | b ; A ::= ; S ::= A ;");
    let mut p = Parser::new(s.scan().expect("scans"));
    let nts = p.parse().expect("parses");
    assert_eq!(nts.len(), 2);
    assert_eq!(nts[1].name, "A");
    let s0: Vec<Vec<(TokenKind, String)>> = nts[0]
        .productions
        .iter()
        .map(|pr| pr.list.iter().map(|t| (t.kind, t.value.clone())).collect())
        .collect();
    assert_eq!(
        s0,
        vec![
            vec![(TokenKind::Id, "A".to_string()), (TokenKind::Term, "'x'".to_string())],
            vec![(TokenKind::Term, "b".to_string())],
            vec![(TokenKind::Id, "A".to_string())],
        ]
    );
    assert_eq!(nts[1].productions.len(), 1);
    assert!(nts[1].productions[0].list.is_empty());
}

#[test]
fn identifiers_are_ascii() {
    let mut s = Scanner::new("é ::= ;");
    assert!(matches!(s.scan(), Err(ScanError::UnexpectedChar('_', 'é', _))));
    let mut s = Scanner::new("1A ::= ;");
    assert!(matches!(s.scan(), Err(ScanError::UnexpectedChar('_', '1', _))));
}
