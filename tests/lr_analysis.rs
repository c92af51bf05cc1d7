use parsify::error_handler::{resolve_action_to_string, resolve_actions_to_string, terminal_box_string};
use parsify::generator::strip_literal;
use parsify::ll_processing::analyse;
use parsify::lr_processing::{check_ambiguities, lr_process, Action, StateTable};
use parsify::parser::Parser;
use parsify::productions::NonTerminal;
use parsify::scanner::Scanner;

fn grammar(text: &str) -> Vec<NonTerminal> {
    let mut scanner = Scanner::new(text);
    let tokens = scanner.scan().expect("scans");
    let mut parser = Parser::new(tokens);
    let mut nts = parser.parse().expect("parses");
    analyse(&mut nts);
    nts
}

fn goto_on(table: &StateTable, state: usize, nt: &str) -> usize {
    table.states[state]
        .nt_state_transitions
        .iter()
        .find(|(name, _)| name == nt)
        .map(|(_, t)| *t as usize)
        .expect("goto")
}

fn entry<'a>(table: &'a StateTable, state: usize, terminal: &str) -> &'a Vec<Action> {
    &table.states[state].actions.iter().find(|(t, _)| t == terminal).expect("entry").1
}

const SHIFT_REDUCE: &str = "S ::= A \"c\" ; A ::= \"a\" | \"a\" \"b\" ;";

#[test]
fn lr1_has_no_conflict() {
    let nts = grammar(SHIFT_REDUCE);
    let table = lr_process(&nts, false);
    assert!(check_ambiguities(&table).is_empty());
}

#[test]
fn lr0_shift_reduce_conflict() {
    let nts = grammar(SHIFT_REDUCE);
    let table = lr_process(&nts, true);
    let conflicts = check_ambiguities(&table);
    assert_eq!(conflicts.len(), 1);
    let c = &conflicts[0];
    assert_eq!(strip_literal(&c.terminal), "b");
    assert_eq!(c.actions.len(), 2);
    assert!(matches!(c.actions[0], Action::Reduce(_, ref n) if n == "A"));
    assert!(matches!(c.actions[1], Action::Shift(_)));
    let after_a = match entry(&table, 0, "\"a\"")[0] {
        Action::Shift(s) => s as usize,
        _ => panic!("shift expected"),
    };
    assert_eq!(c.state, after_a);
    assert_eq!(
        resolve_actions_to_string(entry(&table, after_a, "\"b\""), &table.states[after_a].common_actions),
        format!("reduce(A ::= \"a\"), {}", resolve_action_to_string(&c.actions[1]))
    );
}

#[test]
fn lr_accepts_after_start_symbol() {
    let nts = grammar(SHIFT_REDUCE);
    let table = lr_process(&nts, false);
    let s = goto_on(&table, 0, "S");
    let acts = entry(&table, s, "EOF");
    assert_eq!(acts.len(), 1);
    assert!(matches!(acts[0], Action::Accept));
}

#[test]
fn lr0_accepts_after_start_symbol() {
    let nts = grammar(SHIFT_REDUCE);
    let table = lr_process(&nts, true);
    let s = goto_on(&table, 0, "S");
    assert!(matches!(entry(&table, s, "EOF")[0], Action::Accept));
}

#[test]
fn single_terminal_grammar_states() {
    let nts = grammar("S ::= \"a\" ;");
    let table = lr_process(&nts, false);
    // start, after the terminal (reduce), after the start symbol (accept)
    assert_eq!(table.states.len(), 3);
    let after_a = match entry(&table, 0, "\"a\"")[0] {
        Action::Shift(s) => s as usize,
        _ => panic!("shift expected"),
    };
    assert!(matches!(entry(&table, after_a, "EOF")[0], Action::Reduce(ref w, ref n) if w.len() == 1 && n == "S"));
    assert!(check_ambiguities(&table).is_empty());
}

#[test]
fn building_twice_gives_same_table() {
    let nts = grammar("E ::= E \"+\" T | T ; T ::= T \"*\" F | F ; F ::= \"(\" E \")\" | \"id\" ;");
    let a = lr_process(&nts, false);
    let b = lr_process(&nts, false);
    assert_eq!(format!("{:?}", a), format!("{:?}", b));
    assert!(check_ambiguities(&a).is_empty());
    let c = lr_process(&nts, true);
    let d = lr_process(&nts, true);
    assert_eq!(format!("{:?}", c), format!("{:?}", d));
}

#[test]
fn expression_grammar_lr1_table() {
    let nts = grammar("E ::= E \"+\" T | T ; T ::= \"id\" ;");
    let table = lr_process(&nts, false);
    let mut terms = table.seen_terms.clone();
    terms.sort();
    assert_eq!(terms, vec!["\"+\"", "\"id\"", "EOF"]);
    let mut nts_seen = table.seen_non_terms.clone();
    nts_seen.sort();
    assert_eq!(nts_seen, vec!["E", "T"]);
    let s = goto_on(&table, 0, "E");
    let plus = entry(&table, s, "\"+\"");
    assert!(matches!(plus[0], Action::Shift(_)));
    assert!(matches!(entry(&table, s, "EOF")[0], Action::Accept));
}

#[test]
fn reduce_reduce_conflict_reported_once() {
    let nts = grammar("S ::= A | B ; A ::= \"x\" ; B ::= \"x\" ;");
    let table = lr_process(&nts, false);
    let conflicts = check_ambiguities(&table);
    assert_eq!(conflicts.len(), 1);
    assert_eq!(conflicts[0].terminal, "EOF");
    assert_eq!(conflicts[0].actions.len(), 2);
    let text = terminal_box_string(&table.states[conflicts[0].state], &conflicts[0].terminal, &vec![]);
    assert_eq!(text, "reduce(A ::= \"x\"), reduce(B ::= \"x\")");
}

#[test]
fn rendered_rows() {
    let nts = grammar(SHIFT_REDUCE);
    let table = lr_process(&nts, false);
    let rows = parsify::error_handler::state_table_rows(&table);
    assert_eq!(rows.len(), table.states.len() + 1);
    assert_eq!(rows[0], vec!["State", "\"a\"", "\"b\"", "\"c\"", "$", "A", "S"]);
    assert_eq!(rows[1][0], "0");
    let after_a = match entry(&table, 0, "\"a\"")[0] {
        Action::Shift(s) => s,
        _ => panic!("shift expected"),
    };
    assert_eq!(rows[1][1], format!("shift({})", after_a));
    assert_eq!(rows[1][2], "");
    assert_eq!(rows[1][6], goto_on(&table, 0, "S").to_string());
    assert!(rows.iter().all(|r| r.len() == 7));
}

#[test]
fn lr0_common_reduce_conflict_without_entry() {
    let nts = grammar("S ::= A | B ; A ::= ; B ::= ;");
    let table = lr_process(&nts, true);
    assert!(table.states[0].common_actions.len() >= 2);
    let conflicts = check_ambiguities(&table);
    assert!(conflicts.iter().any(|c| c.state == 0 && c.terminal == "EOF"));
    let per_state0: Vec<&String> = conflicts.iter().filter(|c| c.state == 0).map(|c| &c.terminal).collect();
    assert_eq!(per_state0.len(), table.seen_terms.len());
}
