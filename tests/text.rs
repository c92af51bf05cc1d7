use parsify::error_handler::{decimal, max_column_widths, non_terminal_box_string, resolve_action_to_string, resolve_actions_to_string};
use parsify::generator::{generate_predict_list, normalize_literal, strip_literal, GeneratorContext};
use parsify::language::Wrapper;
use parsify::lr_processing::{Action, State};
use parsify::scanner::{Coord, Span, Token, TokenKind};

fn tok(kind: TokenKind, value: &str) -> Token {
    let c = Coord { line_num: 1, col: 1 };
    Token { kind, value: value.to_string(), span: Span { start: c, end: c } }
}

#[test]
fn decimal_digits() {
    assert_eq!(decimal(0), "0");
    assert_eq!(decimal(7), "7");
    assert_eq!(decimal(907), "907");
    assert_eq!(decimal(u64::MAX), u64::MAX.to_string());
}

#[test]
fn action_texts() {
    assert_eq!(resolve_action_to_string(&Action::Accept), "accept");
    assert_eq!(resolve_action_to_string(&Action::Shift(12)), "shift(12)");
    let r = Action::Reduce(vec![tok(TokenKind::Id, "A"), tok(TokenKind::Term, "\"b\"")], "S".to_string());
    assert_eq!(resolve_action_to_string(&r), "reduce(S ::= A \"b\")");
    assert_eq!(resolve_action_to_string(&Action::Reduce(vec![], "E".to_string())), "reduce(E ::=)");
    assert_eq!(resolve_actions_to_string(&vec![Action::Shift(3)], &vec![r]), "reduce(S ::= A \"b\"), shift(3)");
    assert_eq!(resolve_actions_to_string(&vec![], &vec![]), "");
}

#[test]
fn goto_cells() {
    let mut state = State::new();
    state.nt_state_transitions.push(("E".to_string(), 4));
    assert_eq!(non_terminal_box_string(&state, &"E".to_string()), "4");
    assert_eq!(non_terminal_box_string(&state, &"T".to_string()), "");
}

#[test]
fn column_widths() {
    let rows = vec![
        vec!["State".to_string(), "$".to_string()],
        vec!["0".to_string(), "shift(1)".to_string()],
        vec!["10".to_string(), "".to_string()],
    ];
    assert_eq!(max_column_widths(&rows), vec![5, 8]);
}

#[test]
fn stripping_quotes() {
    assert_eq!(strip_literal(&"\"a'b\"".to_string()), "a'b");
    assert_eq!(strip_literal(&"''".to_string()), "");
    assert_eq!(strip_literal(&"plain".to_string()), "plain");
    let once = strip_literal(&"'\"x\"'".to_string());
    assert_eq!(strip_literal(&once), once);
    assert_eq!(normalize_literal(&"'+'".to_string()), "\"+\"");
}

#[test]
fn predict_lists() {
    let set = vec!["\"a\"".to_string(), "".to_string(), "'b'".to_string(), "EOF".to_string()];
    assert_eq!(generate_predict_list(&set), "\"a\", \"EOF\", \"b\", \"EOF\"");
    assert_eq!(generate_predict_list(&vec![]), "");
}

#[test]
fn wrapping_and_indenting() {
    let w = Wrapper { prefix: "f(".to_string(), suffix: ")".to_string() };
    assert_eq!(w.wrap("x"), "f(x)");
    let mut ctx = GeneratorContext::new();
    ctx.push_tabs();
    ctx.push_tabs();
    ctx.start_line();
    ctx.push_str("a");
    ctx.emit_newline();
    ctx.pop_tabs();
    ctx.start_line();
    ctx.pop_tabs();
    ctx.pop_tabs();
    assert_eq!(ctx.num_tabs, 0);
    assert_eq!(ctx.output, "        a\n    ");
}

#[test]
fn box_table_text() {
    let rows = vec![
        vec!["State".to_string(), "$".to_string(), "E".to_string()],
        vec!["0".to_string(), "shift(1)".to_string(), "2".to_string()],
        vec!["1".to_string(), "accept".to_string(), "".to_string()],
    ];
    let text = parsify::error_handler::print_box_table(&rows, &vec![0, 1]);
    let expected = "\
╔═══════╦══════════╦═══╗
║ State ║ $        ║ E ║
╠═══════╬══════════╬═══╣
║ 0     ║ shift(1) ║ 2 ║
╟───────╫──────────╫───╢
║ 1     ║ accept   ║   ║
╚═══════╩══════════╩═══╝
";
    assert_eq!(text, expected);
}

#[test]
fn box_rule_joints() {
    let pieces = parsify::error_handler::RulePieces {
        leftmost: "<".to_string(),
        line: "-".to_string(),
        thick: "#".to_string(),
        thin: "+".to_string(),
        rightmost: ">".to_string(),
    };
    assert_eq!(parsify::error_handler::print_box_separator(&vec![1, 0, 2], &vec![1], &pieces), "<---+--#---->");
}
