//! The text of diagnostics and of the rendered state table.
use vstd::prelude::*;
use crate::lr_processing::{action_model, action_models, keys, lookup, Action, ActionModel, State, StateTable};
use crate::productions::{syms, Sym};
use crate::scanner::text_of;

verus! {

pub open spec fn digit(d: nat) -> char {
    if d == 0 { '0' } else if d == 1 { '1' } else if d == 2 { '2' } else if d == 3 { '3' } else if d == 4 { '4' }
    else if d == 5 { '5' } else if d == 6 { '6' } else if d == 7 { '7' } else if d == 8 { '8' } else { '9' }
}

/// The decimal digits of `n`.
pub open spec fn dec(n: nat) -> Seq<char>
    decreases n,
{
    if n < 10 {
        seq![digit(n)]
    } else {
        dec(n / 10) + seq![digit(n % 10)]
    }
}

fn digit_char(d: u64) -> (c: char)
    requires
        d < 10,
    ensures
        c == digit(d as nat),
{
    if d == 0 { '0' } else if d == 1 { '1' } else if d == 2 { '2' } else if d == 3 { '3' } else if d == 4 { '4' }
    else if d == 5 { '5' } else if d == 6 { '6' } else if d == 7 { '7' } else if d == 8 { '8' } else { '9' }
}

fn push_decimal(out: &mut Vec<char>, n: u64)
    ensures
        final(out)@ == old(out)@ + dec(n as nat),
    decreases n,
{
    if n < 10 {
        out.push(digit_char(n));
    } else {
        push_decimal(out, n / 10);
        out.push(digit_char(n % 10));
    }
}

fn push_text(out: &mut Vec<char>, s: &str)
    ensures
        final(out)@ == old(out)@ + s@,
{
    let cs = crate::scanner::chars_of(s);
    let mut i: usize = 0;
    while i < cs.len()
        invariant
            cs@ == s@,
            i <= cs@.len(),
            out@ == old(out)@ + cs@.take(i as int),
        decreases cs@.len() - i,
    {
        out.push(cs[i]);
        proof {
            assert(out@ =~= old(out)@ + cs@.take(i + 1));
        }
        i = i + 1;
    }
    assert(cs@.take(cs@.len() as int) =~= cs@);
}

fn to_string(out: &Vec<char>) -> (r: String)
    ensures
        r@ == out@,
{
    let n = out.len();
    let r = text_of(out, 0, n);
    assert(out@.subrange(0, n as int) =~= out@);
    r
}

/// `n` in decimal.
pub fn decimal(n: u64) -> (r: String)
    ensures
        r@ == dec(n as nat),
{
    let mut out: Vec<char> = Vec::new();
    push_decimal(&mut out, n);
    assert(out@ =~= dec(n as nat));
    to_string(&out)
}

/// The names of symbols, each after a space.
pub open spec fn spaced(w: Seq<Sym>) -> Seq<char>
    decreases w.len(),
{
    if w.len() == 0 {
        Seq::empty()
    } else {
        spaced(w.drop_last()) + seq![' '] + w.last().1
    }
}

/// How an action reads: `accept`, `shift(n)` or `reduce(A ::= x y)`.
pub open spec fn action_text(a: ActionModel) -> Seq<char> {
    match a {
        ActionModel::Accept => seq!['a', 'c', 'c', 'e', 'p', 't'],
        ActionModel::Shift(i) => seq!['s', 'h', 'i', 'f', 't', '('] + dec(i as nat) + seq![')'],
        ActionModel::Reduce(w, n) => seq!['r', 'e', 'd', 'u', 'c', 'e', '('] + n + seq![' ', ':', ':', '='] + spaced(w) + seq![')'],
    }
}

/// Actions in order, with `, ` between them.
pub open spec fn actions_text(v: Seq<ActionModel>) -> Seq<char>
    decreases v.len(),
{
    if v.len() == 0 {
        Seq::empty()
    } else if v.len() == 1 {
        action_text(v[0])
    } else {
        actions_text(v.drop_last()) + seq![',', ' '] + action_text(v.last())
    }
}

/// The text of one action.
pub fn resolve_action_to_string(action: &Action) -> (r: String)
    ensures
        r@ == action_text(action_model(*action)),
{
    let mut out: Vec<char> = Vec::new();
    match action {
        Action::Accept => {
            push_text(&mut out, "accept");
            proof {
                reveal_strlit("accept");
                assert(out@ =~= action_text(action_model(*action)));
            }
        },
        Action::Shift(index) => {
            push_text(&mut out, "shift(");
            push_decimal(&mut out, *index);
            out.push(')');
            proof {
                reveal_strlit("shift(");
                assert(out@ =~= action_text(action_model(*action)));
            }
        },
        Action::Reduce(term_list, nt) => {
            push_text(&mut out, "reduce(");
            push_text(&mut out, nt.as_str());
            push_text(&mut out, " ::=");
            let ghost head = out@;
            let mut i: usize = 0;
            while i < term_list.len()
                invariant
                    i <= term_list@.len(),
                    out@ == head + spaced(syms(term_list@).take(i as int)),
                decreases term_list@.len() - i,
            {
                out.push(' ');
                push_text(&mut out, term_list[i].value.as_str());
                proof {
                    let w = syms(term_list@).take(i + 1);
                    assert(w.drop_last() =~= syms(term_list@).take(i as int));
                    assert(w.last() == (term_list@[i as int].kind, term_list@[i as int].value@));
                    assert(out@ =~= head + spaced(w));
                }
                i = i + 1;
            }
            out.push(')');
            proof {
                reveal_strlit("reduce(");
                reveal_strlit(" ::=");
                assert(syms(term_list@).take(term_list@.len() as int) =~= syms(term_list@));
                assert(out@ =~= action_text(action_model(*action)));
            }
        },
    }
    to_string(&out)
}

proof fn lemma_actions_text_empty(v: Seq<ActionModel>)
    ensures
        actions_text(v).len() == 0 <==> v.len() == 0,
    decreases v.len(),
{
    if v.len() > 1 {
        lemma_actions_text_empty(v.drop_last());
    }
}

fn push_action(out: &mut Vec<char>, a: &Action, Ghost(prev): Ghost<Seq<ActionModel>>)
    requires
        old(out)@ == actions_text(prev),
    ensures
        final(out)@ == actions_text(prev.push(action_model(*a))),
{
    let text = resolve_action_to_string(a);
    proof {
        lemma_actions_text_empty(prev);
    }
    if out.len() > 0 {
        out.push(',');
        out.push(' ');
    }
    push_text(out, text.as_str());
    proof {
        assert(prev.push(action_model(*a)).drop_last() =~= prev);
        assert(out@ =~= actions_text(prev.push(action_model(*a))));
    }
}

/// The shared actions, then the actions, with `, ` between them.
pub fn resolve_actions_to_string(actions: &Vec<Action>, common_actions: &Vec<Action>) -> (r: String)
    ensures
        r@ == actions_text(action_models(common_actions@) + action_models(actions@)),
{
    let mut out: Vec<char> = Vec::new();
    let mut k: usize = 0;
    while k < common_actions.len()
        invariant
            k <= common_actions@.len(),
            out@ == actions_text(action_models(common_actions@).take(k as int)),
        decreases common_actions@.len() - k,
    {
        push_action(&mut out, &common_actions[k], Ghost(action_models(common_actions@).take(k as int)));
        assert(action_models(common_actions@).take(k as int).push(action_model(common_actions@[k as int]))
            =~= action_models(common_actions@).take(k + 1));
        k = k + 1;
    }
    assert(action_models(common_actions@).take(common_actions@.len() as int) =~= action_models(common_actions@));
    let ghost c = action_models(common_actions@);
    let mut j: usize = 0;
    while j < actions.len()
        invariant
            c == action_models(common_actions@),
            j <= actions@.len(),
            out@ == actions_text(c + action_models(actions@).take(j as int)),
        decreases actions@.len() - j,
    {
        push_action(&mut out, &actions[j], Ghost(c + action_models(actions@).take(j as int)));
        assert((c + action_models(actions@).take(j as int)).push(action_model(actions@[j as int]))
            =~= c + action_models(actions@).take(j + 1));
        j = j + 1;
    }
    assert(action_models(actions@).take(actions@.len() as int) =~= action_models(actions@));
    to_string(&out)
}

/// The table cell of `state` under `terminal`.
pub fn terminal_box_string(state: &State, terminal: &String, common_actions: &Vec<Action>) -> (r: String)
    requires
        keys(state.actions@).no_duplicates(),
    ensures
        r@ == actions_text(action_models(common_actions@) + lookup(state.actions@, terminal@)),
{
    let mut j: usize = 0;
    let mut found = false;
    while j < state.actions.len() && !found
        invariant
            j <= state.actions@.len(),
            found ==> j < state.actions@.len() && state.actions@[j as int].0@ == terminal@,
            forall|k: int| 0 <= k < j ==> state.actions@[k].0@ != terminal@,
        decreases state.actions@.len() - j + if found { 0int } else { 1int },
    {
        if state.actions[j].0 == *terminal {
            found = true;
        } else {
            j = j + 1;
        }
    }
    if found {
        proof {
            assert(keys(state.actions@)[j as int] == terminal@);
            let i = keys(state.actions@).index_of(terminal@);
            assert(keys(state.actions@)[i] == terminal@);
            assert(i == j);
        }
        resolve_actions_to_string(&state.actions[j].1, common_actions)
    } else {
        let empty: Vec<Action> = Vec::new();
        proof {
            if keys(state.actions@).contains(terminal@) {
                let i = keys(state.actions@).index_of(terminal@);
                assert(state.actions@[i].0@ == terminal@);
            }
            assert(action_models(empty@) =~= Seq::<ActionModel>::empty());
        }
        resolve_actions_to_string(&empty, common_actions)
    }
}

/// The cell of `st` under non-terminal `nt`: the state its first goto on
/// `nt` leads to, or nothing.
pub open spec fn goto_cell(st: State, nt: Seq<char>) -> Seq<char> {
    if exists|j: int| 0 <= j < st.nt_state_transitions@.len() && #[trigger] st.nt_state_transitions@[j].0@ == nt {
        dec(st.nt_state_transitions@[
            choose|j: int| 0 <= j < st.nt_state_transitions@.len() && #[trigger] st.nt_state_transitions@[j].0@ == nt
                && forall|k: int| 0 <= k < j ==> st.nt_state_transitions@[k].0@ != nt].1 as nat)
    } else {
        Seq::empty()
    }
}

/// The table cell of `state` under non-terminal `nt`: the state it goes to,
/// or nothing.
pub fn non_terminal_box_string(state: &State, nt: &String) -> (r: String)
    ensures
        r@ == goto_cell(*state, nt@),
{
    let mut j: usize = 0;
    while j < state.nt_state_transitions.len()
        invariant
            j <= state.nt_state_transitions@.len(),
            forall|k: int| 0 <= k < j ==> state.nt_state_transitions@[k].0@ != nt@,
        decreases state.nt_state_transitions@.len() - j,
    {
        if state.nt_state_transitions[j].0 == *nt {
            let r = decimal(state.nt_state_transitions[j].1);
            proof {
                let c = choose|c: int| 0 <= c < state.nt_state_transitions@.len() && #[trigger] state.nt_state_transitions@[c].0@ == nt@
                    && forall|k: int| 0 <= k < c ==> state.nt_state_transitions@[k].0@ != nt@;
                assert(c == j) by {
                    if c < j {
                    } else if c > j {
                        assert(state.nt_state_transitions@[j as int].0@ == nt@);
                    }
                }
            }
            return r;
        }
        j = j + 1;
    }
    let r = String::new();
    assert(r@ =~= goto_cell(*state, nt@));
    r
}

/// The widest entry of each column, in characters; a row shorter than the
/// first has no entry in the columns past its end.
pub fn max_column_widths(rows: &Vec<Vec<String>>) -> (r: Vec<usize>)
    requires
        rows@.len() >= 1,
        forall|i: int| 0 <= i < rows@.len() ==> (#[trigger] rows@[i])@.len() <= rows@[0]@.len(),
    ensures
        r@.len() == rows@[0]@.len(),
        forall|c: int| 0 <= c < r@.len() ==> forall|i: int| 0 <= i < rows@.len() && c < rows@[i]@.len()
            ==> rows@[i]@[c]@.len() <= #[trigger] r@[c],
        forall|c: int| 0 <= c < r@.len() ==> r@[c] == 0 || exists|i: int| 0 <= i < rows@.len() && c < rows@[i]@.len()
            && rows@[i]@[c]@.len() == #[trigger] r@[c],
{
    let width = rows[0].len();
    let mut r: Vec<usize> = Vec::new();
    let mut c: usize = 0;
    while c < width
        invariant
            width == rows@[0]@.len(),
            rows@.len() >= 1,
            forall|i: int| 0 <= i < rows@.len() ==> (#[trigger] rows@[i])@.len() <= rows@[0]@.len(),
            c <= width,
            r@.len() == c,
            forall|c2: int| 0 <= c2 < c ==> forall|i: int| 0 <= i < rows@.len() && c2 < rows@[i]@.len()
                ==> rows@[i]@[c2]@.len() <= #[trigger] r@[c2],
            forall|c2: int| 0 <= c2 < c ==> r@[c2] == 0 || exists|i: int| 0 <= i < rows@.len() && c2 < rows@[i]@.len()
                && rows@[i]@[c2]@.len() == #[trigger] r@[c2],
        decreases width - c,
    {
        let mut best: usize = 0;
        let mut i: usize = 0;
        while i < rows.len()
            invariant
                c < width,
                i <= rows@.len(),
                forall|k: int| 0 <= k < i && (c as int) < rows@[k]@.len() ==> rows@[k]@[c as int]@.len() <= best,
                best == 0 || exists|k: int| 0 <= k < rows@.len() && (c as int) < rows@[k]@.len() && rows@[k]@[c as int]@.len() == best,
            decreases rows@.len() - i,
        {
            if c < rows[i].len() {
                let w = rows[i][c].as_str().unicode_len();
                if w > best {
                    best = w;
                }
            }
            i = i + 1;
        }
        r.push(best);
        proof {
            assert(r@[c as int] == best);
        }
        c = c + 1;
    }
    r
}

/// How a terminal heads its column: `EOF` shows as `$`.
pub open spec fn header_name(t: Seq<char>) -> Seq<char> {
    if t == "EOF"@ { seq!['$'] } else { t }
}

/// The rows of the rendered table: a header (`State`, the terminals, the
/// non-terminals), then one row per state with its number, its action cells
/// and its goto cells.
pub fn state_table_rows(table: &StateTable) -> (rows: Vec<Vec<String>>)
    requires
        forall|s: int| 0 <= s < table.states@.len() ==> keys((#[trigger] table.states@[s]).actions@).no_duplicates(),
        table.seen_terms@.len() + table.seen_non_terms@.len() < usize::MAX,
        table.states@.len() < usize::MAX,
    ensures
        rows@.len() == table.states@.len() + 1,
        forall|i: int| 0 <= i < rows@.len() ==> (#[trigger] rows@[i])@.len() == 1 + table.seen_terms@.len() + table.seen_non_terms@.len(),
        rows@[0]@[0]@ == "State"@,
        forall|j: int| 0 <= j < table.seen_terms@.len() ==> rows@[0]@[1 + j]@ == header_name(#[trigger] table.seen_terms@[j]@),
        forall|j: int| 0 <= j < table.seen_non_terms@.len() ==> rows@[0]@[1 + table.seen_terms@.len() + j]@ == (#[trigger] table.seen_non_terms@[j])@,
        forall|s: int| 0 <= s < table.states@.len() ==> (#[trigger] rows@[s + 1])@[0]@ == dec(s as nat),
        forall|s: int, j: int| 0 <= s < table.states@.len() && 0 <= j < table.seen_terms@.len() ==> (#[trigger] rows@[s + 1]@[1 + j])@
            == actions_text(action_models(table.states@[s].common_actions@) + lookup(table.states@[s].actions@, table.seen_terms@[j]@)),
        forall|s: int, j: int| 0 <= s < table.states@.len() && 0 <= j < table.seen_non_terms@.len()
            ==> (#[trigger] rows@[s + 1]@[1 + table.seen_terms@.len() + j])@ == goto_cell(table.states@[s], table.seen_non_terms@[j]@),
{
    let nt_count = table.seen_terms.len();
    let nn_count = table.seen_non_terms.len();
    let eof = String::from_str("EOF");
    let mut header: Vec<String> = Vec::new();
    let state_label = String::from_str("State");
    header.push(state_label);
    let mut j: usize = 0;
    while j < nt_count
        invariant
            nt_count == table.seen_terms@.len(),
            eof@ == "EOF"@,
            j <= nt_count,
            header@.len() == 1 + j,
            header@[0]@ == "State"@,
            forall|x: int| 0 <= x < j ==> header@[1 + x]@ == header_name(#[trigger] table.seen_terms@[x]@),
        decreases nt_count - j,
    {
        let t = &table.seen_terms[j];
        let name = if *t == eof { String::from_str("$") } else { t.clone() };
        proof {
            reveal_strlit("$");
            assert("$"@ =~= seq!['$']);
        }
        header.push(name);
        j = j + 1;
    }
    let mut j: usize = 0;
    while j < nn_count
        invariant
            nt_count == table.seen_terms@.len(),
            nn_count == table.seen_non_terms@.len(),
            nt_count + nn_count < usize::MAX,
            j <= nn_count,
            header@.len() == 1 + nt_count + j,
            header@[0]@ == "State"@,
            forall|x: int| 0 <= x < nt_count ==> header@[1 + x]@ == header_name(#[trigger] table.seen_terms@[x]@),
            forall|x: int| 0 <= x < j ==> header@[1 + nt_count + x]@ == (#[trigger] table.seen_non_terms@[x])@,
        decreases nn_count - j,
    {
        header.push(table.seen_non_terms[j].clone());
        j = j + 1;
    }
    let mut rows: Vec<Vec<String>> = Vec::new();
    rows.push(header);
    let mut s: usize = 0;
    while s < table.states.len()
        invariant
            nt_count == table.seen_terms@.len(),
            nn_count == table.seen_non_terms@.len(),
            nt_count + nn_count < usize::MAX,
            table.states@.len() < usize::MAX,
            forall|x: int| 0 <= x < table.states@.len() ==> keys((#[trigger] table.states@[x]).actions@).no_duplicates(),
            s <= table.states@.len(),
            rows@.len() == s + 1,
            forall|i: int| 0 <= i < rows@.len() ==> (#[trigger] rows@[i])@.len() == 1 + nt_count + nn_count,
            rows@[0]@[0]@ == "State"@,
            forall|x: int| 0 <= x < nt_count ==> rows@[0]@[1 + x]@ == header_name(#[trigger] table.seen_terms@[x]@),
            forall|x: int| 0 <= x < nn_count ==> rows@[0]@[1 + nt_count + x]@ == (#[trigger] table.seen_non_terms@[x])@,
            forall|r: int| 0 <= r < s ==> (#[trigger] rows@[r + 1])@[0]@ == dec(r as nat),
            forall|r: int, x: int| 0 <= r < s && 0 <= x < nt_count ==> (#[trigger] rows@[r + 1]@[1 + x])@
                == actions_text(action_models(table.states@[r].common_actions@) + lookup(table.states@[r].actions@, table.seen_terms@[x]@)),
            forall|r: int, x: int| 0 <= r < s && 0 <= x < nn_count
                ==> (#[trigger] rows@[r + 1]@[1 + nt_count + x])@ == goto_cell(table.states@[r], table.seen_non_terms@[x]@),
        decreases table.states@.len() - s,
    {
        let state = &table.states[s];
        let mut entries: Vec<String> = Vec::new();
        entries.push(decimal(s as u64));
        let mut j: usize = 0;
        while j < nt_count
            invariant
                nt_count == table.seen_terms@.len(),
                s < table.states@.len(),
                state == table.states@[s as int],
                keys(state.actions@).no_duplicates(),
                j <= nt_count,
                entries@.len() == 1 + j,
                entries@[0]@ == dec(s as nat),
                forall|x: int| 0 <= x < j ==> (#[trigger] entries@[1 + x])@
                    == actions_text(action_models(state.common_actions@) + lookup(state.actions@, table.seen_terms@[x]@)),
            decreases nt_count - j,
        {
            entries.push(terminal_box_string(state, &table.seen_terms[j], &state.common_actions));
            j = j + 1;
        }
        let mut j: usize = 0;
        while j < nn_count
            invariant
                nt_count == table.seen_terms@.len(),
                nn_count == table.seen_non_terms@.len(),
                nt_count + nn_count < usize::MAX,
                s < table.states@.len(),
                state == table.states@[s as int],
                j <= nn_count,
                entries@.len() == 1 + nt_count + j,
                entries@[0]@ == dec(s as nat),
                forall|x: int| 0 <= x < nt_count ==> (#[trigger] entries@[1 + x])@
                    == actions_text(action_models(state.common_actions@) + lookup(state.actions@, table.seen_terms@[x]@)),
                forall|x: int| 0 <= x < j ==> (#[trigger] entries@[1 + nt_count + x])@ == goto_cell(*state, table.seen_non_terms@[x]@),
            decreases nn_count - j,
        {
            entries.push(non_terminal_box_string(state, &table.seen_non_terms[j]));
            j = j + 1;
        }
        let ghost rows0 = rows@;
        rows.push(entries);
        proof {
            assert forall|i: int| 0 <= i < rows@.len() implies (#[trigger] rows@[i])@.len() == 1 + nt_count + nn_count by {
                if i < rows0.len() {
                    assert(rows@[i] == rows0[i]);
                }
            }
            assert(rows@[0] == rows0[0]);
            assert forall|r: int| 0 <= r < s + 1 implies (#[trigger] rows@[r + 1])@[0]@ == dec(r as nat) by {
                if r < s {
                    assert(rows@[r + 1] == rows0[r + 1]);
                }
            }
            assert forall|r: int, x: int| 0 <= r < s + 1 && 0 <= x < nt_count implies (#[trigger] rows@[r + 1]@[1 + x])@
                == actions_text(action_models(table.states@[r].common_actions@) + lookup(table.states@[r].actions@, table.seen_terms@[x]@)) by {
                if r < s {
                    assert(rows@[r + 1] == rows0[r + 1]);
                }
            }
            assert forall|r: int, x: int| 0 <= r < s + 1 && 0 <= x < nn_count
                implies (#[trigger] rows@[r + 1]@[1 + nt_count + x])@ == goto_cell(table.states@[r], table.seen_non_terms@[x]@) by {
                if r < s {
                    assert(rows@[r + 1] == rows0[r + 1]);
                }
            }
        }
        s = s + 1;
    }
    rows
}

/// `n` copies of `t`.
pub open spec fn repeat(t: Seq<char>, n: nat) -> Seq<char>
    decreases n,
{
    if n == 0 {
        Seq::empty()
    } else {
        repeat(t, (n - 1) as nat) + t
    }
}

/// The characters a horizontal rule of the table is drawn with: its left
/// end, its line, the joints after a thick and a thin column boundary, and
/// its right end.
pub struct RulePieces {
    pub leftmost: String,
    pub line: String,
    pub thick: String,
    pub thin: String,
    pub rightmost: String,
}

/// The joint after column `i` of `k` columns.
pub open spec fn joint(i: int, k: int, thick: Seq<usize>, last: Seq<char>, thick_text: Seq<char>, thin_text: Seq<char>) -> Seq<char> {
    if i == k - 1 {
        last
    } else if thick.contains(i as usize) {
        thick_text
    } else {
        thin_text
    }
}

/// The first `k` columns of a horizontal rule drawn with `line`, the joints
/// `thick_j` and `thin_j`, and the right end `right`.
pub open spec fn rule_cols(
    widths: Seq<usize>,
    thick: Seq<usize>,
    line: Seq<char>,
    thick_j: Seq<char>,
    thin_j: Seq<char>,
    right: Seq<char>,
    k: int,
) -> Seq<char>
    decreases k,
{
    if k <= 0 {
        Seq::empty()
    } else {
        rule_cols(widths, thick, line, thick_j, thin_j, right, k - 1) + repeat(line, (widths[k - 1] + 2) as nat)
            + joint(k - 1, widths.len() as int, thick, right, thick_j, thin_j)
    }
}

/// A horizontal rule drawn with the five pieces.
pub open spec fn rule_text(widths: Seq<usize>, thick: Seq<usize>, pieces: Seq<char>) -> Seq<char> {
    seq![pieces[0]] + rule_cols(widths, thick, seq![pieces[1]], seq![pieces[2]], seq![pieces[3]], seq![pieces[4]], widths.len() as int)
}

/// The first `k` cells of a row: each entry padded to its column's width.
pub open spec fn row_cols(row: Seq<String>, widths: Seq<usize>, thick: Seq<usize>, k: int) -> Seq<char>
    decreases k,
{
    if k <= 0 {
        Seq::empty()
    } else {
        row_cols(row, widths, thick, k - 1) + seq![' '] + row[k - 1]@ + repeat(seq![' '], (widths[k - 1] + 1 - row[k - 1]@.len()) as nat)
            + joint(k - 1, widths.len() as int, thick, seq!['║'], seq!['║'], seq!['│'])
    }
}

fn contains_index(v: &Vec<usize>, x: usize) -> (r: bool)
    ensures
        r == v@.contains(x),
{
    let mut i: usize = 0;
    while i < v.len()
        invariant
            i <= v@.len(),
            forall|k: int| 0 <= k < i ==> v@[k] != x,
        decreases v@.len() - i,
    {
        if v[i] == x {
            return true;
        }
        i = i + 1;
    }
    false
}

fn push_repeat(out: &mut Vec<char>, t: &str, n: usize)
    ensures
        final(out)@ == old(out)@ + repeat(t@, n as nat),
{
    let mut i: usize = 0;
    while i < n
        invariant
            i <= n,
            out@ == old(out)@ + repeat(t@, i as nat),
        decreases n - i,
    {
        push_text(out, t);
        proof {
            assert(repeat(t@, (i + 1) as nat) == repeat(t@, i as nat) + t@);
            assert(out@ =~= old(out)@ + repeat(t@, (i + 1) as nat));
        }
        i = i + 1;
    }
}

/// A horizontal rule of the table.
pub fn print_box_separator(widths: &Vec<usize>, thick: &Vec<usize>, pieces: &RulePieces) -> (r: String)
    requires
        forall|i: int| 0 <= i < widths@.len() ==> #[trigger] widths@[i] + 2 <= usize::MAX,
    ensures
        r@ == pieces.leftmost@ + rule_cols(widths@, thick@, pieces.line@, pieces.thick@, pieces.thin@, pieces.rightmost@,
            widths@.len() as int),
{
    let mut out: Vec<char> = Vec::new();
    push_text(&mut out, pieces.leftmost.as_str());
    let ghost head = out@;
    let mut i: usize = 0;
    while i < widths.len()
        invariant
            forall|i: int| 0 <= i < widths@.len() ==> #[trigger] widths@[i] + 2 <= usize::MAX,
            i <= widths@.len(),
            head == pieces.leftmost@,
            out@ == head + rule_cols(widths@, thick@, pieces.line@, pieces.thick@, pieces.thin@, pieces.rightmost@, i as int),
        decreases widths@.len() - i,
    {
        assert(widths@[i as int] + 2 <= usize::MAX);
        push_repeat(&mut out, pieces.line.as_str(), widths[i] + 2);
        if i == widths.len() - 1 {
            push_text(&mut out, pieces.rightmost.as_str());
        } else if contains_index(thick, i) {
            push_text(&mut out, pieces.thick.as_str());
        } else {
            push_text(&mut out, pieces.thin.as_str());
        }
        proof {
            assert(out@ =~= head + rule_cols(widths@, thick@, pieces.line@, pieces.thick@, pieces.thin@, pieces.rightmost@, i + 1));
        }
        i = i + 1;
    }
    to_string(&out)
}

/// A row of the table, each entry padded to its column's width.
pub fn print_box_row(row: &Vec<String>, widths: &Vec<usize>, thick: &Vec<usize>) -> (r: String)
    requires
        row@.len() == widths@.len(),
        forall|i: int| 0 <= i < widths@.len() ==> row@[i]@.len() <= #[trigger] widths@[i] < usize::MAX,
    ensures
        r@ == seq!['║'] + row_cols(row@, widths@, thick@, widths@.len() as int),
{
    let mut out: Vec<char> = Vec::new();
    out.push('║');
    let ghost head = out@;
    let mut i: usize = 0;
    while i < widths.len()
        invariant
            row@.len() == widths@.len(),
            forall|i: int| 0 <= i < widths@.len() ==> row@[i]@.len() <= #[trigger] widths@[i] < usize::MAX,
            i <= widths@.len(),
            head == seq!['║'],
            out@ == head + row_cols(row@, widths@, thick@, i as int),
        decreases widths@.len() - i,
    {
        let entry = &row[i];
        out.push(' ');
        push_text(&mut out, entry.as_str());
        let len = entry.as_str().unicode_len();
        assert(len <= widths@[i as int]);
        push_repeat(&mut out, " ", widths[i] + 1 - len);
        if i == widths.len() - 1 || contains_index(thick, i) {
            push_text(&mut out, "║");
        } else {
            push_text(&mut out, "│");
        }
        proof {
            reveal_strlit(" ");
            reveal_strlit("║");
            reveal_strlit("│");
            assert(" "@ =~= seq![' ']);
            assert(out@ =~= head + row_cols(row@, widths@, thick@, i + 1));
        }
        i = i + 1;
    }
    to_string(&out)
}

pub open spec fn top_pieces() -> Seq<char> {
    seq!['╔', '═', '╦', '╤', '╗']
}

pub open spec fn head_pieces() -> Seq<char> {
    seq!['╠', '═', '╬', '╪', '╣']
}

pub open spec fn inner_pieces() -> Seq<char> {
    seq!['╟', '─', '╫', '┼', '╢']
}

pub open spec fn bottom_pieces() -> Seq<char> {
    seq!['╚', '═', '╩', '╧', '╝']
}

/// `w` holds the widest entry of each column of `rows`.
pub open spec fn column_widths(rows: Seq<Vec<String>>, w: Seq<usize>) -> bool {
    &&& w.len() == rows[0]@.len()
    &&& forall|c: int| 0 <= c < w.len() ==> forall|i: int| 0 <= i < rows.len() ==> rows[i]@[c]@.len() <= #[trigger] w[c]
    &&& forall|c: int| 0 <= c < w.len() ==> w[c] == 0 || exists|i: int| 0 <= i < rows.len() && rows[i]@[c]@.len() == #[trigger] w[c]
}

/// The first `k` rows with the rules under them: a heavy rule under the
/// header, light rules between the other rows.
pub open spec fn rows_text(rows: Seq<Vec<String>>, w: Seq<usize>, thick: Seq<usize>, k: int) -> Seq<char>
    decreases k,
{
    if k <= 0 {
        Seq::empty()
    } else {
        let i = k - 1;
        rows_text(rows, w, thick, i) + seq!['║'] + row_cols(rows[i]@, w, thick, w.len() as int) + seq!['\n']
            + if i == 0 {
            rule_text(w, thick, head_pieces()) + seq!['\n']
        } else if i < rows.len() - 1 {
            rule_text(w, thick, inner_pieces()) + seq!['\n']
        } else {
            Seq::empty()
        }
    }
}

fn pieces(p: &str) -> (r: RulePieces)
    requires
        p@.len() == 5,
    ensures
        r.leftmost@ == seq![p@[0]],
        r.line@ == seq![p@[1]],
        r.thick@ == seq![p@[2]],
        r.thin@ == seq![p@[3]],
        r.rightmost@ == seq![p@[4]],
{
    let cs = crate::scanner::chars_of(p);
    let one = |i: usize| -> (s: String)
        requires
            i < 5,
            cs@.len() == 5,
        ensures
            s@ == seq![cs@[i as int]],
    {
        let s = text_of(&cs, i, i + 1);
        assert(cs@.subrange(i as int, i + 1) =~= seq![cs@[i as int]]);
        s
    };
    RulePieces { leftmost: one(0), line: one(1), thick: one(2), thin: one(3), rightmost: one(4) }
}

/// The whole table in a box: a rule on top, each row with the rule under it,
/// a rule at the bottom; each column as wide as its widest entry.
pub fn print_box_table(rows: &Vec<Vec<String>>, thick: &Vec<usize>) -> (r: String)
    requires
        rows@.len() >= 1,
        forall|i: int| 0 <= i < rows@.len() ==> (#[trigger] rows@[i])@.len() == rows@[0]@.len(),
        forall|i: int, c: int| 0 <= i < rows@.len() && 0 <= c < rows@[i]@.len() ==> (#[trigger] rows@[i]@[c])@.len() + 2 <= usize::MAX,
    ensures
        exists|w: Seq<usize>| column_widths(rows@, w) && r@ == rule_text(w, thick@, top_pieces()) + seq!['\n']
            + rows_text(rows@, w, thick@, rows@.len() as int) + rule_text(w, thick@, bottom_pieces()) + seq!['\n'],
{
    let widths = max_column_widths(rows);
    let ghost w = widths@;
    proof {
        reveal_strlit("╔═╦╤╗");
        reveal_strlit("╠═╬╪╣");
        reveal_strlit("╟─╫┼╢");
        reveal_strlit("╚═╩╧╝");
        reveal_strlit("\n");
        assert forall|c: int| 0 <= c < w.len() implies #[trigger] w[c] + 2 <= usize::MAX by {
            if w[c] != 0 {
                let i = choose|i: int| 0 <= i < rows@.len() && rows@[i]@[c]@.len() == w[c];
                assert(rows@[i]@[c]@.len() + 2 <= usize::MAX);
            }
        }
    }
    let top = pieces("╔═╦╤╗");
    let head = pieces("╠═╬╪╣");
    let inner = pieces("╟─╫┼╢");
    let bottom = pieces("╚═╩╧╝");
    let mut out = print_box_separator(&widths, thick, &top);
    out.append("\n");
    let ghost start = out@;
    proof {
        let tp = top_pieces();
        assert(tp[0] == '╔' && tp[1] == '═' && tp[2] == '╦' && tp[3] == '╤' && tp[4] == '╗');
        assert(start =~= rule_text(w, thick@, top_pieces()) + seq!['\n']);
    }
    let mut i: usize = 0;
    while i < rows.len()
        invariant
            w == widths@,
            rows@.len() >= 1,
            forall|i: int| 0 <= i < rows@.len() ==> (#[trigger] rows@[i])@.len() == rows@[0]@.len(),
            column_widths(rows@, w),
            forall|c: int| 0 <= c < w.len() ==> #[trigger] w[c] + 2 <= usize::MAX,
            head.leftmost@ == seq!['╠'] && head.line@ == seq!['═'] && head.thick@ == seq!['╬'] && head.thin@ == seq!['╪'] && head.rightmost@ == seq!['╣'],
            inner.leftmost@ == seq!['╟'] && inner.line@ == seq!['─'] && inner.thick@ == seq!['╫'] && inner.thin@ == seq!['┼'] && inner.rightmost@ == seq!['╢'],
            i <= rows@.len(),
            out@ == start + rows_text(rows@, w, thick@, i as int),
        decreases rows@.len() - i,
    {
        proof {
            assert forall|c: int| 0 <= c < w.len() implies rows@[i as int]@[c]@.len() <= #[trigger] w[c] < usize::MAX by {}
        }
        proof {
            reveal_strlit("\n");
        }
        let ghost before = out@;
        let line = print_box_row(&rows[i], &widths, thick);
        out.append(line.as_str());
        out.append("\n");
        let ghost mid = out@;
        assert(mid == before + line@ + seq!['\n']);
        if i == 0 {
            let sep = print_box_separator(&widths, thick, &head);
            out.append(sep.as_str());
            out.append("\n");
            assert(out@ == mid + sep@ + seq!['\n']);
        } else if i < rows.len() - 1 {
            let sep = print_box_separator(&widths, thick, &inner);
            out.append(sep.as_str());
            out.append("\n");
            assert(out@ == mid + sep@ + seq!['\n']);
        }
        proof {
            let hp = head_pieces();
            let ip = inner_pieces();
            assert(hp[0] == '╠' && hp[1] == '═' && hp[2] == '╬' && hp[3] == '╪' && hp[4] == '╣');
            assert(ip[0] == '╟' && ip[1] == '─' && ip[2] == '╫' && ip[3] == '┼' && ip[4] == '╢');
            assert(rule_text(w, thick@, hp) == head.leftmost@ + rule_cols(w, thick@, head.line@, head.thick@, head.thin@,
                head.rightmost@, w.len() as int));
            assert(rule_text(w, thick@, ip) == inner.leftmost@ + rule_cols(w, thick@, inner.line@, inner.thick@, inner.thin@,
                inner.rightmost@, w.len() as int));
            let k = (i + 1) as int;
            assert(rows_text(rows@, w, thick@, k) == rows_text(rows@, w, thick@, k - 1) + seq!['║']
                + row_cols(rows@[k - 1]@, w, thick@, w.len() as int) + seq!['\n'] + if k - 1 == 0 {
                rule_text(w, thick@, head_pieces()) + seq!['\n']
            } else if k - 1 < rows@.len() - 1 {
                rule_text(w, thick@, inner_pieces()) + seq!['\n']
            } else {
                Seq::<char>::empty()
            });
            assert(out@ =~= start + rows_text(rows@, w, thick@, i + 1));
        }
        i = i + 1;
    }
    let sep = print_box_separator(&widths, thick, &bottom);
    out.append(sep.as_str());
    out.append("\n");
    proof {
        reveal_strlit("\n");
        let bp = bottom_pieces();
        assert(bp[0] == '╚' && bp[1] == '═' && bp[2] == '╩' && bp[3] == '╧' && bp[4] == '╝');
        assert(out@ =~= rule_text(w, thick@, top_pieces()) + seq!['\n'] + rows_text(rows@, w, thick@, rows@.len() as int)
            + rule_text(w, thick@, bottom_pieces()) + seq!['\n']);
    }
    out
}

} // verus!
