//! Emission of a recursive-descent parser from the analysed grammar, driven
//! by a target-language template.
use vstd::prelude::*;
use crate::language::{wrapped, Language, Wrapper};
use crate::productions::{NonTerminal, Production};
use crate::scanner::{chars_of, text_of, Token, TokenKind};

verus! {

pub open spec fn is_quote(c: char) -> bool {
    c == '\'' || c == '"'
}

/// The first position from `i` on that holds no quote, or the end.
pub open spec fn quote_front(s: Seq<char>, i: int) -> int
    decreases s.len() - i,
{
    if 0 <= i < s.len() && is_quote(s[i]) {
        quote_front(s, i + 1)
    } else {
        i
    }
}

/// The end of `s.take(j)` once the quotes at its end are dropped.
pub open spec fn quote_back(s: Seq<char>, j: int) -> int
    decreases j,
{
    if 0 < j <= s.len() && is_quote(s[j - 1]) {
        quote_back(s, j - 1)
    } else {
        j
    }
}

/// `s` without the quotes around it: every quote at its start and at its
/// end.
pub open spec fn strip(s: Seq<char>) -> Seq<char> {
    let a = quote_front(s, 0);
    let b = quote_back(s, s.len() as int);
    if a < b {
        s.subrange(a, b)
    } else {
        Seq::empty()
    }
}

proof fn lemma_quote_front(s: Seq<char>, i: int)
    requires
        0 <= i <= s.len(),
    ensures
        i <= quote_front(s, i) <= s.len(),
        quote_front(s, i) < s.len() ==> !is_quote(s[quote_front(s, i)]),
        forall|k: int| i <= k < quote_front(s, i) ==> is_quote(#[trigger] s[k]),
    decreases s.len() - i,
{
    if i < s.len() && is_quote(s[i]) {
        lemma_quote_front(s, i + 1);
    }
}

proof fn lemma_quote_back(s: Seq<char>, j: int)
    requires
        0 <= j <= s.len(),
    ensures
        0 <= quote_back(s, j) <= j,
        quote_back(s, j) > 0 ==> !is_quote(s[quote_back(s, j) - 1]),
        forall|k: int| quote_back(s, j) <= k < j ==> is_quote(#[trigger] s[k]),
    decreases j,
{
    if 0 < j && is_quote(s[j - 1]) {
        lemma_quote_back(s, j - 1);
    }
}

/// Stripping quotes twice is stripping them once.
pub proof fn lemma_strip_idempotent(s: Seq<char>)
    ensures
        strip(strip(s)) == strip(s),
{
    let t = strip(s);
    lemma_quote_front(s, 0);
    lemma_quote_back(s, s.len() as int);
    if t.len() > 0 {
        let a = quote_front(s, 0);
        let b = quote_back(s, s.len() as int);
        assert(t[0] == s[a]);
        assert(t[t.len() - 1] == s[b - 1]);
        assert(quote_front(t, 0) == 0);
        assert(quote_back(t, t.len() as int) == t.len());
        assert(t.subrange(0, t.len() as int) =~= t);
    } else {
        assert(quote_front(t, 0) == 0);
        assert(quote_back(t, 0) == 0);
    }
}

/// The literal without the quotes around it.
pub fn strip_literal(literal: &String) -> (r: String)
    ensures
        r@ == strip(literal@),
{
    let chars = chars_of(literal.as_str());
    let n = chars.len();
    let mut a: usize = 0;
    while a < n && (chars[a] == '\'' || chars[a] == '"')
        invariant
            chars@ == literal@,
            n == chars@.len(),
            a <= n,
            quote_front(chars@, a as int) == quote_front(chars@, 0),
        decreases n - a,
    {
        a = a + 1;
    }
    let mut b: usize = n;
    while b > 0 && (chars[b - 1] == '\'' || chars[b - 1] == '"')
        invariant
            chars@ == literal@,
            n == chars@.len(),
            b <= n,
            quote_back(chars@, b as int) == quote_back(chars@, n as int),
        decreases b,
    {
        b = b - 1;
    }
    if a < b {
        text_of(&chars, a, b)
    } else {
        let r = String::new();
        assert(r@ =~= strip(literal@));
        r
    }
}

/// The literal between double quotes, whatever quotes it had.
pub fn normalize_literal(literal: &String) -> (r: String)
    ensures
        r@ == seq!['"'] + strip(literal@) + seq!['"'],
{
    let mut chars: Vec<char> = Vec::new();
    chars.push('"');
    let inner = chars_of(strip_literal(literal).as_str());
    let mut i: usize = 0;
    while i < inner.len()
        invariant
            i <= inner@.len(),
            chars@ == seq!['"'] + inner@.take(i as int),
        decreases inner@.len() - i,
    {
        chars.push(inner[i]);
        proof {
            assert(chars@ =~= seq!['"'] + inner@.take(i + 1));
        }
        i = i + 1;
    }
    chars.push('"');
    proof {
        assert(inner@.take(inner@.len() as int) =~= inner@);
    }
    let n = chars.len();
    let r = text_of(&chars, 0, n);
    assert(chars@.subrange(0, n as int) =~= chars@);
    r
}

/// The indentation of one tab: four spaces.
pub open spec fn tab() -> Seq<char> {
    seq![' ', ' ', ' ', ' ']
}

/// The indentation of `n` tabs.
pub open spec fn indent(n: nat) -> Seq<char>
    decreases n,
{
    if n == 0 {
        Seq::empty()
    } else {
        indent((n - 1) as nat) + tab()
    }
}

/// The text being generated and the current indentation.
pub struct GeneratorContext {
    pub num_tabs: usize,
    pub output: String,
}

impl GeneratorContext {
    pub fn new() -> (r: GeneratorContext)
        ensures
            r.num_tabs == 0,
            r.output@ == Seq::<char>::empty(),
    {
        GeneratorContext { num_tabs: 0, output: String::new() }
    }

    pub fn push_tabs(&mut self)
        requires
            old(self).num_tabs < usize::MAX,
        ensures
            final(self).num_tabs == old(self).num_tabs + 1,
            final(self).output == old(self).output,
    {
        self.num_tabs = self.num_tabs + 1;
    }

    pub fn pop_tabs(&mut self)
        ensures
            final(self).num_tabs == if old(self).num_tabs == 0 { 0 } else { old(self).num_tabs - 1 },
            final(self).output == old(self).output,
    {
        if self.num_tabs != 0 {
            self.num_tabs = self.num_tabs - 1;
        }
    }

    /// Indents a new line.
    pub fn start_line(&mut self)
        ensures
            final(self).num_tabs == old(self).num_tabs,
            final(self).output@ == old(self).output@ + indent(old(self).num_tabs as nat),
    {
        let mut i: usize = 0;
        while i < self.num_tabs
            invariant
                i <= self.num_tabs,
                self.num_tabs == old(self).num_tabs,
                self.output@ == old(self).output@ + indent(i as nat),
            decreases self.num_tabs - i,
        {
            self.output.append("    ");
            proof {
                reveal_strlit("    ");
                assert(indent((i + 1) as nat) == indent(i as nat) + tab());
                assert(self.output@ =~= old(self).output@ + indent((i + 1) as nat));
            }
            i = i + 1;
        }
    }

    pub fn emit_newline(&mut self)
        ensures
            final(self).num_tabs == old(self).num_tabs,
            final(self).output@ == old(self).output@ + seq!['\n'],
    {
        self.output.append("\n");
        proof {
            reveal_strlit("\n");
        }
    }

    pub fn push_str(&mut self, value: &str)
        ensures
            final(self).num_tabs == old(self).num_tabs,
            final(self).output@ == old(self).output@ + value@,
    {
        self.output.append(value);
    }
}

/// How a terminal of a PREDICT set is written in the generated code: between
/// double quotes, the empty name standing for `EOF`.
pub open spec fn predict_item(t: Seq<char>) -> Seq<char> {
    if t.len() == 0 {
        seq!['"', 'E', 'O', 'F', '"']
    } else {
        seq!['"'] + strip(t) + seq!['"']
    }
}

/// The terminals of a PREDICT set, written one after the other with `, `
/// between them.
pub open spec fn predict_text(v: Seq<String>) -> Seq<char>
    decreases v.len(),
{
    if v.len() == 0 {
        Seq::empty()
    } else if v.len() == 1 {
        predict_item(v[0]@)
    } else {
        predict_text(v.drop_last()) + seq![',', ' '] + predict_item(v.last()@)
    }
}

/// The PREDICT set as a list of quoted terminals.
pub fn generate_predict_list(predict_set: &Vec<String>) -> (r: String)
    ensures
        r@ == predict_text(predict_set@),
{
    let mut predict_list = String::new();
    let mut i: usize = 0;
    while i < predict_set.len()
        invariant
            i <= predict_set@.len(),
            predict_list@ == predict_text(predict_set@.take(i as int)),
        decreases predict_set@.len() - i,
    {
        let token = &predict_set[i];
        let item = if token.as_str().unicode_len() == 0 {
            let e = String::from_str("\"EOF\"");
            proof {
                reveal_strlit("\"EOF\"");
                assert(e@ =~= seq!['"', 'E', 'O', 'F', '"']);
            }
            e
        } else {
            normalize_literal(token)
        };
        assert(item@ == predict_item(token@));
        if i > 0 {
            predict_list.append(", ");
        }
        predict_list.append(item.as_str());
        proof {
            reveal_strlit(", ");
            let v = predict_set@.take(i + 1);
            assert(v.drop_last() =~= predict_set@.take(i as int));
            assert(v.last() == token);
            if i > 0 {
                assert(predict_list@ =~= predict_text(v));
            } else {
                assert(predict_list@ =~= predict_text(v));
            }
        }
        i = i + 1;
    }
    assert(predict_set@.take(predict_set@.len() as int) =~= predict_set@);
    predict_list
}

/// What a symbol of a production turns into: a call of the non-terminal's
/// function, or a match of the terminal.
pub open spec fn call_text(lang: Language, t: Token) -> Seq<char> {
    match t.kind {
        TokenKind::Term => wrapped(lang.match_call, strip(t.value@)),
        TokenKind::Id => wrapped(lang.func_call, t.value@),
        TokenKind::Eof => wrapped(lang.match_call, seq!['E', 'O', 'F']),
        _ => Seq::empty(),
    }
}

/// The lines of a production's body at indentation `n`.
pub open spec fn body_text(lang: Language, n: nat, w: Seq<Token>) -> Seq<char>
    decreases w.len(),
{
    if w.len() == 0 {
        Seq::empty()
    } else {
        body_text(lang, n, w.drop_last()) + indent(n) + call_text(lang, w.last()) + seq!['\n']
    }
}

/// Emits the body of a production: a call or a match per symbol, one per
/// line, or the language's empty body.
pub fn emit_production_body(ctx: &mut GeneratorContext, prod: &Production, language: &Language)
    ensures
        final(ctx).num_tabs == old(ctx).num_tabs,
        final(ctx).output@ == old(ctx).output@ + if prod.list@.len() == 0 {
            indent(old(ctx).num_tabs as nat) + language.empty_production_body@ + seq!['\n']
        } else {
            body_text(*language, old(ctx).num_tabs as nat, prod.list@)
        },
{
    if prod.list.len() == 0 {
        ctx.start_line();
        ctx.push_str(language.empty_production_body.as_str());
        ctx.emit_newline();
        assert(ctx.output@ =~= old(ctx).output@ + indent(old(ctx).num_tabs as nat) + language.empty_production_body@ + seq!['\n']);
        return;
    }
    let mut i: usize = 0;
    while i < prod.list.len()
        invariant
            i <= prod.list@.len(),
            ctx.num_tabs == old(ctx).num_tabs,
            ctx.output@ == old(ctx).output@ + body_text(*language, ctx.num_tabs as nat, prod.list@.take(i as int)),
        decreases prod.list@.len() - i,
    {
        let token = &prod.list[i];
        ctx.start_line();
        let content = match token.kind {
            TokenKind::Term => language.match_call.wrap(strip_literal(&token.value).as_str()),
            TokenKind::Id => language.func_call.wrap(token.value.as_str()),
            TokenKind::Eof => {
                let r = language.match_call.wrap("EOF");
                proof {
                    reveal_strlit("EOF");
                    assert("EOF"@ =~= seq!['E', 'O', 'F']);
                }
                r
            },
            _ => String::new(),
        };
        ctx.push_str(content.as_str());
        ctx.emit_newline();
        proof {
            let v = prod.list@.take(i + 1);
            assert(v.drop_last() =~= prod.list@.take(i as int));
            assert(v.last() == *token);
            assert(content@ == call_text(*language, *token));
            assert(ctx.output@ =~= old(ctx).output@ + body_text(*language, ctx.num_tabs as nat, v));
        }
        i = i + 1;
    }
    assert(prod.list@.take(prod.list@.len() as int) =~= prod.list@);
}

/// Lines at indentation `n`, each ended by a newline.
pub open spec fn lines_text(n: nat, lines: Seq<String>) -> Seq<char>
    decreases lines.len(),
{
    if lines.len() == 0 {
        Seq::empty()
    } else {
        lines_text(n, lines.drop_last()) + indent(n) + lines.last()@ + seq!['\n']
    }
}

fn emit_lines(ctx: &mut GeneratorContext, lines: &Vec<String>)
    ensures
        final(ctx).num_tabs == old(ctx).num_tabs,
        final(ctx).output@ == old(ctx).output@ + lines_text(old(ctx).num_tabs as nat, lines@),
{
    let mut i: usize = 0;
    while i < lines.len()
        invariant
            i <= lines@.len(),
            ctx.num_tabs == old(ctx).num_tabs,
            ctx.output@ == old(ctx).output@ + lines_text(ctx.num_tabs as nat, lines@.take(i as int)),
        decreases lines@.len() - i,
    {
        ctx.start_line();
        ctx.push_str(lines[i].as_str());
        ctx.emit_newline();
        proof {
            let v = lines@.take(i + 1);
            assert(v.drop_last() =~= lines@.take(i as int));
            assert(ctx.output@ =~= old(ctx).output@ + lines_text(ctx.num_tabs as nat, v));
        }
        i = i + 1;
    }
    assert(lines@.take(lines@.len() as int) =~= lines@);
}

/// The four helper functions of a generated parser, a blank line after each.
pub open spec fn required_text(lang: Language, n: nat) -> Seq<char> {
    lines_text(n, lang.required_functions.constructor@) + seq!['\n'] + lines_text(n, lang.required_functions.error_func@)
        + seq!['\n'] + lines_text(n, lang.required_functions.match_func@) + seq!['\n']
        + lines_text(n, lang.required_functions.current_func@) + seq!['\n']
}

/// The public `parse` function at indentation `n`: it calls the start
/// symbol's function, then matches `EOF`.
pub open spec fn parse_fn_text(lang: Language, n: nat, start: Seq<char>) -> Seq<char> {
    indent(n) + wrapped(lang.public_func_def, seq!['p', 'a', 'r', 's', 'e']) + lang.func_body.prefix@ + seq!['\n']
        + indent(n + 1) + wrapped(lang.func_call, start) + seq!['\n']
        + indent(n + 1) + wrapped(lang.match_call, seq!['E', 'O', 'F']) + seq!['\n']
        + seq!['\n'] + indent(n) + lang.func_body.suffix@ + seq!['\n']
}

/// Emits the helper functions, then the public `parse` function that calls
/// the start symbol's function and matches `EOF`.
pub fn emit_required_functions(ctx: &mut GeneratorContext, language: &Language, start_term_name: &str)
    requires
        old(ctx).num_tabs < usize::MAX,
    ensures
        final(ctx).num_tabs == old(ctx).num_tabs,
        final(ctx).output@ == old(ctx).output@ + required_text(*language, old(ctx).num_tabs as nat)
            + parse_fn_text(*language, old(ctx).num_tabs as nat, start_term_name@),
{
    let ghost n = ctx.num_tabs as nat;
    emit_lines(ctx, &language.required_functions.constructor);
    ctx.emit_newline();
    emit_lines(ctx, &language.required_functions.error_func);
    ctx.emit_newline();
    emit_lines(ctx, &language.required_functions.match_func);
    ctx.emit_newline();
    emit_lines(ctx, &language.required_functions.current_func);
    ctx.emit_newline();
    let ghost head = ctx.output@;
    assert(head =~= old(ctx).output@ + required_text(*language, n));
    ctx.start_line();
    proof {
        reveal_strlit("parse");
        reveal_strlit("EOF");
    }
    ctx.push_str(language.public_func_def.wrap("parse").as_str());
    ctx.push_str(language.func_body.prefix.as_str());
    ctx.emit_newline();
    ctx.push_tabs();
    ctx.start_line();
    ctx.push_str(language.func_call.wrap(start_term_name).as_str());
    ctx.emit_newline();
    ctx.start_line();
    ctx.push_str(language.match_call.wrap("EOF").as_str());
    ctx.emit_newline();
    ctx.pop_tabs();
    ctx.emit_newline();
    ctx.start_line();
    ctx.push_str(language.func_body.suffix.as_str());
    ctx.emit_newline();
    proof {
        assert("parse"@ =~= seq!['p', 'a', 'r', 's', 'e']);
        assert("EOF"@ =~= seq!['E', 'O', 'F']);
        assert(ctx.output@ =~= head + parse_fn_text(*language, n, start_term_name@));
    }
}

/// The body of a production's branch at indentation `n`.
pub open spec fn branch_body(lang: Language, n: nat, prod: Production) -> Seq<char> {
    if prod.list@.len() == 0 {
        indent(n) + lang.empty_production_body@ + seq!['\n']
    } else {
        body_text(lang, n, prod.list@)
    }
}

/// The branch of production `q` at indentation `n`: `if` (first) or
/// `else if` over its PREDICT list, then its body in the function body
/// wrapper.
pub open spec fn branch_text(lang: Language, n: nat, prods: Seq<Production>, q: int) -> Seq<char> {
    (if q == 0 { indent(n) } else { Seq::empty() })
        + wrapped(if q == 0 { lang.if_clause } else { lang.elseif_clause },
            wrapped(lang.condition, predict_text(prods[q].predict_set@)))
        + lang.func_body.prefix@ + seq!['\n'] + branch_body(lang, n + 1, prods[q]) + indent(n) + lang.func_body.suffix@
}

/// The branches of the first `k` productions.
pub open spec fn branches_upto(lang: Language, n: nat, prods: Seq<Production>, k: int) -> Seq<char>
    decreases k,
{
    if k <= 0 {
        Seq::empty()
    } else {
        branches_upto(lang, n, prods, k - 1) + branch_text(lang, n, prods, k - 1)
    }
}

/// The whole body of a non-terminal's function: one branch per production,
/// then the `else` branch that reports an error with the non-terminal's
/// PREDICT list.
pub open spec fn branches_text(lang: Language, n: nat, nt: NonTerminal) -> Seq<char> {
    branches_upto(lang, n, nt.productions@, nt.productions@.len() as int) + lang.else_clause@ + lang.func_body.prefix@
        + seq!['\n'] + indent(n + 1) + wrapped(lang.error_call, predict_text(nt.predict_set@)) + seq!['\n'] + indent(n)
        + lang.func_body.suffix@ + seq!['\n']
}

/// Emits the `if`/`else if` chain that picks a production by its PREDICT
/// set, and the `else` branch that reports an error.
#[verifier::rlimit(60)]
pub fn emit_nonterminal_function_body(ctx: &mut GeneratorContext, nt: &NonTerminal, language: &Language)
    requires
        old(ctx).num_tabs < usize::MAX,
    ensures
        final(ctx).num_tabs == old(ctx).num_tabs,
        final(ctx).output@ == old(ctx).output@ + branches_text(*language, old(ctx).num_tabs as nat, *nt),
{
    let ghost n = ctx.num_tabs as nat;
    let mut first_prod = true;
    let mut p: usize = 0;
    assert(ctx.output@ =~= old(ctx).output@ + branches_upto(*language, n, nt.productions@, 0));
    while p < nt.productions.len()
        invariant
            ctx.num_tabs == old(ctx).num_tabs,
            n == old(ctx).num_tabs as nat,
            old(ctx).num_tabs < usize::MAX,
            p <= nt.productions@.len(),
            first_prod == (p == 0),
            ctx.output@ == old(ctx).output@ + branches_upto(*language, n, nt.productions@, p as int),
        decreases nt.productions@.len() - p,
    {
        let ghost before = ctx.output@;
        let prod = &nt.productions[p];
        let wrapper: &Wrapper = if first_prod {
            first_prod = false;
            ctx.start_line();
            &language.if_clause
        } else {
            &language.elseif_clause
        };
        let condition = language.condition.wrap(generate_predict_list(&prod.predict_set).as_str());
        ctx.push_str(wrapper.wrap(condition.as_str()).as_str());
        ctx.push_str(language.func_body.prefix.as_str());
        ctx.emit_newline();
        ctx.push_tabs();
        emit_production_body(ctx, prod, language);
        ctx.pop_tabs();
        ctx.start_line();
        ctx.push_str(language.func_body.suffix.as_str());
        proof {
            assert(ctx.output@ =~= before + branch_text(*language, n, nt.productions@, p as int));
            assert(ctx.output@ =~= old(ctx).output@ + branches_upto(*language, n, nt.productions@, p + 1));
        }
        p = p + 1;
    }
    let ghost before = ctx.output@;
    ctx.push_str(language.else_clause.as_str());
    ctx.push_str(language.func_body.prefix.as_str());
    ctx.emit_newline();
    ctx.push_tabs();
    ctx.start_line();
    ctx.push_str(language.error_call.wrap(generate_predict_list(&nt.predict_set).as_str()).as_str());
    ctx.emit_newline();
    ctx.pop_tabs();
    ctx.start_line();
    ctx.push_str(language.func_body.suffix.as_str());
    ctx.emit_newline();
    proof {
        assert(ctx.output@ =~= old(ctx).output@ + branches_text(*language, n, *nt));
    }
}

/// The function of non-terminal `nt` at indentation `n`.
pub open spec fn function_text(lang: Language, n: nat, nt: NonTerminal) -> Seq<char> {
    indent(n) + wrapped(lang.private_func_def, nt.name@) + lang.func_body.prefix@ + seq!['\n']
        + branches_text(lang, n + 1, nt) + indent(n) + lang.func_body.suffix@ + seq!['\n']
}

/// Emits the function of a non-terminal.
pub fn emit_nonterminal_function(ctx: &mut GeneratorContext, nt: &NonTerminal, language: &Language)
    requires
        old(ctx).num_tabs < usize::MAX - 1,
    ensures
        final(ctx).num_tabs == old(ctx).num_tabs,
        final(ctx).output@ == old(ctx).output@ + function_text(*language, old(ctx).num_tabs as nat, *nt),
{
    ctx.start_line();
    ctx.push_str(language.private_func_def.wrap(nt.name.as_str()).as_str());
    ctx.push_str(language.func_body.prefix.as_str());
    ctx.emit_newline();
    ctx.push_tabs();
    emit_nonterminal_function_body(ctx, nt, language);
    ctx.pop_tabs();
    ctx.start_line();
    ctx.push_str(language.func_body.suffix.as_str());
    ctx.emit_newline();
    assert(ctx.output@ =~= old(ctx).output@ + function_text(*language, old(ctx).num_tabs as nat, *nt));
}

/// The functions of the first `k` non-terminals at indentation `n`.
pub open spec fn functions_upto(lang: Language, n: nat, nts: Seq<NonTerminal>, k: int) -> Seq<char>
    decreases k,
{
    if k <= 0 {
        Seq::empty()
    } else {
        functions_upto(lang, n, nts, k - 1) + function_text(lang, n, nts[k - 1])
    }
}

/// `j` is the first non-terminal marked as the start symbol.
pub open spec fn first_start(nts: Seq<NonTerminal>, j: int) -> bool {
    0 <= j < nts.len() && nts[j].is_start_term && forall|k: int| 0 <= k < j ==> !(#[trigger] nts[k]).is_start_term
}

/// The helper functions and the `parse` function, when there is a start
/// symbol.
pub open spec fn required_part(lang: Language, nts: Seq<NonTerminal>) -> Seq<char> {
    if exists|j: int| first_start(nts, j) {
        required_text(lang, 1) + parse_fn_text(lang, 1, nts[choose|j: int| first_start(nts, j)].name@)
    } else {
        Seq::empty()
    }
}

/// The class body: the helper functions, the `parse` function, then one
/// function per non-terminal in order, inside the class body wrapper.
pub open spec fn class_body_text(lang: Language, nts: Seq<NonTerminal>) -> Seq<char> {
    wrapped(lang.class_body_wrapper, required_part(lang, nts) + functions_upto(lang, 1, nts, nts.len() as int))
}

/// The body of the generated parser class: the helper functions, then one
/// function per non-terminal, inside the class body wrapper.
pub fn generate_class_body(non_terminals: &Vec<NonTerminal>, language: &Language) -> (r: String)
    ensures
        r@ == class_body_text(*language, non_terminals@),
{
    let mut ctx = GeneratorContext::new();
    ctx.push_tabs();
    let mut start: usize = 0;
    let mut found = false;
    while start < non_terminals.len() && !found
        invariant
            start <= non_terminals@.len(),
            found ==> first_start(non_terminals@, start as int),
            !found ==> forall|k: int| 0 <= k < start ==> !(#[trigger] non_terminals@[k]).is_start_term,
        decreases non_terminals@.len() - start + if found { 0int } else { 1int },
    {
        if non_terminals[start].is_start_term {
            found = true;
        } else {
            start = start + 1;
        }
    }
    proof {
        if found {
            assert forall|j: int| first_start(non_terminals@, j) implies j == start by {
                if j < start {
                    assert(!non_terminals@[j].is_start_term);
                } else if j > start {
                    assert(!non_terminals@[start as int].is_start_term);
                }
            }
        } else {
            assert forall|j: int| !first_start(non_terminals@, j) by {
                if 0 <= j < non_terminals@.len() {
                    assert(!non_terminals@[j].is_start_term);
                }
            }
        }
    }
    if found {
        emit_required_functions(&mut ctx, language, non_terminals[start].name.as_str());
    }
    let ghost head = ctx.output@;
    assert(head =~= required_part(*language, non_terminals@));
    let mut i: usize = 0;
    while i < non_terminals.len()
        invariant
            ctx.num_tabs == 1,
            i <= non_terminals@.len(),
            ctx.output@ == head + functions_upto(*language, 1, non_terminals@, i as int),
        decreases non_terminals@.len() - i,
    {
        emit_nonterminal_function(&mut ctx, &non_terminals[i], language);
        assert(ctx.output@ =~= head + functions_upto(*language, 1, non_terminals@, i + 1));
        i = i + 1;
    }
    ctx.pop_tabs();
    language.class_body_wrapper.wrap(ctx.output.as_str())
}

/// The whole generated parser: imports, the parse error type, the class
/// header and the class body.
pub fn generate_parser(non_terminals: &Vec<NonTerminal>, language: &Language) -> (r: String)
    ensures
        r@ == language.imports@ + seq!['\n'] + language.parse_error@ + seq!['\n'] + language.class_def@
            + seq!['\n'] + class_body_text(*language, non_terminals@),
{
    proof {
        reveal_strlit("\n");
    }
    let mut result = language.imports.clone();
    result.append("\n");
    result.append(language.parse_error.as_str());
    result.append("\n");
    result.append(language.class_def.as_str());
    result.append("\n");
    let body = generate_class_body(non_terminals, language);
    result.append(body.as_str());
    assert(result@ =~= language.imports@ + seq!['\n'] + language.parse_error@ + seq!['\n'] + language.class_def@
        + seq!['\n'] + class_body_text(*language, non_terminals@));
    result
}

} // verus!
