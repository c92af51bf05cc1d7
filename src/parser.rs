//! Reads a token list as a grammar: `NAME EQUALS alternatives END`, with
//! alternatives separated by `|`.
use vstd::prelude::*;
use crate::productions::{is_nt, model, rule, sym, syms, well_formed, NonTerminal, Production, Rule};
use crate::productions::Sym;
use crate::scanner::{alphabetic, token_shape, tokens_ok, Token, TokenKind};

verus! {

/// The token found, and the kinds that were expected in its place.
#[derive(Debug)]
pub enum ParserError {
    UnexpectedToken(Token, Vec<TokenKind>),
}

/// A recursive-descent reader of the grammar format.
pub struct Parser {
    pub scanner: Vec<Token>,
    pub current_ndx: usize,
    pub productions: Vec<(String, Vec<Production>)>,
}

/// The names defined so far, in order of first definition.
pub open spec fn defined(ps: Seq<(String, Vec<Production>)>) -> Seq<Seq<char>> {
    ps.map_values(|p: (String, Vec<Production>)| p.0@)
}

/// The kinds of a token list.
pub open spec fn kinds(ts: Seq<Token>) -> Seq<TokenKind> {
    ts.map_values(|t: Token| t.kind)
}

pub open spec fn is_symbol_kind(k: TokenKind) -> bool {
    k == TokenKind::Id || k == TokenKind::Term
}

/// The first position from `i` on that holds no symbol.
pub open spec fn alt_end(k: Seq<TokenKind>, i: int) -> int
    decreases k.len() - i,
{
    if 0 <= i < k.len() && is_symbol_kind(k[i]) {
        alt_end(k, i + 1)
    } else {
        i
    }
}

/// The position of the `END` that closes the alternatives starting at `i`,
/// when they are alternatives of symbols separated by `|`.
pub open spec fn rhs_end(k: Seq<TokenKind>, i: int) -> Option<int>
    decreases k.len() - i,
{
    let j = alt_end(k, i);
    if i < 0 || j < i || j >= k.len() {
        None
    } else if k[j] == TokenKind::End {
        Some(j)
    } else if k[j] == TokenKind::Bar {
        rhs_end(k, j + 1)
    } else {
        None
    }
}

/// What follows the alternative that ends at `p`: the closing `END`, if any.
pub open spec fn rhs_tail(k: Seq<TokenKind>, p: int) -> Option<int> {
    if 0 <= p < k.len() && k[p] == TokenKind::End {
        Some(p)
    } else if 0 <= p < k.len() && k[p] == TokenKind::Bar {
        rhs_end(k, p + 1)
    } else {
        None
    }
}

/// From `i` on come rules `NAME EQUALS alternatives END`, then `EOF`.
pub open spec fn rules_from(k: Seq<TokenKind>, i: int) -> bool
    decreases k.len() - i,
{
    if i < 0 || i >= k.len() {
        false
    } else if k[i] == TokenKind::Eof {
        true
    } else if k[i] == TokenKind::Id && i + 1 < k.len() && k[i + 1] == TokenKind::Equals {
        match rhs_end(k, i + 2) {
            Some(e) => i < e < k.len() && rules_from(k, e + 1),
            None => false,
        }
    } else {
        false
    }
}

proof fn lemma_alt_end(k: Seq<TokenKind>, i: int)
    requires
        0 <= i <= k.len(),
    ensures
        i <= alt_end(k, i) <= k.len(),
        forall|j: int| i <= j < alt_end(k, i) ==> is_symbol_kind(#[trigger] k[j]),
    decreases k.len() - i,
{
    if i < k.len() && is_symbol_kind(k[i]) {
        lemma_alt_end(k, i + 1);
    }
}

/// The symbols from `i` on stop before the final `EOF`.
proof fn lemma_alt_end_bounded(ts: Seq<Token>, i: int)
    requires
        tokens_ok(ts),
        0 <= i < ts.len(),
    ensures
        alt_end(kinds(ts), i) < ts.len(),
{
    let k = kinds(ts);
    lemma_alt_end(k, i);
    if alt_end(k, i) == ts.len() {
        assert(k[ts.len() - 1] == TokenKind::Eof);
        assert(is_symbol_kind(k[ts.len() - 1]));
    }
}

proof fn lemma_rhs_end(k: Seq<TokenKind>, i: int)
    requires
        0 <= i <= k.len(),
    ensures
        rhs_end(k, i) is Some ==> i <= rhs_end(k, i)->Some_0 < k.len() && k[rhs_end(k, i)->Some_0] == TokenKind::End,
    decreases k.len() - i,
{
    lemma_alt_end(k, i);
    let j = alt_end(k, i);
    if j < k.len() && k[j] == TokenKind::Bar {
        lemma_rhs_end(k, j + 1);
    }
}

/// A rule as read: the name and the symbols of each alternative.
pub type Entry = (Seq<char>, Seq<Seq<Sym>>);

/// The rules read so far, as name and alternatives.
pub open spec fn entries(ps: Seq<(String, Vec<Production>)>) -> Seq<Entry> {
    ps.map_values(|e: (String, Vec<Production>)| (e.0@, alternatives(e.1@)))
}

/// The symbols of each production.
pub open spec fn alternatives(v: Seq<Production>) -> Seq<Seq<Sym>> {
    v.map_values(|pr: Production| syms(pr.list@))
}

/// An identifier's text: `_` or an ASCII letter first.
pub open spec fn name_ok(v: Seq<char>) -> bool {
    v.len() >= 1 && (v[0] == '_' || alphabetic(v[0]))
}

/// The rules read so far have identifier names and symbols of the right
/// shape.
pub open spec fn entries_ok(ps: Seq<(String, Vec<Production>)>) -> bool {
    forall|j: int| 0 <= j < ps.len() ==> name_ok((#[trigger] ps[j]).0@) && forall|q: int, x: int|
        0 <= q < ps[j].1@.len() && 0 <= x < ps[j].1@[q].list@.len() ==> {
            let t = #[trigger] ps[j].1@[q].list@[x];
            is_symbol_kind(t.kind) && token_shape(t)
        }
}

/// The alternatives from position `i` up to the `END` that closes them.
pub open spec fn alts_from(ts: Seq<Token>, i: int) -> Seq<Seq<Sym>>
    decreases ts.len() - i,
{
    let k = kinds(ts);
    let j = alt_end(k, i);
    if i < 0 || j < i || j >= ts.len() {
        Seq::empty()
    } else {
        seq![syms(ts.subrange(i, j))] + if k[j] == TokenKind::Bar { alts_from(ts, j + 1) } else { Seq::empty() }
    }
}

/// The alternatives after the one that ends at `p`.
pub open spec fn tail_alts(ts: Seq<Token>, p: int) -> Seq<Seq<Sym>> {
    if 0 <= p < ts.len() && kinds(ts)[p] == TokenKind::Bar {
        alts_from(ts, p + 1)
    } else {
        Seq::empty()
    }
}

/// The rules from position `i` on, in order, each as name and alternatives.
pub open spec fn rules_list(ts: Seq<Token>, i: int) -> Seq<Entry>
    decreases ts.len() - i,
{
    let k = kinds(ts);
    if i < 0 || i >= ts.len() || k[i] == TokenKind::Eof {
        Seq::empty()
    } else {
        match rhs_end(k, i + 2) {
            Some(e) => if i < e < ts.len() {
                seq![(ts[i].value@, alts_from(ts, i + 2))] + rules_list(ts, e + 1)
            } else {
                Seq::empty()
            },
            None => Seq::empty(),
        }
    }
}

pub open spec fn entry_names(ps: Seq<Entry>) -> Seq<Seq<char>> {
    ps.map_values(|e: Entry| e.0)
}

/// Adds a rule: its alternatives join those of an earlier rule of the same
/// name, or it comes last.
pub open spec fn add_rule(ps: Seq<Entry>, r: Entry) -> Seq<Entry> {
    if entry_names(ps).contains(r.0) {
        let j = entry_names(ps).index_of(r.0);
        ps.update(j, (r.0, ps[j].1 + r.1))
    } else {
        ps.push(r)
    }
}

/// The rules `rs` added one after the other to `ps`.
pub open spec fn merge_onto(ps: Seq<Entry>, rs: Seq<Entry>) -> Seq<Entry>
    decreases rs.len(),
{
    if rs.len() == 0 {
        ps
    } else {
        add_rule(merge_onto(ps, rs.drop_last()), rs.last())
    }
}

proof fn lemma_merge_concat(ps: Seq<Entry>, a: Seq<Entry>, b: Seq<Entry>)
    ensures
        merge_onto(ps, a + b) == merge_onto(merge_onto(ps, a), b),
    decreases b.len(),
{
    if b.len() == 0 {
        assert(a + b =~= a);
    } else {
        assert((a + b).drop_last() =~= a + b.drop_last());
        assert((a + b).last() == b.last());
        lemma_merge_concat(ps, a, b.drop_last());
    }
}

/// A symbol of the grammar: an identifier that names a rule stays one, any
/// other becomes a terminal.
pub open spec fn classify_syms(names: Seq<Seq<char>>, w: Seq<Sym>) -> Seq<Sym> {
    w.map_values(|x: Sym| (if x.0 == TokenKind::Id && names.contains(x.1) { TokenKind::Id } else { TokenKind::Term }, x.1))
}

/// The grammar that tokens from position `i` on describe: the rules merged
/// by name in order of first definition, the first the start symbol.
pub open spec fn grammar_of(ts: Seq<Token>, i: int) -> Seq<Rule> {
    let ps = merge_onto(Seq::empty(), rules_list(ts, i));
    Seq::new(ps.len(), |x: int| (ps[x].0, x == 0, ps[x].1.map_values(|w: Seq<Sym>| classify_syms(entry_names(ps), w))))
}

/// `e` reports token `tok` where one of `expected` should have stood.
pub open spec fn error_at(e: ParserError, tok: Token, expected: Seq<TokenKind>) -> bool {
    match e {
        ParserError::UnexpectedToken(t, ex) => t.kind == tok.kind && t.value@ == tok.value@ && t.span == tok.span
            && ex@ == expected,
    }
}

impl Parser {
    pub fn new(tokens: Vec<Token>) -> (r: Parser)
        ensures
            r.scanner@ == tokens@,
            r.current_ndx == 0,
            r.productions@.len() == 0,
    {
        Parser { scanner: tokens, current_ndx: 0, productions: Vec::new() }
    }

    /// The parser stands on a token of a list that ends with `EOF`, and
    /// defines each name once.
    pub open spec fn wf(&self) -> bool {
        &&& tokens_ok(self.scanner@)
        &&& self.current_ndx < self.scanner@.len()
        &&& defined(self.productions@).no_duplicates()
        &&& entries_ok(self.productions@)
    }

    pub open spec fn cur_kind(&self) -> TokenKind {
        self.scanner@[self.current_ndx as int].kind
    }

    pub fn current(&self) -> (r: TokenKind)
        requires
            self.wf(),
        ensures
            r == self.scanner@[self.current_ndx as int].kind,
    {
        self.scanner[self.current_ndx].kind
    }

    pub fn current_token(&self) -> (r: Token)
        requires
            self.wf(),
        ensures
            r.kind == self.scanner@[self.current_ndx as int].kind,
            r.value@ == self.scanner@[self.current_ndx as int].value@,
            r.span == self.scanner@[self.current_ndx as int].span,
    {
        self.scanner[self.current_ndx].clone()
    }

    fn unexpected(&self, expected: Vec<TokenKind>) -> (r: ParserError)
        requires
            self.wf(),
        ensures
            error_at(r, self.scanner@[self.current_ndx as int], expected@),
    {
        ParserError::UnexpectedToken(self.current_token(), expected)
    }

    /// Consumes the current token if it is of `kind`, which is not `EOF`.
    pub fn match_kind(&mut self, kind: TokenKind) -> (r: Result<Token, ParserError>)
        requires
            old(self).wf(),
            kind != TokenKind::Eof,
        ensures
            final(self).wf(),
            final(self).scanner == old(self).scanner,
            final(self).productions == old(self).productions,
            r is Ok <==> old(self).cur_kind() == kind,
            match r {
                Ok(t) => final(self).current_ndx == old(self).current_ndx + 1 && t.kind == kind
                    && t.value@ == old(self).scanner@[old(self).current_ndx as int].value@,
                Err(e) => final(self).current_ndx == old(self).current_ndx
                    && error_at(e, old(self).scanner@[old(self).current_ndx as int], seq![kind]),
            },
    {
        if self.current() == kind {
            let prev = self.scanner[self.current_ndx].clone();
            let n = self.scanner.len();
            assert(self.current_ndx != self.scanner@.len() - 1);
            assert(self.current_ndx + 1 < n);
            self.current_ndx = self.current_ndx + 1;
            Ok(prev)
        } else {
            let expected = vec![kind];
            assert(expected@ =~= seq![kind]);
            Err(self.unexpected(expected))
        }
    }

    /// An identifier or a terminal.
    pub fn token(&mut self) -> (r: Result<Token, ParserError>)
        requires
            old(self).wf(),
        ensures
            final(self).wf(),
            final(self).scanner == old(self).scanner,
            final(self).productions == old(self).productions,
            final(self).current_ndx >= old(self).current_ndx,
            r is Ok ==> final(self).current_ndx > old(self).current_ndx,
            r is Ok <==> is_symbol_kind(old(self).cur_kind()),
            r is Ok ==> final(self).current_ndx == old(self).current_ndx + 1,
            r is Ok ==> r->Ok_0.kind == old(self).cur_kind()
                && r->Ok_0.value@ == old(self).scanner@[old(self).current_ndx as int].value@,
    {
        let k = self.current();
        if k == TokenKind::Id {
            self.match_kind(TokenKind::Id)
        } else if k == TokenKind::Term {
            self.match_kind(TokenKind::Term)
        } else {
            Err(self.unexpected(vec![TokenKind::Id, TokenKind::Term]))
        }
    }

    /// The symbols of one alternative, up to `|` or the end of the rule.
    pub fn token_list(&mut self) -> (r: Result<Production, ParserError>)
        requires
            old(self).wf(),
        ensures
            final(self).wf(),
            final(self).scanner == old(self).scanner,
            final(self).productions == old(self).productions,
            final(self).current_ndx >= old(self).current_ndx,
            final(self).current_ndx == alt_end(kinds(old(self).scanner@), old(self).current_ndx as int),
            r is Ok <==> final(self).cur_kind() == TokenKind::Bar || final(self).cur_kind() == TokenKind::End,
            r is Ok ==> syms(r->Ok_0.list@) == syms(old(self).scanner@.subrange(old(self).current_ndx as int, final(self).current_ndx as int)),
            r is Ok ==> forall|x: int| 0 <= x < r->Ok_0.list@.len() ==> is_symbol_kind((#[trigger] r->Ok_0.list@[x]).kind)
                && token_shape(r->Ok_0.list@[x]),
    {
        let ghost k = kinds(self.scanner@);
        let ghost ts = self.scanner@;
        let ghost start = self.current_ndx as int;
        let mut production = Production::new();
        assert(syms(production.list@) =~= syms(ts.subrange(start, start)));
        while self.current() == TokenKind::Id || self.current() == TokenKind::Term
            invariant
                self.wf(),
                self.scanner == old(self).scanner,
                self.productions == old(self).productions,
                self.current_ndx >= old(self).current_ndx,
                k == kinds(self.scanner@),
                ts == self.scanner@,
                start == old(self).current_ndx,
                alt_end(k, self.current_ndx as int) == alt_end(k, old(self).current_ndx as int),
                syms(production.list@) == syms(ts.subrange(start, self.current_ndx as int)),
                forall|x: int| 0 <= x < production.list@.len() ==> is_symbol_kind((#[trigger] production.list@[x]).kind)
                    && token_shape(production.list@[x]),
            decreases self.scanner@.len() - self.current_ndx,
        {
            let ghost cur = self.current_ndx as int;
            assert(k[cur] == self.cur_kind());
            let t = self.token()?;
            let ghost before = production.list@;
            production.push(t);
            proof {
                assert(token_shape(ts[cur]));
                assert(sym(t) == sym(ts[cur]));
                assert(ts.subrange(start, cur + 1) =~= ts.subrange(start, cur).push(ts[cur]));
                assert(syms(production.list@) =~= syms(before).push(sym(t)));
                assert(syms(ts.subrange(start, cur + 1)) =~= syms(ts.subrange(start, cur)).push(sym(ts[cur])));
            }
        }
        assert(k[self.current_ndx as int] == self.cur_kind());
        let kd = self.current();
        if kd == TokenKind::Bar || kd == TokenKind::End {
            Ok(production)
        } else {
            Err(self.unexpected(vec![TokenKind::Bar, TokenKind::End, TokenKind::Id, TokenKind::Term]))
        }
    }

    /// Further alternatives, each after a `|`, up to the end of the rule.
    pub fn opt_alternation(&mut self) -> (r: Result<Vec<Production>, ParserError>)
        requires
            old(self).wf(),
        ensures
            final(self).wf(),
            final(self).scanner == old(self).scanner,
            final(self).productions == old(self).productions,
            final(self).current_ndx >= old(self).current_ndx,
            r is Ok <==> rhs_tail(kinds(old(self).scanner@), old(self).current_ndx as int) is Some,
            r is Ok ==> final(self).current_ndx == rhs_tail(kinds(old(self).scanner@), old(self).current_ndx as int)->Some_0,
            r is Ok ==> final(self).cur_kind() == TokenKind::End,
            r is Ok ==> alternatives(r->Ok_0@) == tail_alts(old(self).scanner@, old(self).current_ndx as int),
            r is Ok ==> forall|q: int, x: int| 0 <= q < r->Ok_0@.len() && 0 <= x < r->Ok_0@[q].list@.len()
                ==> is_symbol_kind((#[trigger] r->Ok_0@[q].list@[x]).kind) && token_shape(r->Ok_0@[q].list@[x]),
    {
        let ghost k = kinds(self.scanner@);
        let ghost ts = self.scanner@;
        let mut list: Vec<Production> = Vec::new();
        assert(alternatives(list@) + tail_alts(ts, self.current_ndx as int) =~= tail_alts(ts, self.current_ndx as int));
        while self.current() == TokenKind::Bar
            invariant
                self.wf(),
                self.scanner == old(self).scanner,
                self.productions == old(self).productions,
                self.current_ndx >= old(self).current_ndx,
                k == kinds(self.scanner@),
                ts == self.scanner@,
                rhs_tail(k, self.current_ndx as int) == rhs_tail(k, old(self).current_ndx as int),
                alternatives(list@) + tail_alts(ts, self.current_ndx as int) == tail_alts(ts, old(self).current_ndx as int),
                forall|q: int, x: int| 0 <= q < list@.len() && 0 <= x < list@[q].list@.len()
                    ==> is_symbol_kind((#[trigger] list@[q].list@[x]).kind) && token_shape(list@[q].list@[x]),
            decreases self.scanner@.len() - self.current_ndx,
        {
            let ghost p = self.current_ndx as int;
            assert(k[p] == TokenKind::Bar);
            self.match_kind(TokenKind::Bar)?;
            proof {
                lemma_alt_end(k, p + 1);
                lemma_alt_end_bounded(self.scanner@, p + 1);
            }
            let prod = self.token_list()?;
            let ghost j = self.current_ndx as int;
            let ghost before = list@;
            list.push(prod);
            proof {
                assert(k[j] == self.cur_kind());
                assert(tail_alts(ts, p) == alts_from(ts, p + 1));
                assert(alts_from(ts, p + 1) == seq![syms(ts.subrange(p + 1, j))] + tail_alts(ts, j));
                assert(alternatives(list@) =~= alternatives(before).push(syms(prod.list@)));
                assert(alternatives(list@) + tail_alts(ts, j) =~= alternatives(before) + tail_alts(ts, p));
            }
        }
        assert(k[self.current_ndx as int] == self.cur_kind());
        if self.current() == TokenKind::End {
            assert(alternatives(list@) + tail_alts(ts, self.current_ndx as int) =~= alternatives(list@));
            Ok(list)
        } else {
            Err(self.unexpected(vec![TokenKind::Bar, TokenKind::End]))
        }
    }

    /// The alternatives of a rule.
    pub fn rhs(&mut self) -> (r: Result<Vec<Production>, ParserError>)
        requires
            old(self).wf(),
        ensures
            final(self).wf(),
            final(self).scanner == old(self).scanner,
            final(self).productions == old(self).productions,
            final(self).current_ndx >= old(self).current_ndx,
            r is Ok ==> final(self).cur_kind() == TokenKind::End,
            r is Ok <==> rhs_end(kinds(old(self).scanner@), old(self).current_ndx as int) is Some,
            r is Ok ==> final(self).current_ndx == rhs_end(kinds(old(self).scanner@), old(self).current_ndx as int)->Some_0,
            r is Ok ==> alternatives(r->Ok_0@) == alts_from(old(self).scanner@, old(self).current_ndx as int),
            r is Ok ==> forall|q: int, x: int| 0 <= q < r->Ok_0@.len() && 0 <= x < r->Ok_0@[q].list@.len()
                ==> is_symbol_kind((#[trigger] r->Ok_0@[q].list@[x]).kind) && token_shape(r->Ok_0@[q].list@[x]),
    {
        let ghost k = kinds(self.scanner@);
        let ghost ts = self.scanner@;
        let ghost q = self.current_ndx as int;
        proof {
            lemma_alt_end(k, q);
            lemma_alt_end_bounded(self.scanner@, q);
        }
        assert(k[q] == self.cur_kind());
        assert(rhs_end(k, q) == rhs_tail(k, alt_end(k, q)));
        let kd = self.current();
        if kd == TokenKind::Bar || kd == TokenKind::End || kd == TokenKind::Id || kd == TokenKind::Term {
            let prod = match self.token_list() {
                Ok(p) => p,
                Err(e) => {
                    assert(k[self.current_ndx as int] == self.cur_kind());
                    return Err(e);
                },
            };
            let ghost j = self.current_ndx as int;
            assert(k[self.current_ndx as int] == self.cur_kind());
            let mut list = self.opt_alternation()?;
            let ghost rest = list@;
            list.insert(0, prod);
            proof {
                assert(alts_from(ts, q) == seq![syms(ts.subrange(q, j))] + tail_alts(ts, j));
                assert(list@ =~= seq![prod] + rest);
                assert(alternatives(list@) =~= seq![syms(prod.list@)] + alternatives(rest));
                assert forall|a: int, x: int| 0 <= a < list@.len() && 0 <= x < list@[a].list@.len()
                    implies is_symbol_kind((#[trigger] list@[a].list@[x]).kind) && token_shape(list@[a].list@[x]) by {
                    if a > 0 {
                        assert(list@[a] == rest[a - 1]);
                    }
                }
            }
            Ok(list)
        } else {
            Err(self.unexpected(vec![TokenKind::Bar, TokenKind::End, TokenKind::Id, TokenKind::Term]))
        }
    }

    /// One rule: `NAME EQUALS alternatives END`; the alternatives join those
    /// of earlier rules for the same name.
    pub fn production(&mut self) -> (r: Result<(), ParserError>)
        requires
            old(self).wf(),
        ensures
            final(self).wf(),
            final(self).scanner == old(self).scanner,
            final(self).current_ndx >= old(self).current_ndx,
            final(self).productions@.len() >= old(self).productions@.len(),
            r is Ok ==> final(self).current_ndx > old(self).current_ndx && final(self).productions@.len() >= 1,
            ({
                let ts = old(self).scanner@;
                let k = kinds(ts);
                let i = old(self).current_ndx as int;
                &&& r is Ok <==> k[i] == TokenKind::Id && i + 1 < k.len() && k[i + 1] == TokenKind::Equals && rhs_end(k, i + 2) is Some
                &&& r is Ok ==> final(self).current_ndx == rhs_end(k, i + 2)->Some_0 + 1
                &&& r is Ok ==> entries(final(self).productions@) == add_rule(entries(old(self).productions@),
                    (ts[i].value@, alts_from(ts, i + 2)))
            }),
    {
        let ghost ts = self.scanner@;
        let ghost k = kinds(self.scanner@);
        let ghost i = self.current_ndx as int;
        assert(k[i] == self.cur_kind());
        let nt = self.match_kind(TokenKind::Id)?;
        assert(k[i + 1] == self.cur_kind());
        self.match_kind(TokenKind::Equals)?;
        let prod_list = self.rhs()?;
        self.match_kind(TokenKind::End)?;
        proof {
            assert(token_shape(ts[i]));
            assert(name_ok(nt.value@));
        }
        let mut j: usize = 0;
        let mut found = false;
        while j < self.productions.len() && !found
            invariant
                self.wf(),
                j <= self.productions@.len(),
                found ==> j < self.productions@.len() && self.productions@[j as int].0@ == nt.value@,
                forall|k: int| 0 <= k < j ==> self.productions@[k].0@ != nt.value@,
            decreases self.productions@.len() - j + if found { 0int } else { 1int },
        {
            if self.productions[j].0 == nt.value {
                found = true;
            } else {
                j = j + 1;
            }
        }
        let ghost ps0 = self.productions@;
        let ghost r = (nt.value@, alts_from(ts, i + 2));
        proof {
            assert(entry_names(entries(ps0)) =~= defined(ps0));
        }
        if found {
            let mut entry: (String, Vec<Production>) = (String::new(), Vec::new());
            self.productions.set_and_swap(j, &mut entry);
            let ghost old_list = entry.1@;
            let mut more = prod_list;
            let ghost added = more@;
            entry.1.append(&mut more);
            let ghost new_list = entry.1@;
            self.productions.set_and_swap(j, &mut entry);
            proof {
                assert(defined(self.productions@) =~= defined(ps0));
                assert(defined(ps0)[j as int] == nt.value@);
                assert(entry_names(entries(ps0)).index_of(nt.value@) == j) by {
                    let x = entry_names(entries(ps0)).index_of(nt.value@);
                    assert(defined(ps0)[x] == nt.value@);
                }
                assert(new_list =~= old_list + added);
                assert(self.productions@[j as int].1@ == new_list);
                assert(alternatives(new_list) =~= alternatives(old_list) + alternatives(added));
                assert(entries(self.productions@) =~= add_rule(entries(ps0), r));
                assert forall|a: int| 0 <= a < self.productions@.len() implies name_ok((#[trigger] self.productions@[a]).0@) && forall|q: int, x: int|
                    0 <= q < self.productions@[a].1@.len() && 0 <= x < self.productions@[a].1@[q].list@.len() ==> {
                        let t = #[trigger] self.productions@[a].1@[q].list@[x];
                        is_symbol_kind(t.kind) && token_shape(t)
                    } by {
                    if a != j {
                        assert(self.productions@[a] == ps0[a]);
                    } else {
                        assert forall|q: int, x: int| 0 <= q < self.productions@[a].1@.len() && 0 <= x < self.productions@[a].1@[q].list@.len()
                            implies {
                                let t = #[trigger] self.productions@[a].1@[q].list@[x];
                                is_symbol_kind(t.kind) && token_shape(t)
                            } by {
                            if q < old_list.len() {
                                assert(self.productions@[a].1@[q] == ps0[a].1@[q]);
                            } else {
                                assert(self.productions@[a].1@[q] == added[q - old_list.len()]);
                            }
                        }
                    }
                }
            }
        } else {
            let ghost pl = prod_list@;
            self.productions.push((nt.value, prod_list));
            proof {
                assert(defined(self.productions@) =~= defined(ps0).push(nt.value@));
                assert forall|a: int| 0 <= a < defined(ps0).len() implies defined(ps0)[a] != nt.value@ by {
                    assert(ps0[a].0@ != nt.value@);
                }
                assert(!entry_names(entries(ps0)).contains(nt.value@));
                assert(entries(self.productions@) =~= add_rule(entries(ps0), r));
                assert forall|a: int| 0 <= a < self.productions@.len() implies name_ok((#[trigger] self.productions@[a]).0@) && forall|q: int, x: int|
                    0 <= q < self.productions@[a].1@.len() && 0 <= x < self.productions@[a].1@[q].list@.len() ==> {
                        let t = #[trigger] self.productions@[a].1@[q].list@[x];
                        is_symbol_kind(t.kind) && token_shape(t)
                    } by {
                    if a < ps0.len() {
                        assert(self.productions@[a] == ps0[a]);
                    }
                }
            }
        }
        Ok(())
    }

    /// Rules up to the end of the input.
    pub fn production_list(&mut self) -> (r: Result<(), ParserError>)
        requires
            old(self).wf(),
        ensures
            final(self).wf(),
            final(self).scanner == old(self).scanner,
            final(self).productions@.len() >= old(self).productions@.len(),
            r is Ok ==> final(self).cur_kind() == TokenKind::Eof,
            r is Ok <==> rules_from(kinds(old(self).scanner@), old(self).current_ndx as int),
            r is Ok ==> entries(final(self).productions@) == merge_onto(entries(old(self).productions@),
                rules_list(old(self).scanner@, old(self).current_ndx as int)),
    {
        let ghost k = kinds(self.scanner@);
        let ghost ts = self.scanner@;
        let ghost mut done: Seq<Entry> = Seq::empty();
        assert(done + rules_list(ts, self.current_ndx as int) =~= rules_list(ts, self.current_ndx as int));
        while self.current() == TokenKind::Id
            invariant
                self.wf(),
                self.scanner == old(self).scanner,
                k == kinds(self.scanner@),
                ts == self.scanner@,
                self.productions@.len() >= old(self).productions@.len(),
                rules_from(k, self.current_ndx as int) == rules_from(k, old(self).current_ndx as int),
                done + rules_list(ts, self.current_ndx as int) == rules_list(ts, old(self).current_ndx as int),
                entries(self.productions@) == merge_onto(entries(old(self).productions@), done),
            decreases self.scanner@.len() - self.current_ndx,
        {
            let ghost i = self.current_ndx as int;
            let ghost ps = entries(self.productions@);
            assert(k[i] == self.cur_kind());
            assert(i + 1 < k.len());
            proof {
                lemma_rhs_end(k, i + 2);
            }
            self.production()?;
            proof {
                let r = (ts[i].value@, alts_from(ts, i + 2));
                let e = rhs_end(k, i + 2)->Some_0;
                assert(rules_list(ts, i) == seq![r] + rules_list(ts, e + 1));
                assert(done.push(r) + rules_list(ts, e + 1) =~= done + rules_list(ts, i));
                assert(done.push(r).drop_last() =~= done);
                done = done.push(r);
            }
        }
        assert(k[self.current_ndx as int] == self.cur_kind());
        if self.current() == TokenKind::Eof {
            assert(done + rules_list(ts, self.current_ndx as int) =~= done);
            Ok(())
        } else {
            Err(self.unexpected(vec![TokenKind::Eof, TokenKind::Id]))
        }
    }

    /// A grammar file: one rule or more.
    pub fn bnf_file(&mut self) -> (r: Result<(), ParserError>)
        requires
            old(self).wf(),
        ensures
            final(self).wf(),
            final(self).scanner == old(self).scanner,
            r is Ok ==> final(self).cur_kind() == TokenKind::Eof && final(self).productions@.len() >= 1,
            r is Ok <==> ({
                let k = kinds(old(self).scanner@);
                let i = old(self).current_ndx as int;
                k[i] == TokenKind::Id && rules_from(k, i)
            }),
            r is Ok ==> entries(final(self).productions@) == merge_onto(entries(old(self).productions@),
                rules_list(old(self).scanner@, old(self).current_ndx as int)),
    {
        let ghost k = kinds(self.scanner@);
        let ghost ts = self.scanner@;
        let ghost i = self.current_ndx as int;
        let ghost ps = entries(self.productions@);
        assert(k[i] == self.cur_kind());
        if self.current() == TokenKind::Id {
            assert(i + 1 < k.len());
            proof {
                lemma_rhs_end(k, i + 2);
            }
            self.production()?;
            let ghost mid = self.current_ndx as int;
            let r = self.production_list();
            proof {
                if r is Ok {
                    let rr = (ts[i].value@, alts_from(ts, i + 2));
                    let e = rhs_end(k, i + 2)->Some_0;
                    assert(mid == e + 1);
                    assert(rules_list(ts, i) == seq![rr] + rules_list(ts, mid));
                    assert(seq![rr].drop_last() =~= Seq::<Entry>::empty());
                    assert(merge_onto(ps, Seq::<Entry>::empty()) == ps);
                    assert(seq![rr].last() == rr);
                    assert(merge_onto(ps, seq![rr]) == add_rule(ps, rr));
                    lemma_merge_concat(ps, seq![rr], rules_list(ts, mid));
                }
            }
            r
        } else {
            Err(self.unexpected(vec![TokenKind::Id]))
        }
    }

    /// `t` as a symbol of the grammar: an identifier that names a rule stays
    /// one, any other becomes a terminal.
    fn classify(&self, t: &Token) -> (r: Token)
        requires
            is_symbol_kind(t.kind),
            token_shape(*t),
            entries_ok(self.productions@),
        ensures
            r.value@ == t.value@,
            r.kind == (if t.kind == TokenKind::Id && defined(self.productions@).contains(t.value@) { TokenKind::Id } else { TokenKind::Term }),
            r.kind == TokenKind::Term ==> !defined(self.productions@).contains(t.value@),
    {
        let mut j: usize = 0;
        let mut found = false;
        while j < self.productions.len() && !found
            invariant
                j <= self.productions@.len(),
                found ==> j < self.productions@.len() && self.productions@[j as int].0@ == t.value@,
                forall|k: int| 0 <= k < j ==> self.productions@[k].0@ != t.value@,
            decreases self.productions@.len() - j + if found { 0int } else { 1int },
        {
            if self.productions[j].0 == t.value {
                found = true;
            } else {
                j = j + 1;
            }
        }
        proof {
            if found {
                assert(defined(self.productions@)[j as int] == t.value@);
                assert(name_ok(self.productions@[j as int].0@));
            } else if defined(self.productions@).contains(t.value@) {
                let k = choose|k: int| 0 <= k < defined(self.productions@).len() && defined(self.productions@)[k] == t.value@;
                assert(self.productions@[k].0@ == t.value@);
            }
        }
        let kind = if t.kind == TokenKind::Id && found { TokenKind::Id } else { TokenKind::Term };
        Token { kind, value: t.value.clone(), span: t.span }
    }

    /// Reads the whole token list as a grammar: the rules merged by name in
    /// the order of their first definition, the first the start symbol, and
    /// each identifier that names no rule turned into a terminal.
    pub fn parse(&mut self) -> (r: Result<Vec<NonTerminal>, ParserError>)
        requires
            old(self).wf(),
            old(self).productions@.len() == 0,
        ensures
            match r {
                Ok(nts) => parsed(nts@) && model(nts@) == grammar_of(old(self).scanner@, old(self).current_ndx as int),
                Err(_) => true,
            },
            r is Ok <==> ({
                let k = kinds(old(self).scanner@);
                let i = old(self).current_ndx as int;
                k[i] == TokenKind::Id && rules_from(k, i)
            }),
    {
        let ghost ts = self.scanner@;
        let ghost p0 = self.current_ndx as int;
        assert(entries(self.productions@) =~= Seq::<Entry>::empty());
        self.bnf_file()?;
        let ghost ps = self.productions@;
        let ghost m_names = defined(ps);
        let ghost gm = grammar_of(ts, p0);
        proof {
            assert(entries(ps) == merge_onto(Seq::empty(), rules_list(ts, p0)));
            assert(entry_names(entries(ps)) =~= m_names);
        }
        let mut result: Vec<NonTerminal> = Vec::new();
        let mut i: usize = 0;
        while i < self.productions.len()
            invariant
                self.wf(),
                self.productions@ == ps,
                m_names == defined(ps),
                gm == grammar_of(ts, p0),
                entries(ps) == merge_onto(Seq::empty(), rules_list(ts, p0)),
                entry_names(entries(ps)) == m_names,
                ps.len() >= 1,
                i <= ps.len(),
                result@.len() == i,
                forall|x: int| 0 <= x < i ==> (#[trigger] result@[x]).name@ == ps[x].0@ && result@[x].is_start_term == (x == 0)
                    && !result@[x].is_nullable && result@[x].first_set@.len() == 0 && result@[x].follow_set@.len() == 0
                    && result@[x].predict_set@.len() == 0
                    && rule(result@[x]) == gm[x],
                forall|x: int, p: int, k: int| 0 <= x < i && 0 <= p < result@[x].productions@.len()
                    && 0 <= k < result@[x].productions@[p].list@.len() ==> {
                        let t = #[trigger] result@[x].productions@[p].list@[k];
                        (t.kind == TokenKind::Id || t.kind == TokenKind::Term)
                            && (t.kind == TokenKind::Id ==> m_names.contains(t.value@))
                            && (t.kind == TokenKind::Term ==> !m_names.contains(t.value@))
                    },
            decreases ps.len() - i,
        {
            let mut nt = NonTerminal::new(self.productions[i].0.clone());
            nt.is_start_term = i == 0;
            let prods = &self.productions[i].1;
            let mut p: usize = 0;
            while p < prods.len()
                invariant
                    self.wf(),
                    self.productions@ == ps,
                    m_names == defined(ps),
                    i < ps.len(),
                    prods == ps[i as int].1,
                    p <= prods@.len(),
                    nt.name@ == ps[i as int].0@,
                    nt.is_start_term == (i == 0),
                    !nt.is_nullable && nt.first_set@.len() == 0 && nt.follow_set@.len() == 0 && nt.predict_set@.len() == 0,
                    nt.productions@.len() == p,
                    forall|q: int| 0 <= q < p ==> syms((#[trigger] nt.productions@[q]).list@)
                        == classify_syms(m_names, syms(prods@[q].list@)),
                    forall|q: int, k: int| 0 <= q < p && 0 <= k < nt.productions@[q].list@.len() ==> {
                        let t = #[trigger] nt.productions@[q].list@[k];
                        (t.kind == TokenKind::Id || t.kind == TokenKind::Term)
                            && (t.kind == TokenKind::Id ==> m_names.contains(t.value@))
                            && (t.kind == TokenKind::Term ==> !m_names.contains(t.value@))
                    },
                decreases prods@.len() - p,
            {
                let list = &prods[p].list;
                let mut clean = Production::new();
                let mut k: usize = 0;
                while k < list.len()
                    invariant
                        self.wf(),
                        self.productions@ == ps,
                        m_names == defined(ps),
                        i < ps.len(),
                        prods == ps[i as int].1,
                        p < prods@.len(),
                        list == prods@[p as int].list,
                        k <= list@.len(),
                        clean.list@.len() == k,
                        forall|k2: int| 0 <= k2 < k ==> sym(#[trigger] clean.list@[k2]) == classify_syms(m_names, syms(list@))[k2],
                        forall|k2: int| 0 <= k2 < k ==> {
                            let t = #[trigger] clean.list@[k2];
                            (t.kind == TokenKind::Id || t.kind == TokenKind::Term)
                                && (t.kind == TokenKind::Id ==> m_names.contains(t.value@))
                                && (t.kind == TokenKind::Term ==> !m_names.contains(t.value@))
                        },
                    decreases list@.len() - k,
                {
                    proof {
                        assert(ps[i as int] == self.productions@[i as int]);
                    }
                    let t = self.classify(&list[k]);
                    let ghost before = clean.list@;
                    clean.push(t);
                    proof {
                        assert forall|k2: int| 0 <= k2 < k + 1 implies sym(#[trigger] clean.list@[k2]) == classify_syms(m_names, syms(list@))[k2] by {
                            if k2 < k {
                                assert(clean.list@[k2] == before[k2]);
                            }
                        }
                        assert forall|k2: int| 0 <= k2 < k + 1 implies {
                            let t = #[trigger] clean.list@[k2];
                            (t.kind == TokenKind::Id || t.kind == TokenKind::Term)
                                && (t.kind == TokenKind::Id ==> m_names.contains(t.value@))
                                && (t.kind == TokenKind::Term ==> !m_names.contains(t.value@))
                        } by {
                            if k2 < k {
                                assert(clean.list@[k2] == before[k2]);
                            }
                        }
                    }
                    k = k + 1;
                }
                proof {
                    assert(syms(clean.list@) =~= classify_syms(m_names, syms(list@)));
                }
                let ghost before = nt.productions@;
                nt.productions.push(clean);
                proof {
                    assert forall|q: int| 0 <= q < p + 1 implies syms((#[trigger] nt.productions@[q]).list@)
                        == classify_syms(m_names, syms(prods@[q].list@)) by {
                        if q < p {
                            assert(nt.productions@[q] == before[q]);
                        }
                    }
                    assert forall|q: int, k2: int| 0 <= q < p + 1 && 0 <= k2 < nt.productions@[q].list@.len() implies {
                        let t = #[trigger] nt.productions@[q].list@[k2];
                        (t.kind == TokenKind::Id || t.kind == TokenKind::Term)
                            && (t.kind == TokenKind::Id ==> m_names.contains(t.value@))
                            && (t.kind == TokenKind::Term ==> !m_names.contains(t.value@))
                    } by {
                        if q < p {
                            assert(nt.productions@[q] == before[q]);
                        }
                    }
                }
                p = p + 1;
            }
            proof {
                let e = entries(ps)[i as int];
                assert(e == (ps[i as int].0@, alternatives(ps[i as int].1@)));
                assert(rule(nt).2 =~= e.1.map_values(|w: Seq<Sym>| classify_syms(m_names, w)));
                assert(rule(nt) == gm[i as int]);
            }
            let ghost before = result@;
            result.push(nt);
            proof {
                assert forall|x: int, p: int, k: int| 0 <= x < i + 1 && 0 <= p < result@[x].productions@.len()
                    && 0 <= k < result@[x].productions@[p].list@.len() implies {
                        let t = #[trigger] result@[x].productions@[p].list@[k];
                        (t.kind == TokenKind::Id || t.kind == TokenKind::Term)
                            && (t.kind == TokenKind::Id ==> m_names.contains(t.value@))
                            && (t.kind == TokenKind::Term ==> !m_names.contains(t.value@))
                    } by {
                    if x < i {
                        assert(result@[x] == before[x]);
                    }
                }
                assert forall|x: int| 0 <= x < i + 1 implies (#[trigger] result@[x]).name@ == ps[x].0@ && result@[x].is_start_term == (x == 0)
                    && !result@[x].is_nullable && result@[x].first_set@.len() == 0 && result@[x].follow_set@.len() == 0
                    && result@[x].predict_set@.len() == 0 && rule(result@[x]) == gm[x] by {
                    if x < i {
                        assert(result@[x] == before[x]);
                    }
                }
            }
            i = i + 1;
        }
        proof {
            let g = result@;
            let m = model(g);
            assert(m =~= gm);
            assert forall|s: Seq<char>| is_nt(m, s) <==> m_names.contains(s) by {
                if is_nt(m, s) {
                    let x = choose|x: int| 0 <= x < m.len() && #[trigger] m[x].0 == s;
                    assert(m_names[x] == s);
                }
                if m_names.contains(s) {
                    let x = choose|x: int| 0 <= x < m_names.len() && m_names[x] == s;
                    assert(m[x].0 == s);
                }
            }
            assert forall|a: int, b: int| 0 <= a < m.len() && 0 <= b < m.len() && #[trigger] m[a].0 == #[trigger] m[b].0 implies a == b by {
                assert(m_names[a] == m[a].0 && m_names[b] == m[b].0);
            }
            assert forall|x: int, p: int, k: int| 0 <= x < m.len() && 0 <= p < m[x].2.len() && 0 <= k < m[x].2[p].len()
                implies crate::productions::classified(m, #[trigger] m[x].2[p][k]) by {
                let t = g[x].productions@[p].list@[k];
                assert(m[x].2[p][k] == (t.kind, t.value@));
            }
        }
        Ok(result)
    }
}

/// What a parsed grammar is: well formed, with at least one non-terminal,
/// the first the only start symbol, and nothing analysed yet.
pub open spec fn parsed(g: Seq<NonTerminal>) -> bool {
    &&& well_formed(model(g))
    &&& g.len() >= 1
    &&& forall|i: int| 0 <= i < g.len() ==> (#[trigger] g[i]).is_start_term == (i == 0) && !g[i].is_nullable
        && g[i].first_set@.len() == 0 && g[i].follow_set@.len() == 0 && g[i].predict_set@.len() == 0
}

} // verus!
