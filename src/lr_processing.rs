//! The LR item-set automaton and its action/goto table.
use vstd::prelude::*;
use crate::first_follow::{
    build_symbol_table, find_symbol, first_known, first_of_seq, nullable_known, rest_targets, symbol_table, views,
};
use crate::productions::{all_nullable, find_non_terminal, is_nt, model, sym, syms, well_formed, NonTerminal, Rule, Sym};
use crate::reach::{adj_view, closed_graph, edge, reachable, first_n_follow_set_dfs};
use crate::order::{insert_sorted, sorted};
use crate::productions::strings;
use crate::scanner::{Token, TokenKind};

verus! {

/// An LR item by indices: production `prod` of non-terminal `lhs` (the
/// augmented start rule when `lhs` is the number of non-terminals), with the
/// dot before symbol `dot`, and lookahead terminal `la` (a position in the
/// symbol table).
#[derive(Debug, Clone, Copy, PartialEq, Eq, Structural)]
pub struct ContextualProduction {
    pub lhs: usize,
    pub prod: usize,
    pub dot: usize,
    pub la: usize,
}

impl ContextualProduction {
    /// Production `prod` of `lhs` with the dot at its start, under lookahead `la`.
    pub fn new(lhs: usize, prod: usize, la: usize) -> (r: ContextualProduction)
        ensures
            r == (ContextualProduction { lhs, prod, dot: 0, la }),
    {
        ContextualProduction { lhs, prod, dot: 0, la }
    }

    /// The item with the dot moved one symbol on.
    pub fn new_advanced(&self) -> (r: ContextualProduction)
        requires
            self.dot < usize::MAX,
        ensures
            r == advanced(*self),
    {
        ContextualProduction { lhs: self.lhs, prod: self.prod, dot: self.dot + 1, la: self.la }
    }
}

/// What an automaton is built for: `n` non-terminals, start symbol `start`,
/// LR(0) when `k0`, lookaheads in `la_lo..la_hi`, that of the start item
/// `root_la`.
#[derive(Debug, Clone, Copy, PartialEq, Eq, Structural)]
pub struct LrConfig {
    pub n: usize,
    pub start: usize,
    pub k0: bool,
    pub la_lo: usize,
    pub la_hi: usize,
    pub root_la: usize,
}

/// The number of productions of `lhs`; the augmented start rule has one.
pub open spec fn prod_count(m: Seq<Rule>, c: LrConfig, lhs: int) -> int {
    if lhs == c.n { 1 } else { m[lhs].2.len() as int }
}

/// The symbols of an item's production: for the augmented start rule, the
/// start symbol alone.
pub open spec fn item_body(m: Seq<Rule>, c: LrConfig, x: ContextualProduction) -> Seq<Sym> {
    if x.lhs == c.n {
        seq![(TokenKind::Id, m[c.start as int].0)]
    } else {
        m[x.lhs as int].2[x.prod as int]
    }
}

pub open spec fn valid_item(m: Seq<Rule>, c: LrConfig, x: ContextualProduction) -> bool {
    &&& x.lhs <= c.n
    &&& x.prod < prod_count(m, c, x.lhs as int)
    &&& x.dot <= item_body(m, c, x).len()
    &&& c.la_lo <= x.la < c.la_hi
}

pub open spec fn config_ok(m: Seq<Rule>, c: LrConfig) -> bool {
    &&& c.n == m.len()
    &&& c.start < c.n
    &&& c.la_lo <= c.root_la < c.la_hi
}

pub open spec fn item_lt(a: ContextualProduction, b: ContextualProduction) -> bool {
    ||| a.lhs < b.lhs
    ||| a.lhs == b.lhs && a.prod < b.prod
    ||| a.lhs == b.lhs && a.prod == b.prod && a.dot < b.dot
    ||| a.lhs == b.lhs && a.prod == b.prod && a.dot == b.dot && a.la < b.la
}

/// Appends the items of production `prod` of `lhs` with each dot position
/// and each lookahead, in increasing order.
fn push_items(c: LrConfig, lhs: usize, prod: usize, len: usize, nodes: &mut Vec<ContextualProduction>)
    requires
        c.la_lo < c.la_hi,
        forall|j: int| 0 <= j < old(nodes)@.len() ==> item_lt(#[trigger] old(nodes)@[j], ContextualProduction { lhs, prod, dot: 0, la: c.la_lo }),
        forall|j1: int, j2: int| 0 <= j1 < j2 < old(nodes)@.len() ==> item_lt(old(nodes)@[j1], old(nodes)@[j2]),
    ensures
        final(nodes)@.len() >= old(nodes)@.len(),
        forall|j: int| 0 <= j < old(nodes)@.len() ==> #[trigger] final(nodes)@[j] == old(nodes)@[j],
        forall|j1: int, j2: int| 0 <= j1 < j2 < final(nodes)@.len() ==> item_lt(final(nodes)@[j1], final(nodes)@[j2]),
        forall|j: int| old(nodes)@.len() <= j < final(nodes)@.len() ==> (#[trigger] final(nodes)@[j]).lhs == lhs && final(nodes)@[j].prod == prod,
        forall|x: ContextualProduction| x.lhs == lhs && x.prod == prod ==> (#[trigger] final(nodes)@.contains(x) <==> old(nodes)@.contains(x)
            || (x.dot <= len && c.la_lo <= x.la < c.la_hi)),
        forall|x: ContextualProduction| !(x.lhs == lhs && x.prod == prod) ==> (#[trigger] final(nodes)@.contains(x) <==> old(nodes)@.contains(x)),
{
    let ghost old_nodes = nodes@;
    let mut d: usize = 0;
    let mut more = true;
    while more
        invariant
            c.la_lo < c.la_hi,
            d <= len,
            !more ==> d == len,
            nodes@.len() >= old_nodes.len(),
            forall|j: int| 0 <= j < old_nodes.len() ==> #[trigger] nodes@[j] == old_nodes[j],
            forall|j: int| 0 <= j < old_nodes.len() ==> item_lt(#[trigger] old_nodes[j], ContextualProduction { lhs, prod, dot: 0, la: c.la_lo }),
            forall|j1: int, j2: int| 0 <= j1 < j2 < nodes@.len() ==> item_lt(nodes@[j1], nodes@[j2]),
            forall|j: int| old_nodes.len() <= j < nodes@.len() ==> (#[trigger] nodes@[j]).lhs == lhs && nodes@[j].prod == prod
                && (nodes@[j].dot < d || (!more && nodes@[j].dot == d)),
            forall|x: ContextualProduction| x.lhs == lhs && x.prod == prod ==> (#[trigger] nodes@.contains(x) <==> old_nodes.contains(x)
                || ((x.dot < d || (!more && x.dot == d)) && c.la_lo <= x.la < c.la_hi)),
            forall|x: ContextualProduction| !(x.lhs == lhs && x.prod == prod) ==> (#[trigger] nodes@.contains(x) <==> old_nodes.contains(x)),
        decreases len - d + if more { 1int } else { 0int },
    {
        let mut l: usize = c.la_lo;
        while l < c.la_hi
            invariant
                c.la_lo < c.la_hi,
                d <= len,
                c.la_lo <= l <= c.la_hi,
                nodes@.len() >= old_nodes.len(),
                forall|j: int| 0 <= j < old_nodes.len() ==> #[trigger] nodes@[j] == old_nodes[j],
                forall|j: int| 0 <= j < old_nodes.len() ==> item_lt(#[trigger] old_nodes[j], ContextualProduction { lhs, prod, dot: 0, la: c.la_lo }),
                forall|j1: int, j2: int| 0 <= j1 < j2 < nodes@.len() ==> item_lt(nodes@[j1], nodes@[j2]),
                forall|j: int| old_nodes.len() <= j < nodes@.len() ==> (#[trigger] nodes@[j]).lhs == lhs && nodes@[j].prod == prod
                    && (nodes@[j].dot < d || (nodes@[j].dot == d && nodes@[j].la < l)),
                forall|x: ContextualProduction| x.lhs == lhs && x.prod == prod ==> (#[trigger] nodes@.contains(x) <==> old_nodes.contains(x)
                    || (x.dot < d && c.la_lo <= x.la < c.la_hi) || (x.dot == d && c.la_lo <= x.la < l)),
                forall|x: ContextualProduction| !(x.lhs == lhs && x.prod == prod) ==> (#[trigger] nodes@.contains(x) <==> old_nodes.contains(x)),
            decreases c.la_hi - l,
        {
            let ghost before = nodes@;
            let it = ContextualProduction { lhs, prod, dot: d, la: l };
            nodes.push(it);
            proof {
                assert forall|x: ContextualProduction| #[trigger] nodes@.contains(x) <==> before.contains(x) || x == it by {
                    if nodes@.contains(x) && !before.contains(x) {
                        let j = choose|j: int| 0 <= j < nodes@.len() && nodes@[j] == x;
                        if j < before.len() {
                            assert(before[j] == x);
                        }
                    }
                    if before.contains(x) {
                        let j = choose|j: int| 0 <= j < before.len() && #[trigger] before[j] == x;
                        assert(nodes@[j] == x);
                    }
                    if x == it {
                        assert(nodes@[before.len() as int] == x);
                    }
                }
                assert forall|j1: int, j2: int| 0 <= j1 < j2 < nodes@.len() implies item_lt(nodes@[j1], nodes@[j2]) by {
                    if j2 == nodes@.len() - 1 && j1 < old_nodes.len() {
                        assert(item_lt(old_nodes[j1], ContextualProduction { lhs, prod, dot: 0, la: c.la_lo }));
                    }
                }
            }
            l = l + 1;
        }
        if d < len {
            d = d + 1;
        } else {
            more = false;
        }
    }
}

/// Every valid item, once each, in increasing order.
fn item_table(nts: &Vec<NonTerminal>, c: LrConfig) -> (nodes: Vec<ContextualProduction>)
    requires
        config_ok(model(nts@), c),
    ensures
        forall|x: ContextualProduction| #[trigger] nodes@.contains(x) <==> valid_item(model(nts@), c, x),
        forall|j1: int, j2: int| 0 <= j1 < j2 < nodes@.len() ==> item_lt(nodes@[j1], nodes@[j2]),
{
    let ghost m = model(nts@);
    let mut nodes: Vec<ContextualProduction> = Vec::new();
    let mut lhs: usize = 0;
    let mut more = true;
    while more
        invariant
            m == model(nts@),
            config_ok(m, c),
            lhs <= c.n,
            forall|j: int| 0 <= j < nodes@.len() ==> (#[trigger] nodes@[j]).lhs < lhs || (!more && nodes@[j].lhs == lhs),
            forall|j1: int, j2: int| 0 <= j1 < j2 < nodes@.len() ==> item_lt(nodes@[j1], nodes@[j2]),
            forall|x: ContextualProduction| #[trigger] nodes@.contains(x) <==> valid_item(m, c, x) && (x.lhs < lhs || (!more && x.lhs == lhs)),
            !more ==> lhs == c.n,
        decreases c.n - lhs + if more { 1int } else { 0int },
    {
        let count = if lhs == c.n { 1 } else { nts[lhs].productions.len() };
        assert(count == prod_count(m, c, lhs as int));
        let mut p: usize = 0;
        while p < count
            invariant
                m == model(nts@),
                config_ok(m, c),
                lhs <= c.n,
                count == prod_count(m, c, lhs as int),
                p <= count,
                forall|j: int| 0 <= j < nodes@.len() ==> (#[trigger] nodes@[j]).lhs < lhs || (nodes@[j].lhs == lhs && nodes@[j].prod < p),
                forall|j1: int, j2: int| 0 <= j1 < j2 < nodes@.len() ==> item_lt(nodes@[j1], nodes@[j2]),
                forall|x: ContextualProduction| #[trigger] nodes@.contains(x) <==> valid_item(m, c, x) && (x.lhs < lhs || (x.lhs == lhs && x.prod < p)),
            decreases count - p,
        {
            let len = if lhs == c.n { 1 } else { nts[lhs].productions[p].list.len() };
            let ghost before = nodes@;
            assert(len == item_body(m, c, ContextualProduction { lhs, prod: p, dot: 0, la: 0 }).len());
            push_items(c, lhs, p, len, &mut nodes);
            proof {
                assert forall|x: ContextualProduction| #[trigger] nodes@.contains(x) <==> valid_item(m, c, x) && (x.lhs < lhs || (x.lhs == lhs && x.prod < p + 1)) by {
                    if x.lhs == lhs && x.prod == p {
                        assert(item_body(m, c, x) == item_body(m, c, ContextualProduction { lhs, prod: p, dot: 0, la: 0 }));
                    }
                }
                assert forall|j: int| 0 <= j < nodes@.len() implies (#[trigger] nodes@[j]).lhs < lhs || (nodes@[j].lhs == lhs && nodes@[j].prod < p + 1) by {
                    if j < before.len() {
                        assert(nodes@[j] == before[j]);
                    }
                }
            }
            p = p + 1;
        }
        if lhs < c.n {
            lhs = lhs + 1;
        } else {
            more = false;
        }
    }
    nodes
}

/// The position of item `x` in `nodes`.
fn find_item(nodes: &Vec<ContextualProduction>, x: ContextualProduction) -> (r: Option<usize>)
    ensures
        match r {
            Some(j) => j < nodes@.len() && nodes@[j as int] == x,
            None => !nodes@.contains(x),
        },
{
    let mut j: usize = 0;
    while j < nodes.len()
        invariant
            j <= nodes@.len(),
            forall|k: int| 0 <= k < j ==> nodes@[k] != x,
        decreases nodes@.len() - j,
    {
        if nodes[j] == x {
            return Some(j);
        }
        j = j + 1;
    }
    None
}

/// What follows the symbol after an item's dot.
pub open spec fn item_rest(m: Seq<Rule>, c: LrConfig, x: ContextualProduction) -> Seq<Sym> {
    item_body(m, c, x).skip(x.dot + 1)
}

/// `l` is a lookahead of the items that closing over `x` adds: for LR(1),
/// FIRST of what follows the symbol after the dot, and `x`'s own lookahead
/// where that derives ε; for LR(0), the one placeholder lookahead.
pub open spec fn la_ok(m: Seq<Rule>, names: Seq<Seq<char>>, c: LrConfig, x: ContextualProduction, l: int) -> bool {
    &&& c.la_lo <= l < c.la_hi
    &&& if c.k0 {
        l == x.la
    } else {
        first_of_seq(m, item_rest(m, c, x)).contains(names[l]) || (all_nullable(m, item_rest(m, c, x)) && l == x.la)
    }
}

/// Closing over `x` adds `y`: the dot of `x` stands before non-terminal
/// `y.lhs`, and `y` starts one of its productions with a lookahead that
/// `la_ok` admits.
pub open spec fn item_edge(m: Seq<Rule>, names: Seq<Seq<char>>, c: LrConfig, x: ContextualProduction, y: ContextualProduction) -> bool {
    &&& x.dot < item_body(m, c, x).len()
    &&& item_body(m, c, x)[x.dot as int].0 == TokenKind::Id
    &&& y.lhs < c.n
    &&& m[y.lhs as int].0 == item_body(m, c, x)[x.dot as int].1
    &&& y.prod < m[y.lhs as int].2.len()
    &&& y.dot == 0
    &&& la_ok(m, names, c, x, y.la as int)
}

/// The lookahead range fits the symbol table: its terminals for LR(1), one
/// placeholder for LR(0).
pub open spec fn la_range_ok(m: Seq<Rule>, names: Seq<String>, c: LrConfig) -> bool {
    if c.k0 {
        c.la_hi == c.la_lo + 1
    } else {
        c.la_lo == m.len() && c.la_hi == names.len()
    }
}

/// The context every step of the construction works in.
pub open spec fn lr_ready(nts: Seq<NonTerminal>, names: Seq<String>, c: LrConfig) -> bool {
    &&& well_formed(model(nts))
    &&& nullable_known(nts)
    &&& first_known(nts)
    &&& symbol_table(model(nts), names)
    &&& config_ok(model(nts), c)
    &&& la_range_ok(model(nts), names, c)
    &&& !is_nt(model(nts), "EOF"@)
}

proof fn lemma_first_of_seq_terminal(m: Seq<Rule>, w: Seq<Sym>, t: Seq<char>)
    requires
        well_formed(m),
        !is_nt(m, "EOF"@),
        forall|k: int| 0 <= k < w.len() ==> crate::productions::classified(m, #[trigger] w[k]),
        first_of_seq(m, w).contains(t),
    ensures
        !is_nt(m, t),
{
    let j = choose|j: int| 0 <= j < w.len() && all_nullable(m, w.take(j)) && #[trigger] crate::first_follow::starts_with(m, w[j], t);
    assert(crate::productions::classified(m, w[j]));
}

/// The lookaheads of the items that closing over `x` adds.
pub fn calculate_followers(nts: &Vec<NonTerminal>, names: &Vec<String>, c: LrConfig, x: ContextualProduction) -> (r: Vec<usize>)
    requires
        lr_ready(nts@, names@, c),
        valid_item(model(nts@), c, x),
        x.dot < item_body(model(nts@), c, x).len(),
    ensures
        forall|l: usize| #[trigger] r@.contains(l) <==> la_ok(model(nts@), views(names@), c, x, l as int),
{
    let ghost m = model(nts@);
    let mut r: Vec<usize> = Vec::new();
    if c.k0 || x.lhs == c.n {
        r.push(x.la);
        proof {
            if !c.k0 {
                assert(item_rest(m, c, x) =~= Seq::<Sym>::empty());
                assert(all_nullable(m, item_rest(m, c, x)));
            }
            assert forall|l: usize| #[trigger] r@.contains(l) <==> la_ok(m, views(names@), c, x, l as int) by {
                if r@.contains(l) {
                    let j = choose|j: int| 0 <= j < r@.len() && r@[j] == l;
                }
                if la_ok(m, views(names@), c, x, l as int) {
                    if !c.k0 {
                        if first_of_seq(m, item_rest(m, c, x)).contains(views(names@)[l as int]) {
                            let j = choose|j: int| 0 <= j < item_rest(m, c, x).len() && all_nullable(m, item_rest(m, c, x).take(j))
                                && #[trigger] crate::first_follow::starts_with(m, item_rest(m, c, x)[j], views(names@)[l as int]);
                        }
                    }
                    assert(r@[0] == l);
                }
            }
        }
        return r;
    }
    let list = &nts[x.lhs].productions[x.prod].list;
    assert(syms(list@) == m[x.lhs as int].2[x.prod as int]);
    proof {
        assert forall|k: int| 0 <= k < list@.len() implies crate::productions::classified(m, #[trigger] syms(list@)[k])
            && views(names@).contains(syms(list@)[k].1) by {
            assert(syms(list@)[k] == m[x.lhs as int].2[x.prod as int][k]);
        }
    }
    let len = list.len();
    assert(x.dot < len);
    assert(r@.len() == 0);
    let nul = rest_targets(nts, names, list, x.dot + 1, &mut r);
    let ghost firsts = r@;
    if nul {
        r.push(x.la);
    }
    proof {
        assert(item_rest(m, c, x) == syms(list@).skip(x.dot + 1));
        assert forall|l: usize| #[trigger] r@.contains(l) <==> la_ok(m, views(names@), c, x, l as int) by {
            if firsts.contains(l) {
                let j = choose|j: int| 0 <= j < firsts.len() && firsts[j] == l;
                assert(r@[j] == l);
                assert(firsts.contains((l as int) as usize));
                assert(l < names@.len());
                assert(first_of_seq(m, item_rest(m, c, x)).contains(names@[l as int]@));
                assert forall|k: int| 0 <= k < item_rest(m, c, x).len() implies crate::productions::classified(m, #[trigger] item_rest(m, c, x)[k]) by {
                    assert(item_rest(m, c, x)[k] == syms(list@)[x.dot + 1 + k]);
                }
                lemma_first_of_seq_terminal(m, item_rest(m, c, x), names@[l as int]@);
                if (l as int) < m.len() {
                    assert(names@[l as int]@ == m[l as int].0);
                }
                assert(views(names@)[l as int] == names@[l as int]@);
            }
            if r@.contains(l) && !firsts.contains(l) {
                let j = choose|j: int| 0 <= j < r@.len() && r@[j] == l;
                if j < firsts.len() {
                    assert(firsts[j] == l);
                }
            }
            if la_ok(m, views(names@), c, x, l as int) {
                if first_of_seq(m, item_rest(m, c, x)).contains(views(names@)[l as int]) {
                    assert(views(names@)[l as int] == names@[l as int]@);
                    assert(firsts.contains((l as int) as usize));
                    let j = choose|j: int| 0 <= j < firsts.len() && firsts[j] == l;
                    assert(r@[j] == l);
                } else {
                    assert(r@[r@.len() - 1] == l);
                }
            }
        }
    }
    r
}

/// `nodes` holds every valid item once, in increasing order.
pub open spec fn nodes_ok(m: Seq<Rule>, c: LrConfig, nodes: Seq<ContextualProduction>) -> bool {
    &&& forall|x: ContextualProduction| #[trigger] nodes.contains(x) <==> valid_item(m, c, x)
    &&& forall|j1: int, j2: int| 0 <= j1 < j2 < nodes.len() ==> item_lt(nodes[j1], nodes[j2])
}

proof fn lemma_nodes_unique(nodes: Seq<ContextualProduction>, a: int, b: int)
    requires
        forall|j1: int, j2: int| 0 <= j1 < j2 < nodes.len() ==> item_lt(nodes[j1], nodes[j2]),
        0 <= a < nodes.len(),
        0 <= b < nodes.len(),
        nodes[a] == nodes[b],
    ensures
        a == b,
{
    if a < b {
        assert(item_lt(nodes[a], nodes[b]));
    } else if b < a {
        assert(item_lt(nodes[b], nodes[a]));
    }
}

/// The entries of `v`, each once, in the order of their first occurrence.
fn unique_indices(v: &Vec<usize>) -> (r: Vec<usize>)
    ensures
        r@.no_duplicates(),
        forall|x: usize| #[trigger] r@.contains(x) <==> v@.contains(x),
{
    let mut r: Vec<usize> = Vec::new();
    let mut i: usize = 0;
    while i < v.len()
        invariant
            i <= v@.len(),
            r@.no_duplicates(),
            forall|x: usize| #[trigger] r@.contains(x) <==> v@.take(i as int).contains(x),
        decreases v@.len() - i,
    {
        let x = v[i];
        let mut present = false;
        let mut k: usize = 0;
        while k < r.len()
            invariant
                k <= r@.len(),
                present == exists|j: int| 0 <= j < k && r@[j] == x,
            decreases r@.len() - k,
        {
            if r[k] == x {
                present = true;
            }
            k = k + 1;
        }
        let ghost before = r@;
        if !present {
            r.push(x);
        }
        proof {
            assert forall|a: int, b: int| 0 <= a < r@.len() && 0 <= b < r@.len() && a != b implies r@[a] != r@[b] by {
                if a < before.len() && b < before.len() {
                    assert(r@[a] == before[a] && r@[b] == before[b]);
                } else if a < before.len() {
                    assert(r@[a] == before[a]);
                } else {
                    assert(r@[b] == before[b]);
                }
            }
            assert(v@.take(i + 1) =~= v@.take(i as int).push(x));
            assert forall|y: usize| #[trigger] r@.contains(y) <==> v@.take(i + 1).contains(y) by {
                if r@.contains(y) {
                    let j = choose|j: int| 0 <= j < r@.len() && #[trigger] r@[j] == y;
                    if j < before.len() {
                        assert(before.contains(y));
                        let k2 = choose|k2: int| 0 <= k2 < v@.take(i as int).len() && #[trigger] v@.take(i as int)[k2] == y;
                        assert(v@.take(i + 1)[k2] == y);
                    } else {
                        assert(v@.take(i + 1)[i as int] == y);
                    }
                }
                if v@.take(i + 1).contains(y) {
                    let k2 = choose|k2: int| 0 <= k2 < v@.take(i + 1).len() && #[trigger] v@.take(i + 1)[k2] == y;
                    if k2 < i {
                        assert(v@.take(i as int)[k2] == y);
                        assert(before.contains(y));
                        let j = choose|j: int| 0 <= j < before.len() && #[trigger] before[j] == y;
                        assert(r@[j] == y);
                    } else if present {
                        let j = choose|j: int| 0 <= j < before.len() && #[trigger] before[j] == x;
                        assert(r@[j] == y);
                    } else {
                        assert(r@[before.len() as int] == y);
                    }
                }
            }
        }
        i = i + 1;
    }
    assert(v@.take(v@.len() as int) =~= v@);
    r
}

/// The positions of the items that closing over item `u` adds.
pub fn production_closure(nts: &Vec<NonTerminal>, names: &Vec<String>, c: LrConfig, nodes: &Vec<ContextualProduction>, u: usize) -> (out: Vec<usize>)
    requires
        lr_ready(nts@, names@, c),
        nodes_ok(model(nts@), c, nodes@),
        u < nodes@.len(),
    ensures
        forall|j: int| 0 <= j < out@.len() ==> out@[j] < nodes@.len(),
        forall|v: int| 0 <= v < nodes@.len() ==> (#[trigger] out@.contains(v as usize)
            <==> item_edge(model(nts@), views(names@), c, nodes@[u as int], nodes@[v])),
        out@.no_duplicates(),
{
    let ghost m = model(nts@);
    let x = nodes[u];
    assert(nodes@.contains(x));
    let mut out: Vec<usize> = Vec::new();
    let nlen = nodes.len();
    let b: usize;
    if x.lhs == c.n {
        if x.dot >= 1 {
            proof {
                assert forall|v: int| 0 <= v < nodes@.len() implies !item_edge(m, views(names@), c, x, nodes@[v]) by {}
            }
            assert(out@.no_duplicates());
            return out;
        }
        b = c.start;
    } else {
        let list = &nts[x.lhs].productions[x.prod].list;
        assert(syms(list@) == m[x.lhs as int].2[x.prod as int]);
        if x.dot >= list.len() || list[x.dot].kind != TokenKind::Id {
            proof {
                assert forall|v: int| 0 <= v < nodes@.len() implies !item_edge(m, views(names@), c, x, nodes@[v]) by {
                    if x.dot < list@.len() {
                        assert(item_body(m, c, x)[x.dot as int] == sym(list@[x.dot as int]));
                    }
                }
            }
            assert(out@.no_duplicates());
            return out;
        }
        assert(item_body(m, c, x)[x.dot as int] == sym(list@[x.dot as int]));
        assert(crate::productions::classified(m, m[x.lhs as int].2[x.prod as int][x.dot as int]));
        b = match find_non_terminal(nts, &list[x.dot].value) {
            Some(b) => b,
            None => 0,
        };
    }
    assert(x.dot < item_body(m, c, x).len());
    assert(item_body(m, c, x)[x.dot as int].0 == TokenKind::Id);
    assert(m[b as int].0 == item_body(m, c, x)[x.dot as int].1);
    let las = calculate_followers(nts, names, c, x);
    let count = nts[b].productions.len();
    let mut q: usize = 0;
    while q < count
        invariant
            m == model(nts@),
            lr_ready(nts@, names@, c),
            nodes_ok(m, c, nodes@),
            nlen == nodes@.len(),
            u < nlen,
            x == nodes@[u as int],
            b < m.len(),
            count == m[b as int].2.len(),
            m[b as int].0 == item_body(m, c, x)[x.dot as int].1,
            x.dot < item_body(m, c, x).len(),
            item_body(m, c, x)[x.dot as int].0 == TokenKind::Id,
            forall|l: usize| #[trigger] las@.contains(l) <==> la_ok(m, views(names@), c, x, l as int),
            q <= count,
            forall|j: int| 0 <= j < out@.len() ==> out@[j] < nlen,
            forall|v: int| 0 <= v < nlen ==> (#[trigger] out@.contains(v as usize) <==> (item_edge(m, views(names@), c, x, nodes@[v])
                && nodes@[v].prod < q)),
        decreases count - q,
    {
        let mut e: usize = 0;
        while e < las.len()
            invariant
                m == model(nts@),
                lr_ready(nts@, names@, c),
                nodes_ok(m, c, nodes@),
                nlen == nodes@.len(),
                u < nlen,
                x == nodes@[u as int],
                b < m.len(),
                count == m[b as int].2.len(),
                m[b as int].0 == item_body(m, c, x)[x.dot as int].1,
                x.dot < item_body(m, c, x).len(),
                item_body(m, c, x)[x.dot as int].0 == TokenKind::Id,
                forall|l: usize| #[trigger] las@.contains(l) <==> la_ok(m, views(names@), c, x, l as int),
                q < count,
                e <= las@.len(),
                forall|j: int| 0 <= j < out@.len() ==> out@[j] < nlen,
                forall|v: int| 0 <= v < nlen ==> (#[trigger] out@.contains(v as usize) <==> (item_edge(m, views(names@), c, x, nodes@[v])
                    && (nodes@[v].prod < q || (nodes@[v].prod == q && exists|f: int| 0 <= f < e && las@[f] == nodes@[v].la)))),
            decreases las@.len() - e,
        {
            let y = ContextualProduction::new(b, q, las[e]);
            assert(las@.contains(las@[e as int]));
            assert(valid_item(m, c, y));
            let j = match find_item(nodes, y) {
                Some(j) => j,
                None => 0,
            };
            let ghost before = out@;
            out.push(j);
            proof {
                assert(out@ =~= before.push(j));
                assert forall|v: int| 0 <= v < nlen implies (#[trigger] out@.contains(v as usize) <==> (item_edge(m, views(names@), c, x, nodes@[v])
                    && (nodes@[v].prod < q || (nodes@[v].prod == q && exists|f: int| 0 <= f < e + 1 && las@[f] == nodes@[v].la)))) by {
                    if out@.contains(v as usize) && !before.contains(v as usize) {
                        let i = choose|i: int| 0 <= i < out@.len() && out@[i] == v as usize;
                        if i < before.len() {
                            assert(before[i] == v as usize);
                        }
                        assert(v == j);
                        assert(item_edge(m, views(names@), c, x, y));
                    }
                    if before.contains(v as usize) {
                        let i = choose|i: int| 0 <= i < before.len() && before[i] == v as usize;
                        assert(out@[i] == v as usize);
                    }
                    if item_edge(m, views(names@), c, x, nodes@[v]) && nodes@[v].prod == q && las@[e as int] == nodes@[v].la {
                        assert(nodes@[v].lhs == b) by {
                            assert(m[nodes@[v].lhs as int].0 == m[b as int].0);
                        }
                        assert(nodes@[v] == y);
                        lemma_nodes_unique(nodes@, v, j as int);
                        assert(out@[before.len() as int] == v as usize);
                    }
                }
            }
            e = e + 1;
        }
        proof {
            assert forall|v: int| 0 <= v < nlen implies (#[trigger] out@.contains(v as usize) <==> (item_edge(m, views(names@), c, x, nodes@[v])
                && nodes@[v].prod < q + 1)) by {
                if item_edge(m, views(names@), c, x, nodes@[v]) && nodes@[v].prod == q {
                    assert(las@.contains(nodes@[v].la));
                    let f = choose|f: int| 0 <= f < las@.len() && las@[f] == nodes@[v].la;
                }
            }
        }
        q = q + 1;
    }
    proof {
        assert forall|v: int| 0 <= v < nlen implies (#[trigger] out@.contains(v as usize) <==> item_edge(m, views(names@), c, x, nodes@[v])) by {
            if item_edge(m, views(names@), c, x, nodes@[v]) {
                assert(m[nodes@[v].lhs as int].0 == m[b as int].0);
                assert(nodes@[v].lhs == b);
            }
        }
    }
    let r = unique_indices(&out);
    proof {
        assert forall|j: int| 0 <= j < r@.len() implies r@[j] < nodes@.len() by {
            assert(r@.contains(r@[j]));
            assert(out@.contains(r@[j]));
            let k = choose|k: int| 0 <= k < out@.len() && out@[k] == r@[j];
        }
    }
    r
}

/// The item graph: an edge from each item to each item that closing over it
/// adds.
fn item_graph(nts: &Vec<NonTerminal>, names: &Vec<String>, c: LrConfig, nodes: &Vec<ContextualProduction>) -> (adj: Vec<Vec<usize>>)
    requires
        lr_ready(nts@, names@, c),
        nodes_ok(model(nts@), c, nodes@),
    ensures
        adj@.len() == nodes@.len(),
        closed_graph(adj_view(&adj)),
        forall|u: int, v: int| 0 <= u < nodes@.len() && 0 <= v < nodes@.len() ==> (#[trigger] edge(adj_view(&adj), u, v)
            <==> item_edge(model(nts@), views(names@), c, nodes@[u], nodes@[v])),
{
    let ghost m = model(nts@);
    let mut adj: Vec<Vec<usize>> = Vec::new();
    let mut u: usize = 0;
    while u < nodes.len()
        invariant
            m == model(nts@),
            lr_ready(nts@, names@, c),
            nodes_ok(m, c, nodes@),
            u <= nodes@.len(),
            adj@.len() == u,
            forall|a: int, j: int| 0 <= a < u && 0 <= j < adj@[a]@.len() ==> #[trigger] adj@[a]@[j] < nodes@.len(),
            forall|a: int, v: int| 0 <= a < u && 0 <= v < nodes@.len() ==>
                (#[trigger] adj@[a]@.contains(v as usize) <==> item_edge(m, views(names@), c, nodes@[a], nodes@[v])),
        decreases nodes@.len() - u,
    {
        let t = production_closure(nts, names, c, nodes, u);
        adj.push(t);
        u = u + 1;
    }
    let ghost g = adj_view(&adj);
    proof {
        assert forall|a: int, v: int| 0 <= a < nodes@.len() && 0 <= v < nodes@.len() implies (#[trigger] edge(g, a, v)
            <==> item_edge(m, views(names@), c, nodes@[a], nodes@[v])) by {
            assert(g[a] == adj@[a]@);
        }
        assert forall|a: int, j: int| 0 <= a < g.len() && 0 <= j < g[a].len() implies g[a][j] < g.len() by {
            assert(g[a] == adj@[a]@);
        }
    }
    adj
}

/// The closure of a set of items: every item that some item of `kernel`
/// reaches in the item graph.
pub fn closure(adj: &Vec<Vec<usize>>, kernel: &Vec<usize>) -> (seen: Vec<bool>)
    requires
        closed_graph(adj_view(adj)),
        forall|j: int| 0 <= j < kernel@.len() ==> kernel@[j] < adj@.len(),
    ensures
        seen@.len() == adj@.len(),
        forall|v: int| 0 <= v < adj@.len() ==> (#[trigger] seen@[v] <==> exists|j: int| 0 <= j < kernel@.len()
            && reachable(adj_view(adj), kernel@[j] as int, v)),
{
    let n = adj.len();
    let mut seen: Vec<bool> = Vec::new();
    let mut i: usize = 0;
    while i < n
        invariant
            i <= n,
            n == adj@.len(),
            seen@.len() == i,
            forall|k: int| 0 <= k < i ==> !seen@[k],
        decreases n - i,
    {
        seen.push(false);
        i = i + 1;
    }
    let mut j: usize = 0;
    while j < kernel.len()
        invariant
            closed_graph(adj_view(adj)),
            forall|j: int| 0 <= j < kernel@.len() ==> kernel@[j] < adj@.len(),
            n == adj@.len(),
            seen@.len() == n,
            j <= kernel@.len(),
            forall|v: int| 0 <= v < n ==> (#[trigger] seen@[v] <==> exists|k: int| 0 <= k < j
                && reachable(adj_view(adj), kernel@[k] as int, v)),
        decreases kernel@.len() - j,
    {
        let r = first_n_follow_set_dfs(adj, kernel[j]);
        let mut v: usize = 0;
        while v < n
            invariant
                n == adj@.len(),
                seen@.len() == n,
                r@.len() == n,
                j < kernel@.len(),
                v <= n,
                forall|w: int| 0 <= w < n ==> (#[trigger] r@[w] <==> reachable(adj_view(adj), kernel@[j as int] as int, w)),
                forall|w: int| 0 <= w < v ==> (#[trigger] seen@[w] <==> exists|k: int| 0 <= k < j + 1
                    && reachable(adj_view(adj), kernel@[k] as int, w)),
                forall|w: int| v <= w < n ==> (#[trigger] seen@[w] <==> exists|k: int| 0 <= k < j
                    && reachable(adj_view(adj), kernel@[k] as int, w)),
            decreases n - v,
        {
            if r[v] {
                seen.set(v, true);
            }
            v = v + 1;
        }
        j = j + 1;
    }
    seen
}

/// The symbol after the dot of `x` is called `t`.
pub open spec fn next_is(m: Seq<Rule>, c: LrConfig, x: ContextualProduction, t: Seq<char>) -> bool {
    x.dot < item_body(m, c, x).len() && item_body(m, c, x)[x.dot as int].1 == t
}

pub open spec fn advanced(x: ContextualProduction) -> ContextualProduction {
    ContextualProduction { dot: (x.dot + 1) as usize, ..x }
}

/// The name of the symbol after the dot of item `x`, if any.
fn next_name(nts: &Vec<NonTerminal>, c: LrConfig, x: ContextualProduction) -> (r: Option<String>)
    requires
        config_ok(model(nts@), c),
        valid_item(model(nts@), c, x),
    ensures
        match r {
            Some(t) => next_is(model(nts@), c, x, t@) && x.dot < usize::MAX,
            None => x.dot >= item_body(model(nts@), c, x).len(),
        },
{
    let ghost m = model(nts@);
    if x.lhs == c.n {
        if x.dot == 0 {
            assert(m[c.start as int].0 == nts@[c.start as int].name@);
            Some(nts[c.start].name.clone())
        } else {
            None
        }
    } else {
        let list = &nts[x.lhs].productions[x.prod].list;
        assert(syms(list@) == m[x.lhs as int].2[x.prod as int]);
        if x.dot < list.len() {
            assert(item_body(m, c, x)[x.dot as int] == sym(list@[x.dot as int]));
            Some(list[x.dot].value.clone())
        } else {
            None
        }
    }
}

/// The positions of the items of `state` with the dot moved past a symbol
/// called `t`.
pub fn goto(nts: &Vec<NonTerminal>, c: LrConfig, nodes: &Vec<ContextualProduction>, state: &Vec<bool>, t: &String) -> (k: Vec<usize>)
    requires
        config_ok(model(nts@), c),
        nodes_ok(model(nts@), c, nodes@),
        state@.len() == nodes@.len(),
    ensures
        forall|j: int| 0 <= j < k@.len() ==> k@[j] < nodes@.len(),
        forall|w: int| 0 <= w < nodes@.len() ==> (#[trigger] k@.contains(w as usize) <==> exists|v: int| 0 <= v < nodes@.len()
            && state@[v] && next_is(model(nts@), c, nodes@[v], t@) && nodes@[w] == advanced(nodes@[v])),
{
    let ghost m = model(nts@);
    let nlen = nodes.len();
    let mut k: Vec<usize> = Vec::new();
    let mut v: usize = 0;
    while v < nlen
        invariant
            m == model(nts@),
            config_ok(m, c),
            nodes_ok(m, c, nodes@),
            nlen == nodes@.len(),
            state@.len() == nlen,
            v <= nlen,
            forall|j: int| 0 <= j < k@.len() ==> k@[j] < nlen,
            forall|w: int| 0 <= w < nlen ==> (#[trigger] k@.contains(w as usize) <==> exists|v2: int| 0 <= v2 < v
                && state@[v2] && next_is(m, c, nodes@[v2], t@) && nodes@[w] == advanced(nodes@[v2])),
        decreases nlen - v,
    {
        if state[v] {
            let x = nodes[v];
            assert(nodes@.contains(x));
            match next_name(nts, c, x) {
                Some(name) => {
                    if name == *t {
                        let y = x.new_advanced();
                        assert(item_body(m, c, y) == item_body(m, c, x));
                        assert(valid_item(m, c, y));
                        let j = match find_item(nodes, y) {
                            Some(j) => j,
                            None => 0,
                        };
                        let ghost before = k@;
                        k.push(j);
                        proof {
                            assert(k@ =~= before.push(j));
                            assert forall|w: int| 0 <= w < nlen implies (#[trigger] k@.contains(w as usize) <==> exists|v2: int| 0 <= v2 < v + 1
                                && state@[v2] && next_is(m, c, nodes@[v2], t@) && nodes@[w] == advanced(nodes@[v2])) by {
                                if k@.contains(w as usize) && !before.contains(w as usize) {
                                    let i = choose|i: int| 0 <= i < k@.len() && k@[i] == w as usize;
                                    if i < before.len() {
                                        assert(before[i] == w as usize);
                                    }
                                    assert(w == j);
                                }
                                if before.contains(w as usize) {
                                    let i = choose|i: int| 0 <= i < before.len() && before[i] == w as usize;
                                    assert(k@[i] == w as usize);
                                }
                                if nodes@[w] == advanced(nodes@[v as int]) {
                                    lemma_nodes_unique(nodes@, w, j as int);
                                    assert(k@[before.len() as int] == w as usize);
                                }
                            }
                        }
                    }
                },
                None => {},
            }
        }
        v = v + 1;
    }
    k
}

/// The names of the symbols after the dots of the items of `state`, each
/// once, in the order of the items.
/// The names of the symbols after the dots of the first `k` items of `st`,
/// each once, in the order of the items.
pub open spec fn next_names(m: Seq<Rule>, c: LrConfig, nodes: Seq<ContextualProduction>, st: Seq<bool>, k: int) -> Seq<Seq<char>>
    decreases k,
{
    if k <= 0 {
        Seq::empty()
    } else {
        let prev = next_names(m, c, nodes, st, k - 1);
        let x = nodes[k - 1];
        if st[k - 1] && x.dot < item_body(m, c, x).len() && !prev.contains(item_body(m, c, x)[x.dot as int].1) {
            prev.push(item_body(m, c, x)[x.dot as int].1)
        } else {
            prev
        }
    }
}

fn state_symbols(nts: &Vec<NonTerminal>, c: LrConfig, nodes: &Vec<ContextualProduction>, state: &Vec<bool>) -> (r: Vec<String>)
    requires
        config_ok(model(nts@), c),
        nodes_ok(model(nts@), c, nodes@),
        state@.len() == nodes@.len(),
    ensures
        views(r@).no_duplicates(),
        forall|t: Seq<char>| #[trigger] views(r@).contains(t) <==> exists|v: int| 0 <= v < nodes@.len() && state@[v]
            && next_is(model(nts@), c, nodes@[v], t),
        views(r@) == next_names(model(nts@), c, nodes@, state@, nodes@.len() as int),
{
    let ghost m = model(nts@);
    let mut r: Vec<String> = Vec::new();
    assert(views(r@) =~= next_names(m, c, nodes@, state@, 0));
    let mut v: usize = 0;
    while v < nodes.len()
        invariant
            m == model(nts@),
            config_ok(m, c),
            nodes_ok(m, c, nodes@),
            state@.len() == nodes@.len(),
            v <= nodes@.len(),
            views(r@).no_duplicates(),
            forall|t: Seq<char>| #[trigger] views(r@).contains(t) <==> exists|v2: int| 0 <= v2 < v && state@[v2]
                && next_is(m, c, nodes@[v2], t),
            views(r@) == next_names(m, c, nodes@, state@, v as int),
        decreases nodes@.len() - v,
    {
        let ghost prev = views(r@);
        if state[v] {
            let x = nodes[v];
            assert(nodes@.contains(x));
            match next_name(nts, c, x) {
                Some(name) => {
                    let ghost before = r@;
                    crate::first_follow::push_if_absent(&mut r, &name);
                    proof {
                        assert forall|t: Seq<char>| views(before).contains(t) implies #[trigger] views(r@).contains(t) by {
                            let y = choose|y: int| 0 <= y < views(before).len() && views(before)[y] == t;
                            assert(views(r@)[y] == t);
                        }
                    }
                },
                None => {},
            }
        }
        proof {
            assert(views(r@) =~= next_names(m, c, nodes@, state@, v + 1));
        }
        v = v + 1;
    }
    r
}

/// The item-set automaton: the symbol table, every valid item, the item
/// graph, the states (each the set of items it holds) and each state's
/// transitions, a symbol name and a target state.
pub struct Automaton {
    pub config: LrConfig,
    pub names: Vec<String>,
    pub nodes: Vec<ContextualProduction>,
    pub adj: Vec<Vec<usize>>,
    pub states: Vec<Vec<bool>>,
    pub transitions: Vec<Vec<(String, usize)>>,
}

/// The symbol names of a list of transitions.
pub open spec fn trans_syms(tr: Seq<(String, usize)>) -> Seq<Seq<char>> {
    tr.map_values(|p: (String, usize)| p.0@)
}

/// State `t` is first reached by transition `e` of an earlier state `s`,
/// and every transition before that one leads to a state numbered below
/// `t`: states are numbered in the order they are found.
pub open spec fn discovered(trs: Seq<Vec<(String, usize)>>, t: int) -> bool {
    exists|s: int, e: int| #![trigger trs[s]@[e]] 0 <= s < t && s < trs.len() && 0 <= e < trs[s]@.len() && trs[s]@[e].1 == t
        && forall|s2: int, e2: int| 0 <= s2 < trs.len() && 0 <= e2 < trs[s2]@.len()
            && crate::ll_processing::comes_before(s2, e2, s, e) ==> (#[trigger] trs[s2]@[e2]).1 < t
}

/// Transition `f` of `tr` is the first that leads to state `t`, and every
/// earlier one leads below `t`.
pub open spec fn first_found(tr: Seq<(String, usize)>, t: int) -> bool {
    exists|f: int| #![trigger tr[f]] 0 <= f < tr.len() && tr[f].1 == t && forall|f2: int| 0 <= f2 < f ==> (#[trigger] tr[f2]).1 < t
}

/// The augmented start item `S' -> . S`, with lookahead `EOF` for LR(1).
pub open spec fn root_item(c: LrConfig) -> ContextualProduction {
    ContextualProduction { lhs: c.n, prod: 0, dot: 0, la: c.root_la }
}

/// `st` is the closure of the items that `ks` admits: the items that one of
/// them reaches in the item graph `g`.
pub open spec fn is_closure(nodes: Seq<ContextualProduction>, g: Seq<Seq<usize>>, st: Seq<bool>, ks: spec_fn(ContextualProduction) -> bool) -> bool {
    &&& st.len() == nodes.len()
    &&& forall|v: int| 0 <= v < st.len() ==> (#[trigger] st[v] <==> exists|k: int| 0 <= k < nodes.len()
        && ks(nodes[k]) && reachable(g, k, v))
}

/// The items of `st` with the dot moved past a symbol called `t`.
pub open spec fn goto_items(m: Seq<Rule>, c: LrConfig, nodes: Seq<ContextualProduction>, st: Seq<bool>, t: Seq<char>) -> spec_fn(ContextualProduction) -> bool {
    |y: ContextualProduction| exists|v: int| 0 <= v < nodes.len() && st[v] && next_is(m, c, #[trigger] nodes[v], t) && y == advanced(nodes[v])
}

/// Transition `e` of state `s` is on symbol `t` and leads to the closure of
/// GOTO(state `s`, `t`).
pub open spec fn transition_ok(m: Seq<Rule>, a: Automaton, s: int, e: int) -> bool {
    let (t, target) = a.transitions@[s]@[e];
    &&& target < a.states@.len()
    &&& is_closure(a.nodes@, adj_view(&a.adj), a.states@[target as int]@, goto_items(m, a.config, a.nodes@, a.states@[s]@, t@))
}

/// The automaton of a grammar: exact items and item graph; state 0 is the
/// closure of the start item; each state has one transition for each symbol
/// after a dot in it, to the closure of GOTO on that symbol; no two states
/// hold the same items.
pub open spec fn automaton_ok(nts: Seq<NonTerminal>, a: Automaton) -> bool {
    let m = model(nts);
    let c = a.config;
    &&& lr_ready(nts, a.names@, c)
    &&& nodes_ok(m, c, a.nodes@)
    &&& a.adj@.len() == a.nodes@.len()
    &&& closed_graph(adj_view(&a.adj))
    &&& forall|u: int, v: int| 0 <= u < a.nodes@.len() && 0 <= v < a.nodes@.len() ==> (#[trigger] edge(adj_view(&a.adj), u, v)
        <==> item_edge(m, views(a.names@), c, a.nodes@[u], a.nodes@[v]))
    &&& a.states@.len() >= 1
    &&& a.transitions@.len() == a.states@.len()
    &&& forall|s: int| 0 <= s < a.states@.len() ==> (#[trigger] a.states@[s])@.len() == a.nodes@.len()
    &&& is_closure(a.nodes@, adj_view(&a.adj), a.states@[0]@, |y: ContextualProduction| y == root_item(c))
    &&& forall|s: int, e: int| 0 <= s < a.states@.len() && 0 <= e < a.transitions@[s]@.len() ==> #[trigger] transition_ok(m, a, s, e)
    &&& forall|s: int| 0 <= s < a.states@.len() ==> #[trigger] trans_syms(a.transitions@[s]@).no_duplicates()
    &&& forall|s: int| 0 <= s < a.states@.len() ==> #[trigger] trans_syms(a.transitions@[s]@)
        == next_names(m, c, a.nodes@, a.states@[s]@, a.nodes@.len() as int)
    &&& forall|t: int| 1 <= t < a.states@.len() ==> #[trigger] discovered(a.transitions@, t)
    &&& forall|s: int, t: Seq<char>| 0 <= s < a.states@.len() ==> (#[trigger] trans_syms(a.transitions@[s]@).contains(t)
        <==> exists|v: int| 0 <= v < a.nodes@.len() && a.states@[s]@[v] && next_is(m, c, #[trigger] a.nodes@[v], t))
    &&& forall|s1: int, s2: int| 0 <= s1 < s2 < a.states@.len() ==> a.states@[s1]@ != a.states@[s2]@
}

fn same_bools(a: &Vec<bool>, b: &Vec<bool>) -> (r: bool)
    ensures
        r == (a@ == b@),
{
    if a.len() != b.len() {
        return false;
    }
    let mut i: usize = 0;
    while i < a.len()
        invariant
            a@.len() == b@.len(),
            i <= a@.len(),
            forall|k: int| 0 <= k < i ==> a@[k] == b@[k],
        decreases a@.len() - i,
    {
        if a[i] != b[i] {
            return false;
        }
        i = i + 1;
    }
    assert(a@ =~= b@);
    true
}

/// Whether `st` is a new state: no state of `states` holds the same items.
pub fn can_append_to_set(states: &Vec<Vec<bool>>, st: &Vec<bool>) -> (r: bool)
    ensures
        r == forall|i: int| 0 <= i < states@.len() ==> states@[i]@ != st@,
{
    match find_closure_index(states, st) {
        Some(i) => {
            assert(states@[i as int]@ == st@);
            false
        },
        None => true,
    }
}

pub fn find_closure_index(states: &Vec<Vec<bool>>, st: &Vec<bool>) -> (r: Option<usize>)
    ensures
        match r {
            Some(i) => i < states@.len() && states@[i as int]@ == st@ && forall|k: int| 0 <= k < i ==> states@[k]@ != st@,
            None => forall|i: int| 0 <= i < states@.len() ==> states@[i]@ != st@,
        },
{
    let mut i: usize = 0;
    while i < states.len()
        invariant
            i <= states@.len(),
            forall|k: int| 0 <= k < i ==> states@[k]@ != st@,
        decreases states@.len() - i,
    {
        if same_bools(&states[i], st) {
            return Some(i);
        }
        i = i + 1;
    }
    None
}

proof fn lemma_kernel_closure(nodes: Seq<ContextualProduction>, g: Seq<Seq<usize>>, kernel: Seq<usize>, st: Seq<bool>, ks: spec_fn(ContextualProduction) -> bool)
    requires
        nodes.len() <= usize::MAX,
        forall|j: int| 0 <= j < kernel.len() ==> kernel[j] < nodes.len(),
        forall|w: int| 0 <= w < nodes.len() ==> (#[trigger] kernel.contains(w as usize) <==> ks(nodes[w])),
        st.len() == nodes.len(),
        forall|v: int| 0 <= v < nodes.len() ==> (#[trigger] st[v] <==> exists|j: int| 0 <= j < kernel.len() && reachable(g, kernel[j] as int, v)),
    ensures
        is_closure(nodes, g, st, ks),
{
    assert forall|v: int| 0 <= v < st.len() implies (#[trigger] st[v] <==> exists|k: int| 0 <= k < nodes.len()
        && ks(nodes[k]) && reachable(g, k, v)) by {
        if st[v] {
            let j = choose|j: int| 0 <= j < kernel.len() && reachable(g, kernel[j] as int, v);
            let k = kernel[j] as int;
            assert(kernel[j] < nodes.len());
            assert(kernel.contains(k as usize));
            assert(ks(nodes[k]));
            assert(reachable(g, k, v));
        }
        if exists|k: int| 0 <= k < nodes.len() && ks(nodes[k]) && reachable(g, k, v) {
            let k = choose|k: int| 0 <= k < nodes.len() && ks(nodes[k]) && reachable(g, k, v);
            assert(kernel.contains(k as usize));
            let j = choose|j: int| 0 <= j < kernel.len() && kernel[j] == k as usize;
            assert(kernel[j] as int == k);
            assert(reachable(g, kernel[j] as int, v));
        }
    }
}

/// The position of the non-terminal marked as the start symbol.
fn find_start(nts: &Vec<NonTerminal>) -> (r: Option<usize>)
    ensures
        match r {
            Some(i) => i < nts@.len() && nts@[i as int].is_start_term,
            None => forall|i: int| 0 <= i < nts@.len() ==> !(#[trigger] nts@[i]).is_start_term,
        },
{
    let mut i: usize = 0;
    while i < nts.len()
        invariant
            i <= nts@.len(),
            forall|k: int| 0 <= k < i ==> !(#[trigger] nts@[k]).is_start_term,
        decreases nts@.len() - i,
    {
        if nts[i].is_start_term {
            return Some(i);
        }
        i = i + 1;
    }
    None
}

/// Builds the item-set automaton of an analysed grammar, LR(0) when `is_k0`,
/// else LR(1); states are numbered in the order they are found.
pub fn fill_out_automaton(nts: &Vec<NonTerminal>, is_k0: bool) -> (a: Automaton)
    requires
        well_formed(model(nts@)),
        nullable_known(nts@),
        first_known(nts@),
        !is_nt(model(nts@), "EOF"@),
        exists|i: int| 0 <= i < nts@.len() && #[trigger] nts@[i].is_start_term,
    ensures
        automaton_ok(nts@, a),
        a.config.k0 == is_k0,
        nts@[a.config.start as int].is_start_term,
        a.names@[a.config.root_la as int]@ == "EOF"@,
{
    let ghost m = model(nts@);
    let n = nts.len();
    let start = match find_start(nts) {
        Some(i) => i,
        None => 0,
    };
    let names = build_symbol_table(nts);
    let eof_name = String::from_str("EOF");
    let eof = match find_symbol(&names, &eof_name) {
        Some(x) => x,
        None => 0,
    };
    let nl = names.len();
    proof {
        assert(eof < nl);
        if (eof as int) < n {
            assert(names@[eof as int]@ == m[eof as int].0);
        }
    }
    let c = if is_k0 {
        LrConfig { n, start, k0: true, la_lo: eof, la_hi: eof + 1, root_la: eof }
    } else {
        LrConfig { n, start, k0: false, la_lo: n, la_hi: names.len(), root_la: eof }
    };
    let nodes = item_table(nts, c);
    let adj = item_graph(nts, &names, c, &nodes);
    assert(valid_item(m, c, root_item(c)));
    let root = ContextualProduction { lhs: n, prod: 0, dot: 0, la: eof };
    assert(root == root_item(c));
    let r0 = match find_item(&nodes, root) {
        Some(j) => j,
        None => 0,
    };
    let kernel0 = vec![r0];
    let first = closure(&adj, &kernel0);
    let nodes_len = nodes.len();
    proof {
        assert(kernel0@ =~= seq![r0]);
        assert(nodes@[r0 as int] == root_item(c));
        assert forall|w: int| 0 <= w < nodes@.len() implies (#[trigger] kernel0@.contains(w as usize) <==> (|y: ContextualProduction| y == root_item(c))(nodes@[w])) by {
            if kernel0@.contains(w as usize) {
                assert(kernel0@[0] == w as usize);
            }
            if nodes@[w] == root_item(c) {
                lemma_nodes_unique(nodes@, w, r0 as int);
                assert(kernel0@[0] == w as usize);
            }
        }
        lemma_kernel_closure(nodes@, adj_view(&adj), kernel0@, first@, |y: ContextualProduction| y == root_item(c));
    }
    let mut states: Vec<Vec<bool>> = vec![first];
    let mut transitions: Vec<Vec<(String, usize)>> = Vec::new();
    let ghost g = adj_view(&adj);
    let mut i: usize = 0;
    // Each pass handles one state; a vector holds at most usize::MAX states.
    while i < states.len()
        invariant
            m == model(nts@),
            g == adj_view(&adj),
            lr_ready(nts@, names@, c),
            nodes_ok(m, c, nodes@),
            adj@.len() == nodes@.len(),
            closed_graph(g),
            forall|u: int, v: int| 0 <= u < nodes@.len() && 0 <= v < nodes@.len() ==> (#[trigger] edge(g, u, v)
                <==> item_edge(m, views(names@), c, nodes@[u], nodes@[v])),
            states@.len() >= 1,
            nodes_len == nodes@.len(),
            i <= states@.len(),
            transitions@.len() == i,
            forall|s: int| 0 <= s < states@.len() ==> (#[trigger] states@[s])@.len() == nodes@.len(),
            is_closure(nodes@, g, states@[0]@, |y: ContextualProduction| y == root_item(c)),
            forall|s: int, e: int| 0 <= s < i && 0 <= e < transitions@[s]@.len() ==> transitions@[s]@[e].1 < states@.len()
                && is_closure(nodes@, g, states@[#[trigger] transitions@[s]@[e].1 as int]@,
                    goto_items(m, c, nodes@, states@[s]@, transitions@[s]@[e].0@)),
            forall|s: int| 0 <= s < i ==> #[trigger] trans_syms(transitions@[s]@).no_duplicates(),
            forall|s: int| 0 <= s < i ==> #[trigger] trans_syms(transitions@[s]@)
                == next_names(m, c, nodes@, states@[s]@, nodes@.len() as int),
            forall|t: int| 1 <= t < states@.len() ==> #[trigger] discovered(transitions@, t),
            forall|s: int, t: Seq<char>| 0 <= s < i ==> (#[trigger] trans_syms(transitions@[s]@).contains(t)
                <==> exists|v: int| 0 <= v < nodes@.len() && states@[s]@[v] && next_is(m, c, #[trigger] nodes@[v], t)),
            forall|s1: int, s2: int| 0 <= s1 < s2 < states@.len() ==> states@[s1]@ != states@[s2]@,
        decreases usize::MAX - i,
    {
        let syms_here = state_symbols(nts, c, &nodes, &states[i]);
        let ghost st_i = states@[i as int]@;
        let ghost states_start = states@;
        let mut trans: Vec<(String, usize)> = Vec::new();
        let mut e: usize = 0;
        while e < syms_here.len()
            invariant
                m == model(nts@),
                g == adj_view(&adj),
                lr_ready(nts@, names@, c),
                nodes_ok(m, c, nodes@),
                adj@.len() == nodes@.len(),
                closed_graph(g),
                states@.len() >= 1,
                i < states@.len(),
                transitions@.len() == i,
                forall|s: int| 0 <= s < states@.len() ==> (#[trigger] states@[s])@.len() == nodes@.len(),
                is_closure(nodes@, g, states@[0]@, |y: ContextualProduction| y == root_item(c)),
                forall|s: int, f: int| 0 <= s < i && 0 <= f < transitions@[s]@.len() ==> transitions@[s]@[f].1 < states@.len()
                    && is_closure(nodes@, g, states@[#[trigger] transitions@[s]@[f].1 as int]@,
                        goto_items(m, c, nodes@, states@[s]@, transitions@[s]@[f].0@)),
                forall|f: int| 0 <= f < trans@.len() ==> trans@[f].1 < states@.len()
                    && is_closure(nodes@, g, states@[#[trigger] trans@[f].1 as int]@, goto_items(m, c, nodes@, states@[i as int]@, trans@[f].0@)),
                e <= syms_here@.len(),
                nodes_len == nodes@.len(),
                states@[i as int]@ == st_i,
                states@.len() >= states_start.len(),
                forall|s: int| 0 <= s < states_start.len() ==> #[trigger] states@[s] == states_start[s],
                forall|t: Seq<char>| #[trigger] views(syms_here@).contains(t) <==> exists|v: int| 0 <= v < nodes@.len() && st_i[v]
                    && next_is(m, c, #[trigger] nodes@[v], t),
                trans_syms(trans@) == views(syms_here@).take(e as int),
                views(syms_here@) == next_names(m, c, nodes@, st_i, nodes@.len() as int),
                forall|s: int| 0 <= s < i ==> #[trigger] trans_syms(transitions@[s]@)
                    == next_names(m, c, nodes@, states@[s]@, nodes@.len() as int),
                forall|t: int| 1 <= t < states_start.len() ==> #[trigger] discovered(transitions@, t),
                forall|s: int, f: int| 0 <= s < i && 0 <= f < transitions@[s]@.len() ==> (#[trigger] transitions@[s]@[f]).1 < states_start.len(),
                forall|t: int| states_start.len() <= t < states@.len() ==> #[trigger] first_found(trans@, t),
                states_start.len() > i,
                forall|s1: int, s2: int| 0 <= s1 < s2 < states@.len() ==> states@[s1]@ != states@[s2]@,
            decreases syms_here@.len() - e,
        {
            let ghost states0 = states@;
            let k = goto(nts, c, &nodes, &states[i], &syms_here[e]);
            let st = closure(&adj, &k);
            proof {
                lemma_kernel_closure(nodes@, g, k@, st@, goto_items(m, c, nodes@, states@[i as int]@, syms_here@[e as int]@));
            }
            let target = if !can_append_to_set(&states, &st) {
                match find_closure_index(&states, &st) {
                    Some(t) => t,
                    None => 0,
                }
            } else {
                {
                    states.push(st);
                    proof {
                        assert(states@[states0.len() as int] == st);
                        assert forall|s1: int, s2: int| 0 <= s1 < s2 < states@.len() implies states@[s1]@ != states@[s2]@ by {
                            if s2 < states0.len() {
                                assert(states@[s1] == states0[s1] && states@[s2] == states0[s2]);
                            } else {
                                assert(states@[s1] == states0[s1]);
                            }
                        }
                        assert forall|s: int| 0 <= s < states@.len() implies (#[trigger] states@[s])@.len() == nodes@.len() by {
                            if s < states0.len() {
                                assert(states@[s] == states0[s]);
                            }
                        }
                    }
                    states.len() - 1
                }
            };
            let ghost trans0 = trans@;
            let sym_e = syms_here[e].clone();
            trans.push((sym_e, target));
            proof {
                assert forall|t: int| states_start.len() <= t < states@.len() implies #[trigger] first_found(trans@, t) by {
                    if t < states0.len() {
                        assert(first_found(trans0, t));
                        let f = choose|f: int| #![trigger trans0[f]] 0 <= f < trans0.len() && trans0[f].1 == t
                            && forall|f2: int| 0 <= f2 < f ==> (#[trigger] trans0[f2]).1 < t;
                        assert(trans@[f] == trans0[f]);
                        assert forall|f2: int| 0 <= f2 < f implies (#[trigger] trans@[f2]).1 < t by {
                            assert(trans@[f2] == trans0[f2]);
                        }
                    } else {
                        assert(t == target);
                        assert(trans@[trans0.len() as int].1 == t);
                        assert forall|f2: int| 0 <= f2 < trans0.len() implies (#[trigger] trans@[f2]).1 < t by {
                            assert(trans@[f2] == trans0[f2]);
                        }
                    }
                }
                assert(trans_syms(trans0).len() == trans0.len());
                assert(trans0.len() == e);
                assert(trans@[e as int] == (sym_e, target));
                assert(states@[i as int] == states0[i as int]);
                assert(states@[0] == states0[0]);
                assert(states@[target as int]@ == st@);
                assert forall|s: int, f: int| 0 <= s < i && 0 <= f < transitions@[s]@.len() implies transitions@[s]@[f].1 < states@.len()
                    && is_closure(nodes@, g, states@[#[trigger] transitions@[s]@[f].1 as int]@,
                        goto_items(m, c, nodes@, states@[s]@, transitions@[s]@[f].0@)) by {
                    assert(states@[transitions@[s]@[f].1 as int] == states0[transitions@[s]@[f].1 as int]);
                    assert(states@[s] == states0[s]);
                }
                assert forall|f: int| 0 <= f < trans@.len() implies trans@[f].1 < states@.len()
                    && is_closure(nodes@, g, states@[#[trigger] trans@[f].1 as int]@, goto_items(m, c, nodes@, states@[i as int]@, trans@[f].0@)) by {
                    if f < trans0.len() {
                        assert(trans@[f] == trans0[f]);
                        assert(states@[trans0[f].1 as int] == states0[trans0[f].1 as int]);
                    }
                }
                assert(trans@[e as int].0@ == syms_here@[e as int]@);
                assert(trans_syms(trans@) =~= views(syms_here@).take(e + 1));
            }
            e = e + 1;
        }
        proof {
            assert(views(syms_here@).take(e as int) =~= views(syms_here@));
        }
        let ghost transitions0 = transitions@;
        transitions.push(trans);
        proof {
            assert(trans_syms(transitions@[i as int]@) == next_names(m, c, nodes@, states@[i as int]@, nodes@.len() as int));
            assert forall|s: int| 0 <= s < i + 1 implies #[trigger] trans_syms(transitions@[s]@)
                == next_names(m, c, nodes@, states@[s]@, nodes@.len() as int) by {
                if s < i {
                    assert(transitions@[s] == transitions0[s]);
                    assert(states@[s] == states_start[s]);
                }
            }
            assert forall|t: int| 1 <= t < states@.len() implies #[trigger] discovered(transitions@, t) by {
                if t < states_start.len() {
                    assert(discovered(transitions0, t));
                    let (s0, e0) = choose|s0: int, e0: int| #![trigger transitions0[s0]@[e0]] 0 <= s0 < t && s0 < transitions0.len()
                        && 0 <= e0 < transitions0[s0]@.len() && transitions0[s0]@[e0].1 == t
                        && forall|s2: int, e2: int| 0 <= s2 < transitions0.len() && 0 <= e2 < transitions0[s2]@.len()
                            && crate::ll_processing::comes_before(s2, e2, s0, e0) ==> (#[trigger] transitions0[s2]@[e2]).1 < t;
                    assert(transitions@[s0] == transitions0[s0]);
                    assert forall|s2: int, e2: int| 0 <= s2 < transitions@.len() && 0 <= e2 < transitions@[s2]@.len()
                        && crate::ll_processing::comes_before(s2, e2, s0, e0) implies (#[trigger] transitions@[s2]@[e2]).1 < t by {
                        assert(transitions@[s2] == transitions0[s2]);
                    }
                    assert(transitions@[s0]@[e0].1 == t);
                } else {
                    assert(first_found(trans@, t));
                    let f = choose|f: int| #![trigger trans@[f]] 0 <= f < trans@.len() && trans@[f].1 == t
                        && forall|f2: int| 0 <= f2 < f ==> (#[trigger] trans@[f2]).1 < t;
                    assert(transitions@[i as int] == trans);
                    assert forall|s2: int, e2: int| 0 <= s2 < transitions@.len() && 0 <= e2 < transitions@[s2]@.len()
                        && crate::ll_processing::comes_before(s2, e2, i as int, f) implies (#[trigger] transitions@[s2]@[e2]).1 < t by {
                        if s2 < i {
                            assert(transitions@[s2] == transitions0[s2]);
                        }
                    }
                    assert(transitions@[i as int]@[f].1 == t);
                }
            }
            assert forall|s: int, t: Seq<char>| 0 <= s < i + 1 implies (#[trigger] trans_syms(transitions@[s]@).contains(t)
                <==> exists|v: int| 0 <= v < nodes@.len() && states@[s]@[v] && next_is(m, c, #[trigger] nodes@[v], t)) by {
                if s == i {
                    assert(transitions@[s] == trans);
                    assert(trans_syms(transitions@[s]@) == views(syms_here@));
                    assert(states@[s]@ == st_i);
                    if views(syms_here@).contains(t) {
                        let v = choose|v: int| 0 <= v < nodes@.len() && st_i[v] && next_is(m, c, #[trigger] nodes@[v], t);
                        assert(states@[s]@[v]);
                    }
                    if exists|v: int| 0 <= v < nodes@.len() && states@[s]@[v] && next_is(m, c, #[trigger] nodes@[v], t) {
                        let v = choose|v: int| 0 <= v < nodes@.len() && states@[s]@[v] && next_is(m, c, #[trigger] nodes@[v], t);
                        assert(st_i[v]);
                    }
                } else {
                    assert(transitions@[s] == transitions0[s]);
                    assert(states@[s] == states_start[s]);
                }
            }
        }
        i = i + 1;
    }
    Automaton { config: c, names, nodes, adj, states, transitions }
}

/// An entry of the action table.
#[derive(Debug)]
pub enum Action {
    Accept,
    Shift(u64),
    /// Reduce by a production: its symbols and the non-terminal it defines.
    Reduce(Vec<Token>, String),
}

/// An action as the contracts see it.
pub enum ActionModel {
    Accept,
    Shift(int),
    Reduce(Seq<Sym>, Seq<char>),
}

pub open spec fn action_model(a: Action) -> ActionModel {
    match a {
        Action::Accept => ActionModel::Accept,
        Action::Shift(i) => ActionModel::Shift(i as int),
        Action::Reduce(w, n) => ActionModel::Reduce(syms(w@), n@),
    }
}

pub open spec fn action_models(v: Seq<Action>) -> Seq<ActionModel> {
    v.map_values(|a: Action| action_model(a))
}

impl Clone for Action {
    fn clone(&self) -> (r: Self)
        ensures
            action_model(r) == action_model(*self),
    {
        match self {
            Action::Accept => Action::Accept,
            Action::Shift(i) => Action::Shift(*i),
            Action::Reduce(w, n) => {
                let w2 = w.clone();
                proof {
                    assert(syms(w2@) =~= syms(w@));
                }
                Action::Reduce(w2, n.clone())
            },
        }
    }
}

/// A row of the table: actions shared by every lookahead (LR(0) reductions),
/// actions by terminal, and the state reached on each non-terminal.
#[derive(Debug)]
pub struct State {
    pub common_actions: Vec<Action>,
    pub actions: Vec<(String, Vec<Action>)>,
    pub nt_state_transitions: Vec<(String, u64)>,
}

impl State {
    pub fn new() -> (r: State)
        ensures
            r.common_actions@.len() == 0,
            r.actions@.len() == 0,
            r.nt_state_transitions@.len() == 0,
    {
        State { common_actions: Vec::new(), actions: Vec::new(), nt_state_transitions: Vec::new() }
    }
}

/// The action/goto table: one row per state, state 0 first, and the
/// terminals and non-terminals that the rows name.
#[derive(Debug)]
pub struct StateTable {
    pub states: Vec<State>,
    pub seen_terms: Vec<String>,
    pub seen_non_terms: Vec<String>,
}

impl StateTable {
    pub fn new() -> (r: StateTable)
        ensures
            r.states@.len() == 0,
            r.seen_terms@.len() == 0,
            r.seen_non_terms@.len() == 0,
    {
        StateTable { states: Vec::new(), seen_terms: Vec::new(), seen_non_terms: Vec::new() }
    }
}

pub open spec fn keys(acts: Seq<(String, Vec<Action>)>) -> Seq<Seq<char>> {
    acts.map_values(|p: (String, Vec<Action>)| p.0@)
}

/// The actions listed under terminal `t`, none if `t` has no entry.
pub open spec fn lookup(acts: Seq<(String, Vec<Action>)>, t: Seq<char>) -> Seq<ActionModel> {
    if keys(acts).contains(t) {
        action_models(acts[keys(acts).index_of(t)].1@)
    } else {
        Seq::empty()
    }
}

/// ContextualProduction `x` is complete: its dot is at the end.
pub open spec fn complete(m: Seq<Rule>, c: LrConfig, x: ContextualProduction) -> bool {
    x.dot == item_body(m, c, x).len()
}

/// The action that a complete item asks for under its lookahead.
pub open spec fn reduce_model(m: Seq<Rule>, c: LrConfig, x: ContextualProduction) -> ActionModel {
    if x.lhs == c.n {
        ActionModel::Accept
    } else {
        ActionModel::Reduce(item_body(m, c, x), m[x.lhs as int].0)
    }
}

/// Complete item `x` acts under terminal `t`: for LR(1) when `t` is its
/// lookahead; for LR(0) only the start item does, under `EOF`.
pub open spec fn acts_under(m: Seq<Rule>, names: Seq<Seq<char>>, c: LrConfig, x: ContextualProduction, t: Seq<char>) -> bool {
    complete(m, c, x) && if c.k0 { x.lhs == c.n && t == "EOF"@ } else { names[x.la as int] == t }
}

/// The actions of the complete items among the first `k` items of state
/// `st` under terminal `t`, in item order.
pub open spec fn reduces_upto(m: Seq<Rule>, a: Automaton, st: Seq<bool>, t: Seq<char>, k: int) -> Seq<ActionModel>
    decreases k,
{
    if k <= 0 {
        Seq::empty()
    } else {
        let x = a.nodes@[k - 1];
        reduces_upto(m, a, st, t, k - 1) + if st[k - 1] && acts_under(m, views(a.names@), a.config, x, t) {
            seq![reduce_model(m, a.config, x)]
        } else {
            Seq::empty()
        }
    }
}

/// The shifts among the first `k` transitions `tr` under terminal `t`.
pub open spec fn shifts_upto(m: Seq<Rule>, tr: Seq<(String, usize)>, t: Seq<char>, k: int) -> Seq<ActionModel>
    decreases k,
{
    if k <= 0 {
        Seq::empty()
    } else {
        shifts_upto(m, tr, t, k - 1) + if tr[k - 1].0@ == t && !is_nt(m, t) {
            seq![ActionModel::Shift(tr[k - 1].1 as int)]
        } else {
            Seq::empty()
        }
    }
}

/// The LR(0) reductions shared by every lookahead, in item order.
pub open spec fn common_upto(m: Seq<Rule>, a: Automaton, st: Seq<bool>, k: int) -> Seq<ActionModel>
    decreases k,
{
    if k <= 0 {
        Seq::empty()
    } else {
        let x = a.nodes@[k - 1];
        common_upto(m, a, st, k - 1) + if a.config.k0 && st[k - 1] && complete(m, a.config, x) && x.lhs < a.config.n {
            seq![reduce_model(m, a.config, x)]
        } else {
            Seq::empty()
        }
    }
}

/// The transitions on non-terminals, as name and target.
pub open spec fn gotos_upto(m: Seq<Rule>, tr: Seq<(String, usize)>, k: int) -> Seq<(Seq<char>, int)>
    decreases k,
{
    if k <= 0 {
        Seq::empty()
    } else {
        gotos_upto(m, tr, k - 1) + if is_nt(m, tr[k - 1].0@) {
            seq![(tr[k - 1].0@, tr[k - 1].1 as int)]
        } else {
            Seq::empty()
        }
    }
}

/// Row `row` is state `s` of automaton `a`: under each terminal, the
/// reductions (or the accept) of its complete items, then its shifts; the
/// LR(0) reductions apart; the gotos on non-terminals.
pub open spec fn row_of(m: Seq<Rule>, a: Automaton, s: int, row: State) -> bool {
    let st = a.states@[s]@;
    let tr = a.transitions@[s]@;
    &&& keys(row.actions@).no_duplicates()
    &&& forall|t: Seq<char>| #[trigger] lookup(row.actions@, t)
        == reduces_upto(m, a, st, t, a.nodes@.len() as int) + shifts_upto(m, tr, t, tr.len() as int)
    &&& forall|j: int| 0 <= j < row.actions@.len() ==> (#[trigger] row.actions@[j]).1@.len() > 0
    &&& action_models(row.common_actions@) == common_upto(m, a, st, a.nodes@.len() as int)
    &&& row.nt_state_transitions@.map_values(|p: (String, u64)| (p.0@, p.1 as int)) == gotos_upto(m, tr, tr.len() as int)
}

proof fn lemma_index_of_unique(v: Seq<Seq<char>>, i: int)
    requires
        v.no_duplicates(),
        0 <= i < v.len(),
    ensures
        v.index_of(v[i]) == i,
{
    assert(v.contains(v[i]));
    let j = v.index_of(v[i]);
    assert(0 <= j < v.len() && v[j] == v[i]);
}

/// Appends action `act` to the list under `key`, making the entry if needed.
fn add_action(acts: &mut Vec<(String, Vec<Action>)>, key: &String, act: Action)
    requires
        keys(old(acts)@).no_duplicates(),
        forall|j: int| 0 <= j < old(acts)@.len() ==> (#[trigger] old(acts)@[j]).1@.len() > 0,
    ensures
        keys(final(acts)@).no_duplicates(),
        forall|j: int| 0 <= j < final(acts)@.len() ==> (#[trigger] final(acts)@[j]).1@.len() > 0,
        forall|t: Seq<char>| #[trigger] lookup(final(acts)@, t) == lookup(old(acts)@, t) + if t == key@ {
            seq![action_model(act)]
        } else {
            Seq::empty()
        },
{
    let ghost acts0 = acts@;
    let mut j: usize = 0;
    let mut found = false;
    while j < acts.len() && !found
        invariant
            acts@ == acts0,
            j <= acts@.len(),
            found ==> j < acts@.len() && acts@[j as int].0@ == key@,
            forall|k: int| 0 <= k < j ==> acts@[k].0@ != key@,
        decreases acts@.len() - j + if found { 0int } else { 1int },
    {
        if acts[j].0 == *key {
            found = true;
        } else {
            j = j + 1;
        }
    }
    if found {
        assert(acts@[j as int].0@ == key@);
        let mut entry: (String, Vec<Action>) = (String::new(), Vec::new());
        acts.set_and_swap(j, &mut entry);
        let ghost list0 = entry.1@;
        entry.1.push(act);
        acts.set_and_swap(j, &mut entry);
        proof {
            assert(keys(acts@) =~= keys(acts0));
            lemma_index_of_unique(keys(acts0), j as int);
            assert(action_models(acts@[j as int].1@) =~= action_models(list0) + seq![action_model(act)]);
            assert forall|t: Seq<char>| #[trigger] lookup(acts@, t) == lookup(acts0, t) + if t == key@ {
                seq![action_model(act)]
            } else {
                Seq::empty()
            } by {
                if keys(acts0).contains(t) {
                    let i = keys(acts0).index_of(t);
                    if t != key@ {
                        assert(i != j);
                        assert(acts@[i] == acts0[i]);
                    }
                    assert(lookup(acts0, t) + Seq::<ActionModel>::empty() =~= lookup(acts0, t));
                } else {
                    assert(keys(acts0)[j as int] == key@);
                }
            }
        }
    } else {
        let ghost before = acts@;
        let mut list: Vec<Action> = Vec::new();
        list.push(act);
        acts.push((key.clone(), list));
        proof {
            assert(keys(acts@) =~= keys(acts0).push(key@));
            assert(!keys(acts0).contains(key@)) by {
                if keys(acts0).contains(key@) {
                    let i = keys(acts0).index_of(key@);
                    assert(acts0[i].0@ == key@);
                }
            }
            assert forall|t: Seq<char>| #[trigger] lookup(acts@, t) == lookup(acts0, t) + if t == key@ {
                seq![action_model(act)]
            } else {
                Seq::empty()
            } by {
                if t == key@ {
                    lemma_index_of_unique(keys(acts@), acts0.len() as int);
                    assert(action_models(acts@[acts0.len() as int].1@) =~= seq![action_model(act)]);
                    assert(Seq::<ActionModel>::empty() + seq![action_model(act)] =~= seq![action_model(act)]);
                } else {
                    if keys(acts0).contains(t) {
                        let i = keys(acts0).index_of(t);
                        assert(keys(acts@)[i] == t);
                        lemma_index_of_unique(keys(acts@), i);
                        assert(acts@[i] == acts0[i]);
                    } else {
                        assert(!keys(acts@).contains(t)) by {
                            if keys(acts@).contains(t) {
                                let i = keys(acts@).index_of(t);
                                assert(keys(acts0)[i] == t);
                            }
                        }
                    }
                    assert(lookup(acts0, t) + Seq::<ActionModel>::empty() =~= lookup(acts0, t));
                }
            }
            assert forall|k: int| 0 <= k < acts@.len() implies (#[trigger] acts@[k]).1@.len() > 0 by {
                if k < acts0.len() {
                    assert(acts@[k] == acts0[k]);
                }
            }
        }
    }
}

/// The action that complete item `x` asks for.
fn reduce_action(nts: &Vec<NonTerminal>, c: LrConfig, x: ContextualProduction) -> (r: Action)
    requires
        config_ok(model(nts@), c),
        valid_item(model(nts@), c, x),
    ensures
        action_model(r) == reduce_model(model(nts@), c, x),
{
    let ghost m = model(nts@);
    if x.lhs == c.n {
        Action::Accept
    } else {
        let list = &nts[x.lhs].productions[x.prod].list;
        let w = list.clone();
        proof {
            assert(syms(w@) =~= syms(list@));
            assert(syms(list@) == m[x.lhs as int].2[x.prod as int]);
            assert(m[x.lhs as int].0 == nts@[x.lhs as int].name@);
        }
        Action::Reduce(w, nts[x.lhs].name.clone())
    }
}

/// Whether item `x` is complete.
fn is_complete(nts: &Vec<NonTerminal>, c: LrConfig, x: ContextualProduction) -> (r: bool)
    requires
        config_ok(model(nts@), c),
        valid_item(model(nts@), c, x),
    ensures
        r == complete(model(nts@), c, x),
{
    let ghost m = model(nts@);
    if x.lhs == c.n {
        x.dot == 1
    } else {
        let list = &nts[x.lhs].productions[x.prod].list;
        assert(syms(list@) == m[x.lhs as int].2[x.prod as int]);
        x.dot == list.len()
    }
}

/// Row `s` of the table of automaton `a`.
fn table_row(nts: &Vec<NonTerminal>, a: &Automaton, s: usize) -> (row: State)
    requires
        automaton_ok(nts@, *a),
        s < a.states@.len(),
    ensures
        row_of(model(nts@), *a, s as int, row),
{
    let ghost m = model(nts@);
    let c = a.config;
    let st = &a.states[s];
    let tr = &a.transitions[s];
    let nodes = &a.nodes;
    let eof = String::from_str("EOF");
    let mut actions: Vec<(String, Vec<Action>)> = Vec::new();
    let mut common: Vec<Action> = Vec::new();
    let mut v: usize = 0;
    assert(keys(actions@) =~= Seq::<Seq<char>>::empty());
    while v < nodes.len()
        invariant
            m == model(nts@),
            automaton_ok(nts@, *a),
            c == a.config,
            s < a.states@.len(),
            st == a.states@[s as int],
            nodes == a.nodes,
            st@.len() == nodes@.len(),
            eof@ == "EOF"@,
            v <= nodes@.len(),
            keys(actions@).no_duplicates(),
            forall|j: int| 0 <= j < actions@.len() ==> (#[trigger] actions@[j]).1@.len() > 0,
            forall|t: Seq<char>| #[trigger] lookup(actions@, t) == reduces_upto(m, *a, st@, t, v as int),
            action_models(common@) == common_upto(m, *a, st@, v as int),
        decreases nodes@.len() - v,
    {
        let x = nodes[v];
        assert(nodes@.contains(x));
        let ghost common0 = common@;
        if st[v] && is_complete(nts, c, x) {
            let act = reduce_action(nts, c, x);
            if c.k0 {
                if x.lhs == c.n {
                    add_action(&mut actions, &eof, act);
                } else {
                    common.push(act);
                }
            } else {
                add_action(&mut actions, &a.names[x.la], act);
            }
        }
        proof {
            assert(nodes@[v as int] == x);
            assert forall|t: Seq<char>| #[trigger] lookup(actions@, t) == reduces_upto(m, *a, st@, t, v + 1) by {
                assert(reduces_upto(m, *a, st@, t, v + 1) == reduces_upto(m, *a, st@, t, v as int) + if st@[v as int]
                    && acts_under(m, views(a.names@), c, x, t) {
                    seq![reduce_model(m, c, x)]
                } else {
                    Seq::<ActionModel>::empty()
                });
                if !c.k0 {
                    assert(views(a.names@)[x.la as int] == a.names@[x.la as int]@);
                }
                if !(st@[v as int] && acts_under(m, views(a.names@), c, x, t)) {
                    assert(reduces_upto(m, *a, st@, t, v as int) + Seq::<ActionModel>::empty() =~= reduces_upto(m, *a, st@, t, v as int));
                }
            }
            assert(common_upto(m, *a, st@, v + 1) == common_upto(m, *a, st@, v as int) + if c.k0 && st@[v as int]
                && complete(m, c, x) && x.lhs < c.n {
                seq![reduce_model(m, c, x)]
            } else {
                Seq::<ActionModel>::empty()
            });
            if c.k0 && st@[v as int] && complete(m, c, x) && x.lhs < c.n {
                assert(action_models(common@) =~= action_models(common0) + seq![reduce_model(m, c, x)]);
            } else {
                assert(common@ == common0);
                assert(common_upto(m, *a, st@, v as int) + Seq::<ActionModel>::empty() =~= common_upto(m, *a, st@, v as int));
            }
        }
        v = v + 1;
    }
    let mut gotos: Vec<(String, u64)> = Vec::new();
    let mut e: usize = 0;
    assert(gotos@.map_values(|p: (String, u64)| (p.0@, p.1 as int)) =~= gotos_upto(m, tr@, 0));
    while e < tr.len()
        invariant
            m == model(nts@),
            automaton_ok(nts@, *a),
            c == a.config,
            s < a.states@.len(),
            st == a.states@[s as int],
            tr == a.transitions@[s as int],
            nodes == a.nodes,
            e <= tr@.len(),
            keys(actions@).no_duplicates(),
            forall|j: int| 0 <= j < actions@.len() ==> (#[trigger] actions@[j]).1@.len() > 0,
            forall|t: Seq<char>| #[trigger] lookup(actions@, t)
                == reduces_upto(m, *a, st@, t, nodes@.len() as int) + shifts_upto(m, tr@, t, e as int),
            action_models(common@) == common_upto(m, *a, st@, nodes@.len() as int),
            gotos@.map_values(|p: (String, u64)| (p.0@, p.1 as int)) == gotos_upto(m, tr@, e as int),
        decreases tr@.len() - e,
    {
        let name = &tr[e].0;
        let target = tr[e].1;
        let ghost gotos0 = gotos@;
        match find_non_terminal(nts, name) {
            Some(_) => {
                gotos.push((name.clone(), target as u64));
                proof {
                    assert(is_nt(m, tr@[e as int].0@)) by {
                        let i = choose|i: int| 0 <= i < nts@.len() && nts@[i].name@ == name@;
                        assert(m[i].0 == nts@[i].name@);
                    }
                    assert(gotos@.map_values(|p: (String, u64)| (p.0@, p.1 as int)) =~= gotos_upto(m, tr@, e + 1));
                }
            },
            None => {
                add_action(&mut actions, name, Action::Shift(target as u64));
                proof {
                    assert(gotos_upto(m, tr@, e + 1) =~= gotos_upto(m, tr@, e as int));
                }
            },
        }
        proof {
            assert forall|t: Seq<char>| #[trigger] lookup(actions@, t)
                == reduces_upto(m, *a, st@, t, nodes@.len() as int) + shifts_upto(m, tr@, t, e + 1) by {
                let r = reduces_upto(m, *a, st@, t, nodes@.len() as int);
                if tr@[e as int].0@ == t && !is_nt(m, t) {
                    assert(shifts_upto(m, tr@, t, e + 1) == shifts_upto(m, tr@, t, e as int) + seq![ActionModel::Shift(target as int)]);
                    assert(r + shifts_upto(m, tr@, t, e + 1) =~= (r + shifts_upto(m, tr@, t, e as int)) + seq![ActionModel::Shift(target as int)]);
                } else {
                    assert(shifts_upto(m, tr@, t, e + 1) =~= shifts_upto(m, tr@, t, e as int));
                    if is_nt(m, tr@[e as int].0@) {
                    } else {
                        assert(lookup(actions@, t) =~= lookup(actions@, t));
                    }
                    assert(lookup(actions@, t) + Seq::<ActionModel>::empty() =~= lookup(actions@, t));
                }
            }
        }
        e = e + 1;
    }
    proof {
        assert forall|t: Seq<char>| #[trigger] lookup(actions@, t)
            == reduces_upto(m, *a, st@, t, a.nodes@.len() as int) + shifts_upto(m, tr@, t, tr@.len() as int) by {}
    }
    let mut row = State::new();
    row.common_actions = common;
    row.actions = actions;
    row.nt_state_transitions = gotos;
    row
}

/// Table `t` is the table of automaton `a`: one row per state, and the
/// terminals and non-terminals that its rows name, each once.
pub open spec fn table_of(m: Seq<Rule>, a: Automaton, t: StateTable) -> bool {
    &&& t.states@.len() == a.states@.len()
    &&& forall|s: int| 0 <= s < t.states@.len() ==> row_of(m, a, s, #[trigger] t.states@[s])
    &&& sorted(t.seen_terms@)
    &&& forall|x: Seq<char>| #[trigger] strings(t.seen_terms@).contains(x) <==> exists|s: int| 0 <= s < t.states@.len()
        && #[trigger] keys(t.states@[s].actions@).contains(x)
    &&& sorted(t.seen_non_terms@)
    &&& forall|x: Seq<char>| #[trigger] strings(t.seen_non_terms@).contains(x) <==> exists|s: int, j: int| 0 <= s < t.states@.len()
        && 0 <= j < t.states@[s].nt_state_transitions@.len() && (#[trigger] t.states@[s].nt_state_transitions@[j]).0@ == x
}

/// Builds the action/goto table of an analysed grammar, LR(0) when `is_k0`,
/// else LR(1). Conflicts stay in the table as lists of several actions.
pub fn lr_process(nts: &Vec<NonTerminal>, is_k0: bool) -> (table: StateTable)
    requires
        well_formed(model(nts@)),
        nullable_known(nts@),
        first_known(nts@),
        !is_nt(model(nts@), "EOF"@),
        exists|i: int| 0 <= i < nts@.len() && #[trigger] nts@[i].is_start_term,
    ensures
        exists|a: Automaton| automaton_ok(nts@, a) && a.config.k0 == is_k0 && table_of(model(nts@), a, table),
{
    let ghost m = model(nts@);
    let a = fill_out_automaton(nts, is_k0);
    let mut rows: Vec<State> = Vec::new();
    let mut seen_terms: Vec<String> = Vec::new();
    let mut seen_non_terms: Vec<String> = Vec::new();
    let mut s: usize = 0;
    while s < a.states.len()
        invariant
            m == model(nts@),
            automaton_ok(nts@, a),
            a.config.k0 == is_k0,
            s <= a.states@.len(),
            rows@.len() == s,
            forall|r: int| 0 <= r < s ==> row_of(m, a, r, #[trigger] rows@[r]),
            sorted(seen_terms@),
            forall|x: Seq<char>| #[trigger] strings(seen_terms@).contains(x) <==> exists|r: int| 0 <= r < s
                && #[trigger] keys(rows@[r].actions@).contains(x),
            sorted(seen_non_terms@),
            forall|x: Seq<char>| #[trigger] strings(seen_non_terms@).contains(x) <==> exists|r: int, j: int| 0 <= r < s
                && 0 <= j < rows@[r].nt_state_transitions@.len() && (#[trigger] rows@[r].nt_state_transitions@[j]).0@ == x,
        decreases a.states@.len() - s,
    {
        let row = table_row(nts, &a, s);
        let ghost rows0 = rows@;
        let mut k: usize = 0;
        let ghost terms0 = strings(seen_terms@);
        let ghost nts0 = strings(seen_non_terms@);
        while k < row.actions.len()
            invariant
                rows@ == rows0,
                rows0.len() == s,
                strings(seen_non_terms@) == nts0,
                forall|x: Seq<char>| #[trigger] terms0.contains(x) <==> exists|r: int| 0 <= r < s
                    && #[trigger] keys(rows0[r].actions@).contains(x),
                forall|x: Seq<char>| #[trigger] nts0.contains(x) <==> exists|r: int, j: int| 0 <= r < s
                    && 0 <= j < rows0[r].nt_state_transitions@.len() && (#[trigger] rows0[r].nt_state_transitions@[j]).0@ == x,
                sorted(seen_non_terms@),
                k <= row.actions@.len(),
                sorted(seen_terms@),
                forall|x: Seq<char>| #[trigger] strings(seen_terms@).contains(x) <==> terms0.contains(x)
                    || exists|j: int| 0 <= j < k && row.actions@[j].0@ == x,
            decreases row.actions@.len() - k,
        {
            let ghost before = strings(seen_terms@);
            insert_sorted(&mut seen_terms, &row.actions[k].0);

            k = k + 1;
        }
        let mut k: usize = 0;
        let ghost terms1 = strings(seen_terms@);
        while k < row.nt_state_transitions.len()
            invariant
                rows@ == rows0,
                rows0.len() == s,
                strings(seen_terms@) == terms1,
                sorted(seen_terms@),
                forall|x: Seq<char>| #[trigger] terms1.contains(x) <==> terms0.contains(x)
                    || exists|j: int| 0 <= j < row.actions@.len() && row.actions@[j].0@ == x,
                forall|x: Seq<char>| #[trigger] terms0.contains(x) <==> exists|r: int| 0 <= r < s
                    && #[trigger] keys(rows0[r].actions@).contains(x),
                forall|x: Seq<char>| #[trigger] nts0.contains(x) <==> exists|r: int, j: int| 0 <= r < s
                    && 0 <= j < rows0[r].nt_state_transitions@.len() && (#[trigger] rows0[r].nt_state_transitions@[j]).0@ == x,
                k <= row.nt_state_transitions@.len(),
                sorted(seen_non_terms@),
                forall|x: Seq<char>| #[trigger] strings(seen_non_terms@).contains(x) <==> nts0.contains(x)
                    || exists|j: int| 0 <= j < k && row.nt_state_transitions@[j].0@ == x,
            decreases row.nt_state_transitions@.len() - k,
        {
            let ghost before = strings(seen_non_terms@);
            insert_sorted(&mut seen_non_terms, &row.nt_state_transitions[k].0);

            k = k + 1;
        }
        rows.push(row);
        proof {
            assert forall|r: int| 0 <= r < s + 1 implies row_of(m, a, r, #[trigger] rows@[r]) by {
                if r < s {
                    assert(rows@[r] == rows0[r]);
                }
            }
            assert forall|x: Seq<char>| #[trigger] strings(seen_terms@).contains(x) <==> exists|r: int| 0 <= r < s + 1
                && #[trigger] keys(rows@[r].actions@).contains(x) by {
                if strings(seen_terms@).contains(x) {
                    if terms0.contains(x) {
                        let r = choose|r: int| 0 <= r < s && #[trigger] keys(rows0[r].actions@).contains(x);
                        assert(rows@[r] == rows0[r]);
                        assert(keys(rows@[r].actions@).contains(x));
                    } else {
                        let j = choose|j: int| 0 <= j < row.actions@.len() && row.actions@[j].0@ == x;
                        assert(keys(row.actions@)[j] == x);
                        assert(rows@[s as int] == row);
                        assert(keys(rows@[s as int].actions@).contains(x));
                    }
                }
                if exists|r: int| 0 <= r < s + 1 && #[trigger] keys(rows@[r].actions@).contains(x) {
                    let r = choose|r: int| 0 <= r < s + 1 && #[trigger] keys(rows@[r].actions@).contains(x);
                    if r < s {
                        assert(rows@[r] == rows0[r]);
                        assert(terms0.contains(x));
                    } else {
                        assert(rows@[r] == row);
                        let j = choose|j: int| 0 <= j < keys(row.actions@).len() && keys(row.actions@)[j] == x;
                        assert(row.actions@[j].0@ == x);
                    }
                    assert(terms1.contains(x));
                }
            }
            assert forall|x: Seq<char>| #[trigger] strings(seen_non_terms@).contains(x) <==> exists|r: int, j: int| 0 <= r < s + 1
                && 0 <= j < rows@[r].nt_state_transitions@.len() && (#[trigger] rows@[r].nt_state_transitions@[j]).0@ == x by {
                if strings(seen_non_terms@).contains(x) {
                    if nts0.contains(x) {
                        let (r, j) = choose|r: int, j: int| 0 <= r < s && 0 <= j < rows0[r].nt_state_transitions@.len()
                            && (#[trigger] rows0[r].nt_state_transitions@[j]).0@ == x;
                        assert(rows@[r] == rows0[r]);
                    } else {
                        let j = choose|j: int| 0 <= j < row.nt_state_transitions@.len() && row.nt_state_transitions@[j].0@ == x;
                        assert(rows@[s as int] == row);
                    }
                }
                if exists|r: int, j: int| 0 <= r < s + 1 && 0 <= j < rows@[r].nt_state_transitions@.len()
                    && (#[trigger] rows@[r].nt_state_transitions@[j]).0@ == x {
                    let (r, j) = choose|r: int, j: int| 0 <= r < s + 1 && 0 <= j < rows@[r].nt_state_transitions@.len()
                        && (#[trigger] rows@[r].nt_state_transitions@[j]).0@ == x;
                    if r < s {
                        assert(rows@[r] == rows0[r]);
                    } else {
                        assert(rows@[r] == row);
                    }
                }
            }
        }
        s = s + 1;
    }
    let mut table = StateTable::new();
    table.states = rows;
    table.seen_terms = seen_terms;
    table.seen_non_terms = seen_non_terms;
    assert(table_of(m, a, table));
    table
}

/// A state of the table with more than one action under a lookahead: the
/// state, the position of the lookahead in the table's terminals, the
/// lookahead, and the competing actions, those shared by every lookahead
/// first.
#[derive(Debug)]
pub struct Conflict {
    pub state: usize,
    pub entry: usize,
    pub terminal: String,
    pub actions: Vec<Action>,
}

/// Row `row` has more than one action under terminal `t`, counting those
/// shared by every lookahead.
pub open spec fn conflicted(row: State, t: Seq<char>) -> bool {
    lookup(row.actions@, t).len() + row.common_actions@.len() > 1
}

/// `c` reports terminal `c.entry` of the table in row `c.state`, which is
/// conflicted there.
pub open spec fn reports_conflict(table: StateTable, c: Conflict) -> bool {
    let row = table.states@[c.state as int];
    &&& c.state < table.states@.len()
    &&& c.entry < table.seen_terms@.len()
    &&& c.terminal@ == table.seen_terms@[c.entry as int]@
    &&& conflicted(row, c.terminal@)
    &&& action_models(c.actions@) == action_models(row.common_actions@) + lookup(row.actions@, c.terminal@)
}

/// The actions listed under `t` in `acts`.
fn entry_actions(acts: &Vec<(String, Vec<Action>)>, t: &String) -> (r: Vec<Action>)
    requires
        keys(acts@).no_duplicates(),
    ensures
        action_models(r@) == lookup(acts@, t@),
{
    let mut j: usize = 0;
    while j < acts.len()
        invariant
            keys(acts@).no_duplicates(),
            j <= acts@.len(),
            forall|k: int| 0 <= k < j ==> acts@[k].0@ != t@,
        decreases acts@.len() - j,
    {
        if acts[j].0 == *t {
            proof {
                assert(keys(acts@)[j as int] == t@);
                lemma_index_of_unique(keys(acts@), j as int);
            }
            let empty: Vec<Action> = Vec::new();
            let r = concat_actions(&empty, &acts[j].1);
            assert(action_models(empty@) =~= Seq::<ActionModel>::empty());
            assert(Seq::<ActionModel>::empty() + action_models(acts@[j as int].1@) =~= action_models(acts@[j as int].1@));
            return r;
        }
        j = j + 1;
    }
    proof {
        if keys(acts@).contains(t@) {
            let i = keys(acts@).index_of(t@);
            assert(acts@[i].0@ == t@);
        }
    }
    let r: Vec<Action> = Vec::new();
    assert(action_models(r@) =~= Seq::<ActionModel>::empty());
    r
}

fn concat_actions(a: &Vec<Action>, b: &Vec<Action>) -> (r: Vec<Action>)
    ensures
        action_models(r@) == action_models(a@) + action_models(b@),
{
    let mut r: Vec<Action> = Vec::new();
    let mut i: usize = 0;
    while i < a.len()
        invariant
            i <= a@.len(),
            action_models(r@) == action_models(a@.take(i as int)),
        decreases a@.len() - i,
    {
        let x = a[i].clone();
        let ghost r_old = r@;
        r.push(x);
        proof {
            assert(a@.take(i + 1) =~= a@.take(i as int).push(a@[i as int]));
            assert(action_models(r@) =~= action_models(r_old).push(action_model(x)));
            assert(action_models(a@.take(i + 1)) =~= action_models(a@.take(i as int)).push(action_model(a@[i as int])));
        }
        i = i + 1;
    }
    assert(a@.take(a@.len() as int) =~= a@);
    let mut j: usize = 0;
    while j < b.len()
        invariant
            j <= b@.len(),
            action_models(r@) == action_models(a@) + action_models(b@.take(j as int)),
        decreases b@.len() - j,
    {
        let x = b[j].clone();
        let ghost r_old = r@;
        r.push(x);
        proof {
            assert(b@.take(j + 1) =~= b@.take(j as int).push(b@[j as int]));
            assert(action_models(r@) =~= action_models(r_old).push(action_model(x)));
            assert(action_models(b@.take(j + 1)) =~= action_models(b@.take(j as int)).push(action_model(b@[j as int])));
            assert(action_models(r@) =~= action_models(a@) + action_models(b@.take(j + 1)));
        }
        j = j + 1;
    }
    assert(b@.take(b@.len() as int) =~= b@);
    r
}

/// Every state and terminal of the table with more than one action, in
/// table order, each once.
pub fn check_ambiguities(table: &StateTable) -> (r: Vec<Conflict>)
    requires
        forall|s: int| 0 <= s < table.states@.len() ==> keys((#[trigger] table.states@[s]).actions@).no_duplicates(),
        views(table.seen_terms@).no_duplicates(),
    ensures
        forall|j: int| 0 <= j < r@.len() ==> reports_conflict(*table, #[trigger] r@[j]),
        forall|j1: int, j2: int| 0 <= j1 < j2 < r@.len() ==> crate::ll_processing::comes_before(
            r@[j1].state as int, r@[j1].entry as int, r@[j2].state as int, r@[j2].entry as int),
        forall|s: int, e: int| 0 <= s < table.states@.len() && 0 <= e < table.seen_terms@.len()
            && #[trigger] conflicted(table.states@[s], table.seen_terms@[e]@)
            ==> exists|j: int| 0 <= j < r@.len() && r@[j].state == s && r@[j].entry == e,
        forall|j1: int, j2: int| 0 <= j1 < r@.len() && 0 <= j2 < r@.len() && j1 != j2
            ==> r@[j1].state != r@[j2].state || r@[j1].terminal@ != r@[j2].terminal@,
{
    let mut r: Vec<Conflict> = Vec::new();
    let mut s: usize = 0;
    while s < table.states.len()
        invariant
            s <= table.states@.len(),
            forall|s2: int| 0 <= s2 < table.states@.len() ==> keys((#[trigger] table.states@[s2]).actions@).no_duplicates(),
            forall|j: int| 0 <= j < r@.len() ==> reports_conflict(*table, #[trigger] r@[j]) && r@[j].state < s,
            forall|j1: int, j2: int| 0 <= j1 < j2 < r@.len() ==> crate::ll_processing::comes_before(
                r@[j1].state as int, r@[j1].entry as int, r@[j2].state as int, r@[j2].entry as int),
            forall|s2: int, e: int| 0 <= s2 < s && 0 <= e < table.seen_terms@.len()
                && #[trigger] conflicted(table.states@[s2], table.seen_terms@[e]@)
                ==> exists|j: int| 0 <= j < r@.len() && r@[j].state == s2 && r@[j].entry == e,
        decreases table.states@.len() - s,
    {
        let row = &table.states[s];
        let mut e: usize = 0;
        while e < table.seen_terms.len()
            invariant
                s < table.states@.len(),
                row == table.states@[s as int],
                keys(row.actions@).no_duplicates(),
                e <= table.seen_terms@.len(),
                forall|j: int| 0 <= j < r@.len() ==> reports_conflict(*table, #[trigger] r@[j])
                    && crate::ll_processing::comes_before(r@[j].state as int, r@[j].entry as int, s as int, e as int),
                forall|j1: int, j2: int| 0 <= j1 < j2 < r@.len() ==> crate::ll_processing::comes_before(
                    r@[j1].state as int, r@[j1].entry as int, r@[j2].state as int, r@[j2].entry as int),
                forall|s2: int, e2: int| 0 <= s2 < table.states@.len() && 0 <= e2 < table.seen_terms@.len()
                    && crate::ll_processing::comes_before(s2, e2, s as int, e as int)
                    && #[trigger] conflicted(table.states@[s2], table.seen_terms@[e2]@)
                    ==> exists|j: int| 0 <= j < r@.len() && r@[j].state == s2 && r@[j].entry == e2,
            decreases table.seen_terms@.len() - e,
        {
            let ghost r0 = r@;
            let t = &table.seen_terms[e];
            let acts = entry_actions(&row.actions, t);
            let la = acts.len();
            let lc = row.common_actions.len();
            assert(action_models(acts@).len() == acts@.len());
            assert(action_models(row.common_actions@).len() == row.common_actions@.len());
            if la > 1 || lc > 1 || (la == 1 && lc == 1) {
                let all = concat_actions(&row.common_actions, &acts);
                let c = Conflict { state: s, entry: e, terminal: t.clone(), actions: all };
                r.push(c);
                proof {
                    assert(r@[r0.len() as int] == c);
                    assert forall|j: int| 0 <= j < r@.len() implies reports_conflict(*table, #[trigger] r@[j])
                        && crate::ll_processing::comes_before(r@[j].state as int, r@[j].entry as int, s as int, e + 1) by {
                        if j < r0.len() {
                            assert(r@[j] == r0[j]);
                        }
                    }
                    assert forall|s2: int, e2: int| 0 <= s2 < table.states@.len() && 0 <= e2 < table.seen_terms@.len()
                        && crate::ll_processing::comes_before(s2, e2, s as int, e + 1)
                        && #[trigger] conflicted(table.states@[s2], table.seen_terms@[e2]@)
                        implies exists|j: int| 0 <= j < r@.len() && r@[j].state == s2 && r@[j].entry == e2 by {
                        if crate::ll_processing::comes_before(s2, e2, s as int, e as int) {
                            let j = choose|j: int| 0 <= j < r0.len() && r0[j].state == s2 && r0[j].entry == e2;
                            assert(r@[j] == r0[j]);
                        } else {
                            assert(r@[r0.len() as int].state == s2);
                        }
                    }
                }
            }
            e = e + 1;
        }
        s = s + 1;
    }
    proof {
        assert forall|j1: int, j2: int| 0 <= j1 < r@.len() && 0 <= j2 < r@.len() && j1 != j2
            implies r@[j1].state != r@[j2].state || r@[j1].terminal@ != r@[j2].terminal@ by {
            if r@[j1].state == r@[j2].state {
                assert(reports_conflict(*table, r@[j1]) && reports_conflict(*table, r@[j2]));
                if j1 < j2 {
                    assert(crate::ll_processing::comes_before(r@[j1].state as int, r@[j1].entry as int, r@[j2].state as int, r@[j2].entry as int));
                } else {
                    assert(crate::ll_processing::comes_before(r@[j2].state as int, r@[j2].entry as int, r@[j1].state as int, r@[j1].entry as int));
                }
                assert(views(table.seen_terms@)[r@[j1].entry as int] != views(table.seen_terms@)[r@[j2].entry as int]);
            }
        }
    }
    r
}

} // verus!
