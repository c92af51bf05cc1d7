//! FIRST and FOLLOW sets, each computed as the terminals that a walk reaches
//! in a graph over the grammar's symbols.
use vstd::prelude::*;
use crate::productions::{
    all_nullable, classified, derives_empty, distinct, find_non_terminal, is_nt, model, strings, sym, syms, well_formed,
    NonTerminal, Rule, Sym,
};
use crate::reach::{
    adj_view, closed_graph, edge, graph_of, lemma_graph_reach, lemma_reach_in_table, first_n_follow_set_dfs, rel_reach,
};
use crate::order::{insert_sorted, lemma_sorted_distinct, sort_strings, sorted};
use crate::scanner::{Token, TokenKind};

verus! {

pub open spec fn views(v: Seq<String>) -> Seq<Seq<char>> {
    v.map_values(|s: String| s@)
}

/// `b` stands at some position of `w` after a prefix that derives ε.
pub open spec fn lead_sym(m: Seq<Rule>, w: Seq<Sym>, b: Seq<char>) -> bool {
    exists|k: int| 0 <= k < w.len() && all_nullable(m, w.take(k)) && (#[trigger] w[k]).1 == b
}

/// Some production of `a` has `b` at a position after a prefix that derives ε.
pub open spec fn first_edge(m: Seq<Rule>, a: Seq<char>, b: Seq<char>) -> bool {
    exists|i: int, p: int| 0 <= i < m.len() && m[i].0 == a && 0 <= p < m[i].2.len() && #[trigger] lead_sym(m, m[i].2[p], b)
}

pub open spec fn first_rel(m: Seq<Rule>) -> spec_fn(Seq<char>, Seq<char>) -> bool {
    |a: Seq<char>, b: Seq<char>| first_edge(m, a, b)
}

/// FIRST(a): the terminals that can begin a string derived from `a`.
pub open spec fn first_of(m: Seq<Rule>, a: Seq<char>) -> Set<Seq<char>> {
    Set::new(|t: Seq<char>| !is_nt(m, t) && rel_reach(first_rel(m), a, t))
}

/// `a` is the start symbol and derives ε.
pub open spec fn nullable_start(m: Seq<Rule>, a: Seq<char>) -> bool {
    exists|i: int| 0 <= i < m.len() && #[trigger] m[i].0 == a && m[i].1 && derives_empty(m, a)
}

/// The FIRST set kept for non-terminal `a`: FIRST(a), with `EOF` added when
/// `a` is the start symbol and derives ε (its input may then end at once).
pub open spec fn first_stored(m: Seq<Rule>, a: Seq<char>) -> Set<Seq<char>> {
    if nullable_start(m, a) {
        first_of(m, a).insert("EOF"@)
    } else {
        first_of(m, a)
    }
}

/// The terminals that can begin a string derived from symbol `x`.
pub open spec fn starts_with(m: Seq<Rule>, x: Sym, t: Seq<char>) -> bool {
    if x.0 == TokenKind::Id {
        first_stored(m, x.1).contains(t)
    } else {
        x.1 == t
    }
}

/// FIRST(w) for a string of symbols.
pub open spec fn first_of_seq(m: Seq<Rule>, w: Seq<Sym>) -> Set<Seq<char>> {
    Set::new(|t: Seq<char>| exists|j: int| 0 <= j < w.len() && all_nullable(m, w.take(j)) && #[trigger] starts_with(m, w[j], t))
}

/// Each non-terminal's `is_nullable` is whether it derives ε.
pub open spec fn nullable_known(g: Seq<NonTerminal>) -> bool {
    forall|i: int| 0 <= i < g.len() ==> #[trigger] g[i].is_nullable == derives_empty(model(g), g[i].name@)
}

/// `names` lists the non-terminals first, in order, then distinct terminals,
/// and holds every symbol of the grammar and `EOF`.
pub open spec fn symbol_table(m: Seq<Rule>, names: Seq<String>) -> bool {
    &&& names.len() >= m.len()
    &&& forall|i: int| 0 <= i < m.len() ==> #[trigger] names[i]@ == m[i].0
    &&& forall|x: int| m.len() <= x < names.len() ==> !is_nt(m, #[trigger] names[x]@)
    &&& views(names).no_duplicates()
    &&& forall|i: int, p: int, k: int|
        0 <= i < m.len() && 0 <= p < m[i].2.len() && 0 <= k < m[i].2[p].len() ==> views(names).contains(#[trigger] m[i].2[p][k].1)
    &&& views(names).contains("EOF"@)
}

/// The position of `s` in `names`.
pub fn find_symbol(names: &Vec<String>, s: &String) -> (r: Option<usize>)
    ensures
        match r {
            Some(x) => x < names@.len() && names@[x as int]@ == s@,
            None => !views(names@).contains(s@),
        },
{
    let mut x: usize = 0;
    while x < names.len()
        invariant
            x <= names@.len(),
            forall|y: int| 0 <= y < x ==> names@[y]@ != s@,
        decreases names@.len() - x,
    {
        if names[x] == *s {
            return Some(x);
        }
        x = x + 1;
    }
    proof {
        if views(names@).contains(s@) {
            let y = choose|y: int| 0 <= y < views(names@).len() && views(names@)[y] == s@;
            assert(names@[y]@ == s@);
        }
    }
    None
}

pub(crate) fn push_if_absent(names: &mut Vec<String>, s: &String)
    ensures
        views(old(names)@).contains(s@) ==> final(names)@ == old(names)@,
        !views(old(names)@).contains(s@) ==> views(final(names)@) == views(old(names)@).push(s@),
        final(names)@.len() >= old(names)@.len(),
        forall|x: int| 0 <= x < old(names)@.len() ==> #[trigger] final(names)@[x] == old(names)@[x],
        views(old(names)@).no_duplicates() ==> views(final(names)@).no_duplicates(),
        views(final(names)@).contains(s@),
        forall|t: Seq<char>| #[trigger] views(final(names)@).contains(t) ==> views(old(names)@).contains(t) || t == s@,
{
    match find_symbol(names, s) {
        Some(x) => {
            assert(views(names@)[x as int] == s@);
        },
        None => {
            let ghost before = names@;
            names.push(s.clone());
            proof {
                assert(views(names@) =~= views(before).push(s@));
                assert(views(names@)[before.len() as int] == s@);
                assert forall|t: Seq<char>| #[trigger] views(names@).contains(t) implies views(before).contains(t) || t == s@ by {
                    let y = choose|y: int| 0 <= y < views(names@).len() && views(names@)[y] == t;
                    if y < before.len() {
                        assert(views(before)[y] == t);
                    }
                }
            }
        },
    }
}

/// The symbol table of a grammar: its non-terminals, then its terminals and
/// `EOF`.
pub(crate) fn build_symbol_table(nts: &Vec<NonTerminal>) -> (names: Vec<String>)
    requires
        well_formed(model(nts@)),
    ensures
        symbol_table(model(nts@), names@),
{
    let ghost m = model(nts@);
    let n = nts.len();
    let mut names: Vec<String> = Vec::new();
    let mut i: usize = 0;
    while i < n
        invariant
            m == model(nts@),
            well_formed(m),
            n == m.len(),
            i <= n,
            names@.len() == i,
            forall|x: int| 0 <= x < i ==> #[trigger] names@[x]@ == m[x].0,
        decreases n - i,
    {
        names.push(nts[i].name.clone());
        i = i + 1;
    }
    proof {
        assert forall|a: int, b: int| 0 <= a < views(names@).len() && 0 <= b < views(names@).len() && a != b
            implies views(names@)[a] != views(names@)[b] by {
            assert(names@[a]@ == m[a].0);
            assert(names@[b]@ == m[b].0);
        }
    }
    let mut i: usize = 0;
    while i < n
        invariant
            m == model(nts@),
            well_formed(m),
            n == m.len(),
            i <= n,
            names@.len() >= n,
            forall|x: int| 0 <= x < n ==> #[trigger] names@[x]@ == m[x].0,
            forall|x: int| n <= x < names@.len() ==> !is_nt(m, #[trigger] names@[x]@),
            views(names@).no_duplicates(),
            forall|a: int, p: int, k: int|
                0 <= a < i && 0 <= p < m[a].2.len() && 0 <= k < m[a].2[p].len() ==> views(names@).contains(#[trigger] m[a].2[p][k].1),
        decreases n - i,
    {
        let prods = &nts[i].productions;
        let mut p: usize = 0;
        while p < prods.len()
            invariant
                m == model(nts@),
                well_formed(m),
                n == m.len(),
                i < n,
                prods@ == nts@[i as int].productions@,
                p <= prods@.len(),
                names@.len() >= n,
                forall|x: int| 0 <= x < n ==> #[trigger] names@[x]@ == m[x].0,
                forall|x: int| n <= x < names@.len() ==> !is_nt(m, #[trigger] names@[x]@),
                views(names@).no_duplicates(),
                forall|a: int, q: int, k: int|
                    0 <= a < i && 0 <= q < m[a].2.len() && 0 <= k < m[a].2[q].len() ==> views(names@).contains(#[trigger] m[a].2[q][k].1),
                forall|q: int, k: int|
                    0 <= q < p && 0 <= k < m[i as int].2[q].len() ==> views(names@).contains(#[trigger] m[i as int].2[q][k].1),
            decreases prods@.len() - p,
        {
            let list = &prods[p].list;
            let mut k: usize = 0;
            while k < list.len()
                invariant
                    m == model(nts@),
                    well_formed(m),
                    n == m.len(),
                    i < n,
                    p < m[i as int].2.len(),
                    m[i as int].2[p as int] == syms(list@),
                    k <= list@.len(),
                    names@.len() >= n,
                    forall|x: int| 0 <= x < n ==> #[trigger] names@[x]@ == m[x].0,
                    forall|x: int| n <= x < names@.len() ==> !is_nt(m, #[trigger] names@[x]@),
                    views(names@).no_duplicates(),
                    forall|a: int, q: int, j: int|
                        0 <= a < i && 0 <= q < m[a].2.len() && 0 <= j < m[a].2[q].len() ==> views(names@).contains(#[trigger] m[a].2[q][j].1),
                    forall|q: int, j: int|
                        0 <= q < p && 0 <= j < m[i as int].2[q].len() ==> views(names@).contains(#[trigger] m[i as int].2[q][j].1),
                    forall|j: int| 0 <= j < k ==> views(names@).contains(#[trigger] m[i as int].2[p as int][j].1),
                decreases list@.len() - k,
            {
                let ghost before = names@;
                assert(m[i as int].2[p as int][k as int] == sym(list@[k as int]));
                if list[k].kind == TokenKind::Id {
                    proof {
                        assert(classified(m, m[i as int].2[p as int][k as int]));
                        let x = choose|x: int| 0 <= x < m.len() && #[trigger] m[x].0 == list@[k as int].value@;
                        assert(views(names@)[x] == m[x].0);
                    }
                } else {
                    proof {
                        assert(classified(m, m[i as int].2[p as int][k as int]));
                    }
                    push_if_absent(&mut names, &list[k].value);
                    proof {
                        assert forall|x: int| n <= x < names@.len() implies !is_nt(m, #[trigger] names@[x]@) by {
                            if x >= before.len() {
                                assert(views(names@)[x] == names@[x]@);
                                assert(views(before).contains(names@[x]@) || names@[x]@ == list@[k as int].value@);
                                if views(before).contains(names@[x]@) {
                                    let y = choose|y: int| 0 <= y < views(before).len() && views(before)[y] == names@[x]@;
                                    assert(views(names@)[y] == names@[x]@);
                                    assert(y == x);
                                }
                            }
                        }
                        assert forall|t: Seq<char>| views(before).contains(t) implies #[trigger] views(names@).contains(t) by {
                            let y = choose|y: int| 0 <= y < views(before).len() && views(before)[y] == t;
                            assert(views(names@)[y] == t);
                        }
                    }
                }
                k = k + 1;
            }
            p = p + 1;
        }
        i = i + 1;
    }
    let eof = String::from_str("EOF");
    let ghost before = names@;
    push_if_absent(&mut names, &eof);
    proof {
        assert forall|x: int| n <= x < names@.len() implies !is_nt(m, #[trigger] names@[x]@) by {
            if x >= before.len() {
                if views(before).contains(names@[x]@) {
                    let y = choose|y: int| 0 <= y < views(before).len() && views(before)[y] == names@[x]@;
                    assert(views(names@)[y] == names@[x]@);
                    assert(views(names@)[x] == names@[x]@);
                    assert(y == x);
                } else {
                    assert(views(names@)[x] == names@[x]@);
                    assert(names@[x]@ == "EOF"@);
                    if is_nt(m, names@[x]@) {
                        let y = choose|y: int| 0 <= y < m.len() && #[trigger] m[y].0 == names@[x]@;
                        assert(views(before)[y] == m[y].0);
                    }
                }
            }
        }
        assert forall|t: Seq<char>| views(before).contains(t) implies #[trigger] views(names@).contains(t) by {
            let y = choose|y: int| 0 <= y < views(before).len() && views(before)[y] == t;
            assert(views(names@)[y] == t);
        }
    }
    names
}

/// Appends the index of each symbol of `w` that stands after a prefix that
/// derives ε.
fn lead_targets(nts: &Vec<NonTerminal>, names: &Vec<String>, w: &Vec<Token>, out: &mut Vec<usize>)
    requires
        well_formed(model(nts@)),
        nullable_known(nts@),
        symbol_table(model(nts@), names@),
        forall|k: int| 0 <= k < w@.len() ==> classified(model(nts@), #[trigger] syms(w@)[k]) && views(names@).contains(syms(w@)[k].1),
        forall|j: int| 0 <= j < old(out)@.len() ==> old(out)@[j] < names@.len(),
    ensures
        forall|j: int| 0 <= j < final(out)@.len() ==> final(out)@[j] < names@.len(),
        forall|v: int| 0 <= v < names@.len() ==> (#[trigger] final(out)@.contains(v as usize) <==> old(out)@.contains(v as usize)
            || lead_sym(model(nts@), syms(w@), names@[v]@)),
{
    let ghost m = model(nts@);
    let ghost ws = syms(w@);
    let ghost out0 = out@;
    let mut k: usize = 0;
    let mut go = true;
    assert(ws.take(0) =~= Seq::<Sym>::empty());
    while go && k < w.len()
        invariant
            m == model(nts@),
            ws == syms(w@),
            well_formed(m),
            nullable_known(nts@),
            symbol_table(m, names@),
            forall|k: int| 0 <= k < w@.len() ==> classified(m, #[trigger] ws[k]) && views(names@).contains(ws[k].1),
            k <= w@.len(),
            go ==> all_nullable(m, ws.take(k as int)),
            !go ==> k >= 1 && !all_nullable(m, ws.take(k as int)),
            forall|j: int| 0 <= j < out@.len() ==> out@[j] < names@.len(),
            forall|v: int| 0 <= v < names@.len() ==> (#[trigger] out@.contains(v as usize) <==> out0.contains(v as usize)
                || exists|k2: int| 0 <= k2 < k && all_nullable(m, ws.take(k2)) && (#[trigger] ws[k2]).1 == names@[v]@),
        decreases w@.len() - k,
    {
        let ghost before = out@;
        assert(ws[k as int] == sym(w@[k as int]));
        let x = match find_symbol(names, &w[k].value) {
            Some(x) => x,
            None => {
                proof {
                    assert(views(names@).contains(ws[k as int].1));
                }
                0
            },
        };
        proof {
            if !views(names@).contains(w@[k as int].value@) {
                assert(false);
            }
        }
        out.push(x);
        let nlen = names.len();
        proof {
            assert(out@ =~= before.push(x));
            assert(names@[x as int]@ == ws[k as int].1);
            assert forall|y: usize| #[trigger] out@.contains(y) <==> before.contains(y) || y == x by {
                if out@.contains(y) && !before.contains(y) {
                    let j = choose|j: int| 0 <= j < out@.len() && out@[j] == y;
                    if j < before.len() {
                        assert(before[j] == y);
                    }
                }
                if before.contains(y) {
                    let j = choose|j: int| 0 <= j < before.len() && before[j] == y;
                    assert(out@[j] == y);
                }
                if y == x {
                    assert(out@[before.len() as int] == y);
                }
            }
            assert forall|v: int| 0 <= v < names@.len() implies (#[trigger] out@.contains(v as usize) <==> out0.contains(v as usize)
                || exists|k2: int| 0 <= k2 < k + 1 && all_nullable(m, ws.take(k2)) && (#[trigger] ws[k2]).1 == names@[v]@) by {
                if v as usize == x {
                    assert(v < nlen);
                    assert(ws[k as int].1 == names@[v]@);
                }
                if names@[v]@ == ws[k as int].1 {
                    assert(views(names@)[v] == views(names@)[x as int]);
                    assert(v == x);
                }
            }
        }
        assert(ws.take(k + 1) =~= ws.take(k as int).push(ws[k as int]));
        proof {
            assert(classified(m, ws[k as int]));
        }
        if w[k].kind == TokenKind::Id {
            match find_non_terminal(nts, &w[k].value) {
                Some(y) => {
                    assert(nts@[y as int].is_nullable == derives_empty(model(nts@), nts@[y as int].name@));
                    if !nts[y].is_nullable {
                        go = false;
                    }
                },
                None => {
                    go = false;
                },
            }
        } else {
            go = false;
        }
        proof {
            assert(ws.take(k + 1)[k as int] == ws[k as int]);
            assert forall|j: int| 0 <= j < k implies #[trigger] ws.take(k + 1)[j] == ws.take(k as int)[j] by {}
        }
        k = k + 1;
    }
    proof {
        assert forall|v: int| 0 <= v < names@.len() implies (#[trigger] out@.contains(v as usize) <==> out0.contains(v as usize)
            || lead_sym(m, ws, names@[v]@)) by {
            if lead_sym(m, ws, names@[v]@) {
                let k2 = choose|k2: int| 0 <= k2 < ws.len() && all_nullable(m, ws.take(k2)) && (#[trigger] ws[k2]).1 == names@[v]@;
                if k2 >= k {
                    assert(!go);
                    let j = choose|j: int| 0 <= j < k && !((#[trigger] ws.take(k as int)[j]).0 == TokenKind::Id
                        && derives_empty(m, ws.take(k as int)[j].1));
                    assert(ws.take(k2)[j] == ws.take(k as int)[j]);
                }
            }
        }
    }
}

/// The indices of the symbols that stand first in some production of
/// non-terminal `u`, after a prefix that derives ε.
fn first_targets(nts: &Vec<NonTerminal>, names: &Vec<String>, u: usize) -> (out: Vec<usize>)
    requires
        well_formed(model(nts@)),
        nullable_known(nts@),
        symbol_table(model(nts@), names@),
        u < nts@.len(),
    ensures
        forall|j: int| 0 <= j < out@.len() ==> out@[j] < names@.len(),
        forall|v: int| 0 <= v < names@.len() ==> (#[trigger] out@.contains(v as usize) <==> first_edge(model(nts@), names@[u as int]@, names@[v]@)),
{
    let ghost m = model(nts@);
    let prods = &nts[u].productions;
    let mut out: Vec<usize> = Vec::new();
    let mut p: usize = 0;
    while p < prods.len()
        invariant
            m == model(nts@),
            well_formed(m),
            nullable_known(nts@),
            symbol_table(m, names@),
            u < m.len(),
            prods@ == nts@[u as int].productions@,
            p <= prods@.len(),
            forall|j: int| 0 <= j < out@.len() ==> out@[j] < names@.len(),
            forall|v: int| 0 <= v < names@.len() ==> (#[trigger] out@.contains(v as usize) <==>
                exists|q: int| 0 <= q < p && #[trigger] lead_sym(m, m[u as int].2[q], names@[v]@)),
        decreases prods@.len() - p,
    {
        let ghost before = out@;
        assert(m[u as int].2[p as int] == syms(prods@[p as int].list@));
        lead_targets(nts, names, &prods[p].list, &mut out);
        proof {
            assert forall|v: int| 0 <= v < names@.len() implies (#[trigger] out@.contains(v as usize) <==>
                exists|q: int| 0 <= q < p + 1 && #[trigger] lead_sym(m, m[u as int].2[q], names@[v]@)) by {
                if before.contains(v as usize) {
                    let q = choose|q: int| 0 <= q < p && #[trigger] lead_sym(m, m[u as int].2[q], names@[v]@);
                }
            }
        }
        p = p + 1;
    }
    proof {
        assert forall|v: int| 0 <= v < names@.len() implies (#[trigger] out@.contains(v as usize) <==>
            first_edge(m, names@[u as int]@, names@[v]@)) by {
            if first_edge(m, names@[u as int]@, names@[v]@) {
                let (i, q) = choose|i: int, q: int| 0 <= i < m.len() && m[i].0 == names@[u as int]@ && 0 <= q < m[i].2.len()
                    && #[trigger] lead_sym(m, m[i].2[q], names@[v]@);
                assert(i == u);
            }
            if out@.contains(v as usize) {
                let q = choose|q: int| 0 <= q < p && #[trigger] lead_sym(m, m[u as int].2[q], names@[v]@);
                assert(m[u as int].0 == names@[u as int]@);
            }
        }
    }
    out
}

/// The FIRST graph: an edge from each non-terminal to each symbol that stands
/// first in one of its productions after a prefix that derives ε.
fn first_graph(nts: &Vec<NonTerminal>, names: &Vec<String>) -> (adj: Vec<Vec<usize>>)
    requires
        well_formed(model(nts@)),
        nullable_known(nts@),
        symbol_table(model(nts@), names@),
    ensures
        closed_graph(adj_view(&adj)),
        graph_of(adj_view(&adj), views(names@), first_rel(model(nts@))),
{
    let ghost m = model(nts@);
    let n = nts.len();
    let mut adj: Vec<Vec<usize>> = Vec::new();
    let mut u: usize = 0;
    while u < names.len()
        invariant
            m == model(nts@),
            well_formed(m),
            nullable_known(nts@),
            symbol_table(m, names@),
            n == m.len(),
            u <= names@.len(),
            adj@.len() == u,
            forall|a: int, j: int| 0 <= a < u && 0 <= j < adj@[a]@.len() ==> #[trigger] adj@[a]@[j] < names@.len(),
            forall|a: int, v: int| 0 <= a < u && 0 <= v < names@.len() ==>
                (#[trigger] adj@[a]@.contains(v as usize) <==> first_edge(m, names@[a]@, names@[v]@)),
        decreases names@.len() - u,
    {
        if u < n {
            let t = first_targets(nts, names, u);
            adj.push(t);
        } else {
            adj.push(Vec::new());
            proof {
                assert forall|v: int| 0 <= v < names@.len() implies !first_edge(m, names@[u as int]@, names@[v]@) by {
                    assert(!is_nt(m, names@[u as int]@));
                }
            }
        }
        u = u + 1;
    }
    let ghost g = adj_view(&adj);
    proof {
        assert forall|a: int, b: Seq<char>| 0 <= a < g.len() && #[trigger] first_rel(m)(views(names@)[a], b)
            implies views(names@).contains(b) by {
            let (i, p) = choose|i: int, p: int| 0 <= i < m.len() && m[i].0 == views(names@)[a] && 0 <= p < m[i].2.len()
                && #[trigger] lead_sym(m, m[i].2[p], b);
            let k = choose|k: int| 0 <= k < m[i].2[p].len() && all_nullable(m, m[i].2[p].take(k)) && (#[trigger] m[i].2[p][k]).1 == b;
        }
        assert forall|a: int, v: int| 0 <= a < g.len() && 0 <= v < g.len() implies
            (#[trigger] edge(g, a, v) <==> first_rel(m)(views(names@)[a], views(names@)[v])) by {
            assert(g[a] == adj@[a]@);
        }
        assert forall|a: int, j: int| 0 <= a < g.len() && 0 <= j < g[a].len() implies g[a][j] < g.len() by {
            assert(g[a] == adj@[a]@);
        }
    }
    adj
}

/// The strings at the positions from `n` on that `seen` marks.
pub(crate) fn collect_marked(names: &Vec<String>, seen: &Vec<bool>, n: usize) -> (r: Vec<String>)
    requires
        seen@.len() == names@.len(),
        views(names@).no_duplicates(),
    ensures
        distinct(r@),
        forall|t: Seq<char>| #[trigger] strings(r@).contains(t) <==> exists|v: int| n <= v < names@.len() && seen@[v] && names@[v]@ == t,
{
    let mut r: Vec<String> = Vec::new();
    let mut v: usize = n;
    let ghost mut from: Seq<int> = Seq::empty();
    while v < names.len()
        invariant
            seen@.len() == names@.len(),
            views(names@).no_duplicates(),
            n <= v || (v == n && v >= names@.len()),
            v <= names@.len() || v == n,
            from.len() == r@.len(),
            forall|j: int| 0 <= j < r@.len() ==> n <= #[trigger] from[j] < v && from[j] < names@.len() && seen@[from[j]] && r@[j]@ == names@[from[j]]@,
            forall|j1: int, j2: int| 0 <= j1 < j2 < r@.len() ==> from[j1] < from[j2],
            forall|x: int| n <= x < v && x < names@.len() && seen@[x] ==> exists|j: int| 0 <= j < r@.len() && #[trigger] from[j] == x,
        decreases names@.len() - v,
    {
        let ghost from0 = from;
        if seen[v] {
            r.push(names[v].clone());
            proof {
                from = from.push(v as int);
                assert(from[from.len() - 1] == v as int);
            }
        }
        proof {
            assert forall|x: int| n <= x < v + 1 && x < names@.len() && seen@[x] implies exists|j: int| 0 <= j < r@.len() && #[trigger] from[j] == x by {
                if x < v {
                    let j = choose|j: int| 0 <= j < from0.len() && #[trigger] from0[j] == x;
                    assert(from[j] == x);
                } else {
                    assert(from[from.len() - 1] == x);
                }
            }
        }
        v = v + 1;
    }
    proof {
        assert forall|a: int, b: int| 0 <= a < r@.len() && 0 <= b < r@.len() && a != b implies r@[a]@ != r@[b]@ by {
            assert(views(names@)[from[a]] == r@[a]@);
            assert(views(names@)[from[b]] == r@[b]@);
        }
        assert forall|t: Seq<char>| #[trigger] strings(r@).contains(t) <==> exists|x: int| n <= x < names@.len() && seen@[x] && names@[x]@ == t by {
            if strings(r@).contains(t) {
                let j = choose|j: int| 0 <= j < r@.len() && #[trigger] r@[j]@ == t;
                assert(n <= from[j] < names@.len() && seen@[from[j]] && names@[from[j]]@ == t);
            }
            if exists|x: int| n <= x < names@.len() && seen@[x] && names@[x]@ == t {
                let x = choose|x: int| n <= x < names@.len() && seen@[x] && names@[x]@ == t;
                let j = choose|j: int| 0 <= j < r@.len() && #[trigger] from[j] == x;
                assert(r@[j]@ == t);
            }
        }
    }
    r
}

/// Replaces each non-terminal's `first_set` by its FIRST set.
pub fn first_sets(nts: &mut Vec<NonTerminal>)
    requires
        well_formed(model(old(nts)@)),
        nullable_known(old(nts)@),
    ensures
        final(nts)@.len() == old(nts)@.len(),
        forall|i: int| 0 <= i < old(nts)@.len() ==> #[trigger] final(nts)@[i] == (NonTerminal {
            first_set: final(nts)@[i].first_set,
            ..old(nts)@[i]
        }),
        forall|i: int| 0 <= i < old(nts)@.len() ==> strings(#[trigger] final(nts)@[i].first_set@) == first_stored(model(old(nts)@), old(nts)@[i].name@),
        forall|i: int| 0 <= i < old(nts)@.len() ==> distinct(#[trigger] final(nts)@[i].first_set@),
        forall|i: int| 0 <= i < old(nts)@.len() ==> sorted(#[trigger] final(nts)@[i].first_set@),
{
    let ghost g = nts@;
    let ghost m = model(g);
    let names = build_symbol_table(nts);
    let adj = first_graph(nts, &names);
    let n = nts.len();
    let mut i: usize = 0;
    while i < n
        invariant
            m == model(g),
            well_formed(m),
            nullable_known(g),
            symbol_table(m, names@),
            closed_graph(adj_view(&adj)),
            graph_of(adj_view(&adj), views(names@), first_rel(m)),
            n == g.len(),
            nts@.len() == n,
            i <= n,
            forall|x: int| 0 <= x < i ==> #[trigger] nts@[x] == (NonTerminal { first_set: nts@[x].first_set, ..g[x] }),
            forall|x: int| 0 <= x < i ==> strings(#[trigger] nts@[x].first_set@) == first_stored(m, g[x].name@),
            forall|x: int| 0 <= x < i ==> distinct(#[trigger] nts@[x].first_set@),
            forall|x: int| 0 <= x < i ==> sorted(#[trigger] nts@[x].first_set@),
            forall|x: int| i <= x < n ==> #[trigger] nts@[x] == g[x],
        decreases n - i,
    {
        let seen = first_n_follow_set_dfs(&adj, i);
        let reached = collect_marked(&names, &seen, n);
        let mut first = sort_strings(&reached);
        proof {
            let a = names@[i as int]@;
            assert(a == m[i as int].0);
            assert(m[i as int].0 == g[i as int].name@);
            assert(views(names@)[i as int] == a);
            assert forall|t: Seq<char>| #[trigger] strings(first@).contains(t) == first_of(m, a).contains(t) by {
                if strings(first@).contains(t) {
                    let v = choose|v: int| n <= v < names@.len() && seen@[v] && names@[v]@ == t;
                    lemma_graph_reach(adj_view(&adj), views(names@), first_rel(m), i as int, v);
                    assert(views(names@)[v] == t);
                    assert(!is_nt(m, names@[v]@));
                }
                if first_of(m, a).contains(t) {
                    assert(views(names@).contains(a));
                    lemma_reach_in_table(adj_view(&adj), views(names@), first_rel(m), a, t);
                    let v = choose|v: int| 0 <= v < views(names@).len() && views(names@)[v] == t;
                    if v < n {
                        assert(m[v].0 == t);
                        assert(is_nt(m, t));
                    }
                    lemma_graph_reach(adj_view(&adj), views(names@), first_rel(m), i as int, v);
                    assert(seen@[v]);
                    assert(names@[v]@ == t);
                }
            }
            assert(strings(first@) =~= first_of(m, a));
            assert(nts@[i as int] == g[i as int]);
            assert(g[i as int].is_nullable == derives_empty(m, g[i as int].name@));
            assert(m[i as int].1 == g[i as int].is_start_term);
            if nullable_start(m, a) {
                let j = choose|j: int| 0 <= j < m.len() && #[trigger] m[j].0 == a && m[j].1 && derives_empty(m, a);
                assert(j == i);
            }
        }
        if nts[i].is_start_term && nts[i].is_nullable {
            let eof = String::from_str("EOF");
            insert_sorted(&mut first, &eof);
        }
        proof {
            lemma_sorted_distinct(first@);
            assert(strings(first@) =~= first_stored(m, g[i as int].name@));
        }
        let mut slot = NonTerminal::new(String::new());
        nts.set_and_swap(i, &mut slot);
        slot.first_set = first;
        nts.set_and_swap(i, &mut slot);
        i = i + 1;
    }
}

/// Symbol `k` of production `p` of non-terminal `i` is an occurrence of
/// non-terminal `a`, and the FOLLOW graph has an edge from it to `b`: `b` can
/// begin what comes after it, or what comes after it derives ε and `b` is the
/// non-terminal `i` whose FOLLOW set it inherits.
pub open spec fn follow_edge_at(m: Seq<Rule>, a: Seq<char>, i: int, p: int, k: int, b: Seq<char>) -> bool {
    &&& 0 <= k < m[i].2[p].len()
    &&& m[i].2[p][k].0 == TokenKind::Id
    &&& m[i].2[p][k].1 == a
    &&& first_of_seq(m, m[i].2[p].skip(k + 1)).contains(b) || (all_nullable(m, m[i].2[p].skip(k + 1)) && b == m[i].0)
}

/// The FOLLOW graph has an edge from `a` to `b`; the start symbol has an edge
/// to `EOF`.
pub open spec fn follow_edge(m: Seq<Rule>, a: Seq<char>, b: Seq<char>) -> bool {
    ||| exists|i: int, p: int, k: int| 0 <= i < m.len() && 0 <= p < m[i].2.len() && #[trigger] follow_edge_at(m, a, i, p, k, b)
    ||| exists|i: int| 0 <= i < m.len() && #[trigger] m[i].0 == a && m[i].1 && b == "EOF"@
}

pub open spec fn follow_rel(m: Seq<Rule>) -> spec_fn(Seq<char>, Seq<char>) -> bool {
    |a: Seq<char>, b: Seq<char>| follow_edge(m, a, b)
}

/// FOLLOW(a): the terminals that can come right after `a` in a sentential
/// form, `EOF` included.
pub open spec fn follow_of(m: Seq<Rule>, a: Seq<char>) -> Set<Seq<char>> {
    Set::new(|t: Seq<char>| !is_nt(m, t) && rel_reach(follow_rel(m), a, t))
}

/// Each non-terminal's `first_set` holds its FIRST set.
pub open spec fn first_known(g: Seq<NonTerminal>) -> bool {
    forall|i: int| 0 <= i < g.len() ==> strings(#[trigger] g[i].first_set@) == first_stored(model(g), g[i].name@)
}

/// What FIRST of a non-terminal holds are terminals of the grammar.
pub proof fn lemma_first_is_terminal(m: Seq<Rule>, a: Seq<char>, t: Seq<char>)
    requires
        well_formed(m),
        is_nt(m, a),
        first_of(m, a).contains(t),
    ensures
        exists|i: int, p: int, k: int| 0 <= i < m.len() && 0 <= p < m[i].2.len() && 0 <= k < m[i].2[p].len()
            && #[trigger] m[i].2[p][k] == (TokenKind::Term, t),
{
    let w = choose|w: Seq<Seq<char>>| crate::reach::rel_walk(first_rel(m), w) && w[0] == a && w.last() == t;
    assert(w.len() >= 2);
    let x = w[w.len() - 2];
    assert(first_rel(m)(w[w.len() - 2], w[w.len() - 1]));
    let (i, p) = choose|i: int, p: int| 0 <= i < m.len() && m[i].0 == x && 0 <= p < m[i].2.len() && #[trigger] lead_sym(m, m[i].2[p], t);
    let k = choose|k: int| 0 <= k < m[i].2[p].len() && all_nullable(m, m[i].2[p].take(k)) && (#[trigger] m[i].2[p][k]).1 == t;
    assert(classified(m, m[i].2[p][k]));
}

/// Appends the position in `names` of each string of `items`.
fn push_indices(names: &Vec<String>, items: &Vec<String>, out: &mut Vec<usize>)
    requires
        forall|e: int| 0 <= e < items@.len() ==> views(names@).contains(#[trigger] items@[e]@),
        views(names@).no_duplicates(),
        forall|j: int| 0 <= j < old(out)@.len() ==> old(out)@[j] < names@.len(),
    ensures
        forall|j: int| 0 <= j < final(out)@.len() ==> final(out)@[j] < names@.len(),
        forall|v: int| 0 <= v < names@.len() ==> (#[trigger] final(out)@.contains(v as usize) <==> old(out)@.contains(v as usize)
            || strings(items@).contains(names@[v]@)),
{
    let ghost out0 = out@;
    let nlen = names.len();
    let mut e: usize = 0;
    while e < items.len()
        invariant
            nlen == names@.len(),
            forall|e: int| 0 <= e < items@.len() ==> views(names@).contains(#[trigger] items@[e]@),
            views(names@).no_duplicates(),
            e <= items@.len(),
            forall|j: int| 0 <= j < out@.len() ==> out@[j] < names@.len(),
            forall|v: int| 0 <= v < names@.len() ==> (#[trigger] out@.contains(v as usize) <==> out0.contains(v as usize)
                || exists|f: int| 0 <= f < e && #[trigger] items@[f]@ == names@[v]@),
        decreases items@.len() - e,
    {
        let ghost before = out@;
        let x = match find_symbol(names, &items[e]) {
            Some(x) => x,
            None => {
                proof {
                    assert(views(names@).contains(items@[e as int]@));
                }
                0
            },
        };
        out.push(x);
        proof {
            assert(out@ =~= before.push(x));
            assert forall|y: usize| #[trigger] out@.contains(y) <==> before.contains(y) || y == x by {
                if out@.contains(y) && !before.contains(y) {
                    let j = choose|j: int| 0 <= j < out@.len() && out@[j] == y;
                    if j < before.len() {
                        assert(before[j] == y);
                    }
                }
                if before.contains(y) {
                    let j = choose|j: int| 0 <= j < before.len() && before[j] == y;
                    assert(out@[j] == y);
                }
                if y == x {
                    assert(out@[before.len() as int] == y);
                }
            }
            assert forall|v: int| 0 <= v < names@.len() implies (#[trigger] out@.contains(v as usize) <==> out0.contains(v as usize)
                || exists|f: int| 0 <= f < e + 1 && #[trigger] items@[f]@ == names@[v]@) by {
                if v as usize == x {
                    assert(v < nlen);
                    assert(items@[e as int]@ == names@[v]@);
                }
                if items@[e as int]@ == names@[v]@ {
                    assert(views(names@)[v] == views(names@)[x as int]);
                    assert(v < nlen);
                }
            }
        }
        e = e + 1;
    }
}

/// Appends the positions of FIRST(`w[from..]`), and returns whether
/// `w[from..]` derives ε.
pub(crate) fn rest_targets(nts: &Vec<NonTerminal>, names: &Vec<String>, w: &Vec<Token>, from: usize, out: &mut Vec<usize>) -> (nullable: bool)
    requires
        well_formed(model(nts@)),
        nullable_known(nts@),
        first_known(nts@),
        symbol_table(model(nts@), names@),
        forall|k: int| 0 <= k < w@.len() ==> classified(model(nts@), #[trigger] syms(w@)[k]) && views(names@).contains(syms(w@)[k].1),
        from <= w@.len(),
        forall|j: int| 0 <= j < old(out)@.len() ==> old(out)@[j] < names@.len(),
    ensures
        forall|j: int| 0 <= j < final(out)@.len() ==> final(out)@[j] < names@.len(),
        forall|v: int| 0 <= v < names@.len() ==> (#[trigger] final(out)@.contains(v as usize) <==> old(out)@.contains(v as usize)
            || first_of_seq(model(nts@), syms(w@).skip(from as int)).contains(names@[v]@)),
        nullable == all_nullable(model(nts@), syms(w@).skip(from as int)),
{
    let ghost m = model(nts@);
    let ghost rest = syms(w@).skip(from as int);
    let ghost out0 = out@;
    let nlen = names.len();
    let wl = w.len();
    let n = wl - from;
    let mut j: usize = 0;
    let mut go = true;
    assert(rest.take(0) =~= Seq::<Sym>::empty());
    while go && j < n
        invariant
            m == model(nts@),
            rest == syms(w@).skip(from as int),
            n == rest.len(),
            n + from == wl,
            wl == w@.len(),
            nlen == names@.len(),
            well_formed(m),
            nullable_known(nts@),
            first_known(nts@),
            symbol_table(m, names@),
            forall|k: int| 0 <= k < w@.len() ==> classified(m, #[trigger] syms(w@)[k]) && views(names@).contains(syms(w@)[k].1),
            from <= w@.len(),
            j <= n,
            go ==> all_nullable(m, rest.take(j as int)),
            !go ==> j >= 1 && !all_nullable(m, rest.take(j as int)),
            forall|x: int| 0 <= x < out@.len() ==> out@[x] < names@.len(),
            forall|v: int| 0 <= v < names@.len() ==> (#[trigger] out@.contains(v as usize) <==> out0.contains(v as usize)
                || exists|j2: int| 0 <= j2 < j && all_nullable(m, rest.take(j2)) && #[trigger] starts_with(m, rest[j2], names@[v]@)),
        decreases n - j,
    {
        let ghost before = out@;
        let tok = &w[from + j];
        assert(rest[j as int] == syms(w@)[from + j]);
        assert(syms(w@)[from + j] == sym(w@[from + j]));
        assert(classified(m, rest[j as int]));
        if tok.kind == TokenKind::Id {
            let y = match find_non_terminal(nts, &tok.value) {
                Some(y) => y,
                None => 0,
            };
            assert(nts@[y as int].name@ == tok.value@);
            assert(strings(nts@[y as int].first_set@) == first_stored(m, nts@[y as int].name@));
            proof {
                assert forall|e: int| 0 <= e < nts@[y as int].first_set@.len() implies
                    views(names@).contains(#[trigger] nts@[y as int].first_set@[e]@) by {
                    let t = nts@[y as int].first_set@[e]@;
                    assert(strings(nts@[y as int].first_set@).contains(t));
                    assert(m[y as int].0 == tok.value@);
                    if first_of(m, tok.value@).contains(t) {
                        lemma_first_is_terminal(m, tok.value@, t);
                    }
                }
            }
            push_indices(names, &nts[y].first_set, out);
            proof {
                assert forall|v: int| 0 <= v < names@.len() implies (#[trigger] out@.contains(v as usize) <==> out0.contains(v as usize)
                    || exists|j2: int| 0 <= j2 < j + 1 && all_nullable(m, rest.take(j2)) && #[trigger] starts_with(m, rest[j2], names@[v]@)) by {
                    if strings(nts@[y as int].first_set@).contains(names@[v]@) {
                        assert(starts_with(m, rest[j as int], names@[v]@));
                    }
                    if starts_with(m, rest[j as int], names@[v]@) {
                        assert(strings(nts@[y as int].first_set@).contains(names@[v]@));
                    }
                }
            }
            assert(nts@[y as int].is_nullable == derives_empty(m, nts@[y as int].name@));
            if !nts[y].is_nullable {
                go = false;
            }
        } else {
            let x = match find_symbol(names, &tok.value) {
                Some(x) => x,
                None => 0,
            };
            out.push(x);
            proof {
                assert(out@ =~= before.push(x));
                assert forall|y: usize| #[trigger] out@.contains(y) <==> before.contains(y) || y == x by {
                    if out@.contains(y) && !before.contains(y) {
                        let i = choose|i: int| 0 <= i < out@.len() && out@[i] == y;
                        if i < before.len() {
                            assert(before[i] == y);
                        }
                    }
                    if before.contains(y) {
                        let i = choose|i: int| 0 <= i < before.len() && before[i] == y;
                        assert(out@[i] == y);
                    }
                    if y == x {
                        assert(out@[before.len() as int] == y);
                    }
                }
                assert forall|v: int| 0 <= v < names@.len() implies (#[trigger] out@.contains(v as usize) <==> out0.contains(v as usize)
                    || exists|j2: int| 0 <= j2 < j + 1 && all_nullable(m, rest.take(j2)) && #[trigger] starts_with(m, rest[j2], names@[v]@)) by {
                    if v as usize == x {
                        assert(v < nlen);
                        assert(starts_with(m, rest[j as int], names@[v]@));
                    }
                    if starts_with(m, rest[j as int], names@[v]@) {
                        assert(views(names@)[v] == views(names@)[x as int]);
                        assert(v < nlen);
                    }
                }
            }
            go = false;
        }
        proof {
            assert(rest.take(j + 1)[j as int] == rest[j as int]);
            assert forall|i: int| 0 <= i < j implies #[trigger] rest.take(j + 1)[i] == rest.take(j as int)[i] by {}
        }
        j = j + 1;
    }
    proof {
        assert forall|v: int| 0 <= v < names@.len() implies (#[trigger] out@.contains(v as usize) <==> out0.contains(v as usize)
            || first_of_seq(m, rest).contains(names@[v]@)) by {
            if first_of_seq(m, rest).contains(names@[v]@) {
                let j2 = choose|j2: int| 0 <= j2 < rest.len() && all_nullable(m, rest.take(j2)) && #[trigger] starts_with(m, rest[j2], names@[v]@);
                if j2 >= j {
                    let i = choose|i: int| 0 <= i < j && !((#[trigger] rest.take(j as int)[i]).0 == TokenKind::Id
                        && derives_empty(m, rest.take(j as int)[i].1));
                    assert(rest.take(j2)[i] == rest.take(j as int)[i]);
                }
            }
        }
        if go {
            assert(rest.take(j as int) =~= rest);
        } else {
            let i = choose|i: int| 0 <= i < j && !((#[trigger] rest.take(j as int)[i]).0 == TokenKind::Id
                && derives_empty(m, rest.take(j as int)[i].1));
            assert(rest[i] == rest.take(j as int)[i]);
        }
    }
    go
}

/// Appends the FOLLOW-graph targets of each occurrence of non-terminal `u` in
/// production `p` of non-terminal `i`.
fn occurrence_targets(nts: &Vec<NonTerminal>, names: &Vec<String>, u: usize, i: usize, p: usize, out: &mut Vec<usize>)
    requires
        well_formed(model(nts@)),
        nullable_known(nts@),
        first_known(nts@),
        symbol_table(model(nts@), names@),
        u < nts@.len(),
        i < nts@.len(),
        p < nts@[i as int].productions@.len(),
        forall|j: int| 0 <= j < old(out)@.len() ==> old(out)@[j] < names@.len(),
    ensures
        forall|j: int| 0 <= j < final(out)@.len() ==> final(out)@[j] < names@.len(),
        forall|v: int| 0 <= v < names@.len() ==> (#[trigger] final(out)@.contains(v as usize) <==> old(out)@.contains(v as usize)
            || exists|k: int| #[trigger] follow_edge_at(model(nts@), names@[u as int]@, i as int, p as int, k, names@[v]@)),
{
    let ghost m = model(nts@);
    let ghost a = names@[u as int]@;
    let ghost out0 = out@;
    let list = &nts[i].productions[p].list;
    let ghost ws = syms(list@);
    assert(ws == m[i as int].2[p as int]);
    let nlen = names.len();
    let mut k: usize = 0;
    while k < list.len()
        invariant
            m == model(nts@),
            a == names@[u as int]@,
            ws == syms(list@),
            ws == m[i as int].2[p as int],
            nlen == names@.len(),
            well_formed(m),
            nullable_known(nts@),
            first_known(nts@),
            symbol_table(m, names@),
            u < m.len(),
            i < m.len(),
            p < m[i as int].2.len(),
            k <= list@.len(),
            forall|j: int| 0 <= j < out@.len() ==> out@[j] < names@.len(),
            forall|v: int| 0 <= v < names@.len() ==> (#[trigger] out@.contains(v as usize) <==> out0.contains(v as usize)
                || exists|k2: int| k2 < k && #[trigger] follow_edge_at(m, a, i as int, p as int, k2, names@[v]@)),
        decreases list@.len() - k,
    {
        let ghost before = out@;
        assert(ws[k as int] == sym(list@[k as int]));
        if list[k].kind == TokenKind::Id && list[k].value == names[u] {
            let nul = rest_targets(nts, names, list, k + 1, out);
            let ghost mid = out@;
            if nul {
                out.push(i);
                proof {
                    assert(out@ =~= mid.push(i));
                    assert forall|y: usize| #[trigger] out@.contains(y) <==> mid.contains(y) || y == i by {
                        if out@.contains(y) && !mid.contains(y) {
                            let j = choose|j: int| 0 <= j < out@.len() && out@[j] == y;
                            if j < mid.len() {
                                assert(mid[j] == y);
                            }
                        }
                        if mid.contains(y) {
                            let j = choose|j: int| 0 <= j < mid.len() && mid[j] == y;
                            assert(out@[j] == y);
                        }
                        if y == i {
                            assert(out@[mid.len() as int] == y);
                        }
                    }
                }
            }
            proof {
                assert forall|v: int| 0 <= v < names@.len() implies (#[trigger] out@.contains(v as usize) <==> out0.contains(v as usize)
                    || exists|k2: int| k2 < k + 1 && #[trigger] follow_edge_at(m, a, i as int, p as int, k2, names@[v]@)) by {
                    assert(names@[i as int]@ == m[i as int].0);
                    assert(ws.skip(k + 1) == syms(list@).skip((k + 1) as int));
                    if first_of_seq(m, ws.skip(k + 1)).contains(names@[v]@) {
                        assert(follow_edge_at(m, a, i as int, p as int, k as int, names@[v]@));
                    }
                    if nul && v as usize == i {
                        assert(v < nlen);
                        assert(follow_edge_at(m, a, i as int, p as int, k as int, names@[v]@));
                    }
                    if follow_edge_at(m, a, i as int, p as int, k as int, names@[v]@) && !mid.contains(v as usize) {
                        assert(views(names@)[v] == views(names@)[i as int]);
                        assert(v < nlen);
                    }
                }
            }
        } else {
            proof {
                assert forall|v: int| 0 <= v < names@.len() implies (#[trigger] out@.contains(v as usize) <==> out0.contains(v as usize)
                    || exists|k2: int| k2 < k + 1 && #[trigger] follow_edge_at(m, a, i as int, p as int, k2, names@[v]@)) by {
                    if follow_edge_at(m, a, i as int, p as int, k as int, names@[v]@) {
                        assert(ws[k as int].1 == a);
                    }
                }
            }
        }
        k = k + 1;
    }
}

/// The FOLLOW-graph targets of non-terminal `u`.
fn follow_targets(nts: &Vec<NonTerminal>, names: &Vec<String>, u: usize) -> (out: Vec<usize>)
    requires
        well_formed(model(nts@)),
        nullable_known(nts@),
        first_known(nts@),
        symbol_table(model(nts@), names@),
        u < nts@.len(),
    ensures
        forall|j: int| 0 <= j < out@.len() ==> out@[j] < names@.len(),
        forall|v: int| 0 <= v < names@.len() ==> (#[trigger] out@.contains(v as usize) <==> follow_edge(model(nts@), names@[u as int]@, names@[v]@)),
{
    let ghost m = model(nts@);
    let ghost a = names@[u as int]@;
    let mut out: Vec<usize> = Vec::new();
    let mut i: usize = 0;
    while i < nts.len()
        invariant
            m == model(nts@),
            a == names@[u as int]@,
            well_formed(m),
            nullable_known(nts@),
            first_known(nts@),
            symbol_table(m, names@),
            u < m.len(),
            i <= m.len(),
            forall|j: int| 0 <= j < out@.len() ==> out@[j] < names@.len(),
            forall|v: int| 0 <= v < names@.len() ==> (#[trigger] out@.contains(v as usize) <==>
                exists|i2: int, p2: int, k2: int| 0 <= i2 < i && 0 <= p2 < m[i2].2.len() && #[trigger] follow_edge_at(m, a, i2, p2, k2, names@[v]@)),
        decreases m.len() - i,
    {
        let mut p: usize = 0;
        while p < nts[i].productions.len()
            invariant
                m == model(nts@),
                a == names@[u as int]@,
                well_formed(m),
                nullable_known(nts@),
                first_known(nts@),
                symbol_table(m, names@),
                u < m.len(),
                i < m.len(),
                p <= m[i as int].2.len(),
                forall|j: int| 0 <= j < out@.len() ==> out@[j] < names@.len(),
                forall|v: int| 0 <= v < names@.len() ==> (#[trigger] out@.contains(v as usize) <==>
                    (exists|i2: int, p2: int, k2: int| 0 <= i2 < i && 0 <= p2 < m[i2].2.len() && #[trigger] follow_edge_at(m, a, i2, p2, k2, names@[v]@))
                    || exists|p2: int, k2: int| 0 <= p2 < p && #[trigger] follow_edge_at(m, a, i as int, p2, k2, names@[v]@)),
            decreases m[i as int].2.len() - p,
        {
            occurrence_targets(nts, names, u, i, p, &mut out);
            p = p + 1;
        }
        proof {
            assert forall|v: int| 0 <= v < names@.len() implies (#[trigger] out@.contains(v as usize) <==>
                exists|i2: int, p2: int, k2: int| 0 <= i2 < i + 1 && 0 <= p2 < m[i2].2.len() && #[trigger] follow_edge_at(m, a, i2, p2, k2, names@[v]@)) by {
                if exists|i2: int, p2: int, k2: int| 0 <= i2 < i + 1 && 0 <= p2 < m[i2].2.len() && #[trigger] follow_edge_at(m, a, i2, p2, k2, names@[v]@) {
                    let (i2, p2, k2) = choose|i2: int, p2: int, k2: int| 0 <= i2 < i + 1 && 0 <= p2 < m[i2].2.len() && #[trigger] follow_edge_at(m, a, i2, p2, k2, names@[v]@);
                    if i2 == i {
                        assert(exists|p3: int, k3: int| 0 <= p3 < p && #[trigger] follow_edge_at(m, a, i as int, p3, k3, names@[v]@));
                    }
                }
            }
        }
        i = i + 1;
    }
    let ghost before = out@;
    let ghost mut xe: int = 0;
    if nts[u].is_start_term {
        let eof = String::from_str("EOF");
        let x = match find_symbol(names, &eof) {
            Some(x) => x,
            None => 0,
        };
        out.push(x);
        proof {
            xe = x as int;
            assert(names@[x as int]@ == "EOF"@);
            assert(out@ =~= before.push(x));
            assert forall|y: usize| #[trigger] out@.contains(y) <==> before.contains(y) || y == x by {
                if out@.contains(y) && !before.contains(y) {
                    let j = choose|j: int| 0 <= j < out@.len() && out@[j] == y;
                    if j < before.len() {
                        assert(before[j] == y);
                    }
                }
                if before.contains(y) {
                    let j = choose|j: int| 0 <= j < before.len() && before[j] == y;
                    assert(out@[j] == y);
                }
                if y == x {
                    assert(out@[before.len() as int] == y);
                }
            }
        }
    }
    let nlen = names.len();
    proof {
        assert(m[u as int].0 == a);
        assert forall|v: int| 0 <= v < names@.len() implies (#[trigger] out@.contains(v as usize) <==> follow_edge(m, a, names@[v]@)) by {
            assert(m[u as int].1 == nts@[u as int].is_start_term);
            if exists|i2: int| 0 <= i2 < m.len() && #[trigger] m[i2].0 == a && m[i2].1 && names@[v]@ == "EOF"@ {
                let i2 = choose|i2: int| 0 <= i2 < m.len() && #[trigger] m[i2].0 == a && m[i2].1 && names@[v]@ == "EOF"@;
                assert(i2 == u);
                assert(views(names@)[v] == "EOF"@);
                assert(views(names@)[xe] == "EOF"@);
                assert(v < nlen);
                assert(v == xe);
            }
            if m[u as int].1 && v == xe {
                assert(exists|i2: int| 0 <= i2 < m.len() && #[trigger] m[i2].0 == a && m[i2].1 && names@[v]@ == "EOF"@);
            }
        }
    }
    out
}

/// The FOLLOW graph.
fn follow_graph(nts: &Vec<NonTerminal>, names: &Vec<String>) -> (adj: Vec<Vec<usize>>)
    requires
        well_formed(model(nts@)),
        nullable_known(nts@),
        first_known(nts@),
        symbol_table(model(nts@), names@),
    ensures
        closed_graph(adj_view(&adj)),
        graph_of(adj_view(&adj), views(names@), follow_rel(model(nts@))),
{
    let ghost m = model(nts@);
    let n = nts.len();
    let mut adj: Vec<Vec<usize>> = Vec::new();
    let mut u: usize = 0;
    while u < names.len()
        invariant
            m == model(nts@),
            well_formed(m),
            nullable_known(nts@),
            first_known(nts@),
            symbol_table(m, names@),
            n == m.len(),
            u <= names@.len(),
            adj@.len() == u,
            forall|a: int, j: int| 0 <= a < u && 0 <= j < adj@[a]@.len() ==> #[trigger] adj@[a]@[j] < names@.len(),
            forall|a: int, v: int| 0 <= a < u && 0 <= v < names@.len() ==>
                (#[trigger] adj@[a]@.contains(v as usize) <==> follow_edge(m, names@[a]@, names@[v]@)),
        decreases names@.len() - u,
    {
        if u < n {
            let t = follow_targets(nts, names, u);
            adj.push(t);
        } else {
            adj.push(Vec::new());
            proof {
                assert forall|v: int| 0 <= v < names@.len() implies !follow_edge(m, names@[u as int]@, names@[v]@) by {
                    assert(!is_nt(m, names@[u as int]@));
                    if exists|i: int, p: int, k: int| 0 <= i < m.len() && 0 <= p < m[i].2.len() && #[trigger] follow_edge_at(m, names@[u as int]@, i, p, k, names@[v]@) {
                        let (i, p, k) = choose|i: int, p: int, k: int| 0 <= i < m.len() && 0 <= p < m[i].2.len() && #[trigger] follow_edge_at(m, names@[u as int]@, i, p, k, names@[v]@);
                        assert(classified(m, m[i].2[p][k]));
                    }
                }
            }
        }
        u = u + 1;
    }
    let ghost g = adj_view(&adj);
    proof {
        assert forall|a: int, b: Seq<char>| 0 <= a < g.len() && #[trigger] follow_rel(m)(views(names@)[a], b)
            implies views(names@).contains(b) by {
            let x = views(names@)[a];
            if exists|i: int, p: int, k: int| 0 <= i < m.len() && 0 <= p < m[i].2.len() && #[trigger] follow_edge_at(m, x, i, p, k, b) {
                let (i, p, k) = choose|i: int, p: int, k: int| 0 <= i < m.len() && 0 <= p < m[i].2.len() && #[trigger] follow_edge_at(m, x, i, p, k, b);
                let rest = m[i].2[p].skip(k + 1);
                if first_of_seq(m, rest).contains(b) {
                    let j = choose|j: int| 0 <= j < rest.len() && all_nullable(m, rest.take(j)) && #[trigger] starts_with(m, rest[j], b);
                    assert(rest[j] == m[i].2[p][k + 1 + j]);
                    if rest[j].0 == TokenKind::Id {
                        assert(classified(m, m[i].2[p][k + 1 + j]));
                        if first_of(m, rest[j].1).contains(b) {
                            lemma_first_is_terminal(m, rest[j].1, b);
                        }
                    }
                } else {
                    assert(views(names@)[i] == m[i].0);
                }
            }
        }
        assert forall|a: int, v: int| 0 <= a < g.len() && 0 <= v < g.len() implies
            (#[trigger] edge(g, a, v) <==> follow_rel(m)(views(names@)[a], views(names@)[v])) by {
            assert(g[a] == adj@[a]@);
        }
        assert forall|a: int, j: int| 0 <= a < g.len() && 0 <= j < g[a].len() implies g[a][j] < g.len() by {
            assert(g[a] == adj@[a]@);
        }
    }
    adj
}

/// Replaces each non-terminal's `follow_set` by its FOLLOW set.
pub fn follow_sets(nts: &mut Vec<NonTerminal>)
    requires
        well_formed(model(old(nts)@)),
        nullable_known(old(nts)@),
        first_known(old(nts)@),
    ensures
        final(nts)@.len() == old(nts)@.len(),
        forall|i: int| 0 <= i < old(nts)@.len() ==> #[trigger] final(nts)@[i] == (NonTerminal {
            follow_set: final(nts)@[i].follow_set,
            ..old(nts)@[i]
        }),
        forall|i: int| 0 <= i < old(nts)@.len() ==> strings(#[trigger] final(nts)@[i].follow_set@) == follow_of(model(old(nts)@), old(nts)@[i].name@),
        forall|i: int| 0 <= i < old(nts)@.len() ==> distinct(#[trigger] final(nts)@[i].follow_set@),
        forall|i: int| 0 <= i < old(nts)@.len() ==> sorted(#[trigger] final(nts)@[i].follow_set@),
{
    let ghost g = nts@;
    let ghost m = model(g);
    let names = build_symbol_table(nts);
    let adj = follow_graph(nts, &names);
    let n = nts.len();
    let mut i: usize = 0;
    while i < n
        invariant
            m == model(g),
            well_formed(m),
            symbol_table(m, names@),
            closed_graph(adj_view(&adj)),
            graph_of(adj_view(&adj), views(names@), follow_rel(m)),
            n == g.len(),
            nts@.len() == n,
            i <= n,
            forall|x: int| 0 <= x < i ==> #[trigger] nts@[x] == (NonTerminal { follow_set: nts@[x].follow_set, ..g[x] }),
            forall|x: int| 0 <= x < i ==> strings(#[trigger] nts@[x].follow_set@) == follow_of(m, g[x].name@),
            forall|x: int| 0 <= x < i ==> distinct(#[trigger] nts@[x].follow_set@),
            forall|x: int| 0 <= x < i ==> sorted(#[trigger] nts@[x].follow_set@),
            forall|x: int| i <= x < n ==> #[trigger] nts@[x] == g[x],
        decreases n - i,
    {
        let seen = first_n_follow_set_dfs(&adj, i);
        let reached = collect_marked(&names, &seen, n);
        let follow = sort_strings(&reached);
        proof {
            lemma_sorted_distinct(follow@);
        }
        proof {
            let a = names@[i as int]@;
            assert(a == m[i as int].0);
            assert(m[i as int].0 == g[i as int].name@);
            assert(views(names@)[i as int] == a);
            assert forall|t: Seq<char>| #[trigger] strings(follow@).contains(t) == follow_of(m, a).contains(t) by {
                if strings(follow@).contains(t) {
                    let v = choose|v: int| n <= v < names@.len() && seen@[v] && names@[v]@ == t;
                    lemma_graph_reach(adj_view(&adj), views(names@), follow_rel(m), i as int, v);
                    assert(views(names@)[v] == t);
                    assert(!is_nt(m, names@[v]@));
                }
                if follow_of(m, a).contains(t) {
                    assert(views(names@).contains(a));
                    lemma_reach_in_table(adj_view(&adj), views(names@), follow_rel(m), a, t);
                    let v = choose|v: int| 0 <= v < views(names@).len() && views(names@)[v] == t;
                    if v < n {
                        assert(m[v].0 == t);
                        assert(is_nt(m, t));
                    }
                    lemma_graph_reach(adj_view(&adj), views(names@), follow_rel(m), i as int, v);
                    assert(seen@[v]);
                    assert(names@[v]@ == t);
                }
            }
            assert(strings(follow@) =~= follow_of(m, a));
        }
        let mut slot = NonTerminal::new(String::new());
        nts.set_and_swap(i, &mut slot);
        slot.follow_set = follow;
        nts.set_and_swap(i, &mut slot);
        i = i + 1;
    }
}

/// FIRST of what follows an occurrence of non-terminal `A` in a production
/// `N -> α A β` is in FOLLOW(A); and where `β` derives ε, FOLLOW(N) is in
/// FOLLOW(A).
pub proof fn lemma_follow_closure(m: Seq<Rule>, i: int, p: int, k: int)
    requires
        well_formed(m),
        !is_nt(m, "EOF"@),
        0 <= i < m.len(),
        0 <= p < m[i].2.len(),
        0 <= k < m[i].2[p].len(),
        m[i].2[p][k].0 == TokenKind::Id,
    ensures
        first_of_seq(m, m[i].2[p].skip(k + 1)).subset_of(follow_of(m, m[i].2[p][k].1)),
        all_nullable(m, m[i].2[p].skip(k + 1)) ==> follow_of(m, m[i].0).subset_of(follow_of(m, m[i].2[p][k].1)),
{
    let a = m[i].2[p][k].1;
    let rest = m[i].2[p].skip(k + 1);
    assert forall|t: Seq<char>| first_of_seq(m, rest).contains(t) implies follow_of(m, a).contains(t) by {
        assert(follow_edge_at(m, a, i, p, k, t));
        assert(follow_rel(m)(a, t));
        crate::reach::lemma_rel_edge(follow_rel(m), a, t);
        let j = choose|j: int| 0 <= j < rest.len() && all_nullable(m, rest.take(j)) && #[trigger] starts_with(m, rest[j], t);
        assert(rest[j] == m[i].2[p][k + 1 + j]);
        assert(classified(m, m[i].2[p][k + 1 + j]));
    }
    if all_nullable(m, rest) {
        assert forall|t: Seq<char>| follow_of(m, m[i].0).contains(t) implies follow_of(m, a).contains(t) by {
            assert(follow_edge_at(m, a, i, p, k, m[i].0));
            assert(follow_rel(m)(a, m[i].0));
            crate::reach::lemma_rel_step(follow_rel(m), a, m[i].0, t);
        }
    }
}

/// The FIRST set of a non-terminal holds terminals of the grammar only, and
/// `EOF`.
pub proof fn lemma_first_only_terminals(m: Seq<Rule>, a: Seq<char>, t: Seq<char>)
    requires
        well_formed(m),
        is_nt(m, a),
        first_stored(m, a).contains(t),
    ensures
        t == "EOF"@ || exists|i: int, p: int, k: int| 0 <= i < m.len() && 0 <= p < m[i].2.len() && 0 <= k < m[i].2[p].len()
            && #[trigger] m[i].2[p][k] == (TokenKind::Term, t),
{
    if t != "EOF"@ {
        lemma_first_is_terminal(m, a, t);
    }
}

/// A start symbol that derives ε has `EOF` in its FIRST set.
pub proof fn lemma_nullable_start_first_has_eof(m: Seq<Rule>, i: int)
    requires
        0 <= i < m.len(),
        m[i].1,
        derives_empty(m, m[i].0),
    ensures
        first_stored(m, m[i].0).contains("EOF"@),
{
    assert(nullable_start(m, m[i].0));
}

proof fn lemma_strings_finite(v: Seq<String>)
    ensures
        strings(v).finite(),
{
    assert forall|t: Seq<char>| strings(v).contains(t) implies #[trigger] views(v).to_set().contains(t) by {
        let k = choose|k: int| 0 <= k < v.len() && #[trigger] v[k]@ == t;
        assert(views(v)[k] == t);
    }
    vstd::seq_lib::seq_to_set_is_finite(views(v));
    vstd::set_lib::lemma_set_subset_finite(views(v).to_set(), strings(v));
}

/// FIRST of every non-terminal is finite, even in a grammar with left
/// recursion: it is what the computed list holds.
pub proof fn lemma_first_finite(g: Seq<NonTerminal>, i: int)
    requires
        first_known(g),
        0 <= i < g.len(),
    ensures
        first_stored(model(g), g[i].name@).finite(),
        first_of(model(g), g[i].name@).finite(),
{
    assert(strings(g[i].first_set@) == first_stored(model(g), g[i].name@));
    lemma_strings_finite(g[i].first_set@);
    assert(first_of(model(g), g[i].name@).subset_of(first_stored(model(g), g[i].name@)));
    vstd::set_lib::lemma_set_subset_finite(first_stored(model(g), g[i].name@), first_of(model(g), g[i].name@));
}

} // verus!
