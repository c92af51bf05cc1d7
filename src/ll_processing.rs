//! PREDICT sets of productions and LL(1) ambiguity detection.
use vstd::prelude::*;
use crate::first_follow::{
    first_sets, follow_sets, find_symbol, first_known, first_of, first_of_seq, first_stored, follow_of, nullable_known, starts_with, views,
};
use crate::productions::{
    all_nullable, classified, derives_empty, distinct, find_non_terminal, lemma_same_model, model, nullability, strings, sym,
    syms, well_formed,
    NonTerminal, Production, Rule, Sym,
};
use crate::order::{insert_sorted, lemma_sorted_distinct, sorted};
use crate::scanner::{Token, TokenKind};

verus! {

/// PREDICT of production `p` of non-terminal `i`: FIRST of its symbols, and
/// FOLLOW of `i` when the symbols derive ε.
pub open spec fn predict_of(m: Seq<Rule>, i: int, p: int) -> Set<Seq<char>> {
    if all_nullable(m, m[i].2[p]) {
        first_of_seq(m, m[i].2[p]).union(follow_of(m, m[i].0))
    } else {
        first_of_seq(m, m[i].2[p])
    }
}

/// Each non-terminal's `follow_set` holds its FOLLOW set.
pub open spec fn follow_known(g: Seq<NonTerminal>) -> bool {
    forall|i: int| 0 <= i < g.len() ==> strings(#[trigger] g[i].follow_set@) == follow_of(model(g), g[i].name@)
}

/// Adds each string of `items` that `set` does not hold yet, keeping `set`
/// in lexicographic order.
pub fn add_all(set: &mut Vec<String>, items: &Vec<String>)
    requires
        sorted(old(set)@),
    ensures
        sorted(final(set)@),
        distinct(final(set)@),
        strings(final(set)@) == strings(old(set)@).union(strings(items@)),
{
    let ghost set0 = old(set)@;
    let mut e: usize = 0;
    while e < items.len()
        invariant
            e <= items@.len(),
            sorted(set@),
            strings(set@) == strings(set0).union(strings(items@.take(e as int))),
        decreases items@.len() - e,
    {
        insert_sorted(set, &items[e]);
        proof {
            assert forall|t: Seq<char>| #[trigger] strings(items@.take(e + 1)).contains(t)
                == strings(items@.take(e as int)).insert(items@[e as int]@).contains(t) by {
                if strings(items@.take(e + 1)).contains(t) {
                    let k = choose|k: int| 0 <= k < items@.take(e + 1).len() && #[trigger] items@.take(e + 1)[k]@ == t;
                    if k < e {
                        assert(items@.take(e as int)[k]@ == t);
                    }
                }
                if strings(items@.take(e as int)).contains(t) {
                    let k = choose|k: int| 0 <= k < items@.take(e as int).len() && #[trigger] items@.take(e as int)[k]@ == t;
                    assert(items@.take(e + 1)[k]@ == t);
                }
                if t == items@[e as int]@ {
                    assert(items@.take(e + 1)[e as int]@ == t);
                }
            }
            assert(strings(set@) =~= strings(set0).union(strings(items@.take(e + 1))));
        }
        e = e + 1;
    }
    assert(items@.take(items@.len() as int) =~= items@);
    proof {
        lemma_sorted_distinct(set@);
    }
}

/// Adds `s` unless `set` holds it already, keeping `set` in lexicographic
/// order.
pub fn insert(set: &mut Vec<String>, s: &String)
    requires
        sorted(old(set)@),
    ensures
        sorted(final(set)@),
        distinct(final(set)@),
        strings(final(set)@) == strings(old(set)@).insert(s@),
{
    insert_sorted(set, s);
    proof {
        lemma_sorted_distinct(set@);
    }
}

/// PREDICT of production `p` of non-terminal `i`, from the FIRST and FOLLOW
/// sets stored in the grammar.
fn production_predict(nts: &Vec<NonTerminal>, i: usize, p: usize) -> (r: Vec<String>)
    requires
        well_formed(model(nts@)),
        nullable_known(nts@),
        first_known(nts@),
        follow_known(nts@),
        i < nts@.len(),
        p < nts@[i as int].productions@.len(),
    ensures
        distinct(r@),
        sorted(r@),
        strings(r@) == predict_of(model(nts@), i as int, p as int),
{
    let ghost m = model(nts@);
    let list = &nts[i].productions[p].list;
    let ghost ws = syms(list@);
    assert(ws == m[i as int].2[p as int]);
    let mut r: Vec<String> = Vec::new();
    let mut k: usize = 0;
    let mut go = true;
    assert(ws.take(0) =~= Seq::<Sym>::empty());
    while go && k < list.len()
        invariant
            m == model(nts@),
            ws == syms(list@),
            ws == m[i as int].2[p as int],
            well_formed(m),
            nullable_known(nts@),
            first_known(nts@),
            i < m.len(),
            p < m[i as int].2.len(),
            k <= ws.len(),
            go ==> all_nullable(m, ws.take(k as int)),
            !go ==> k >= 1 && !all_nullable(m, ws.take(k as int)),
            sorted(r@),
            forall|t: Seq<char>| #[trigger] strings(r@).contains(t) <==>
                exists|k2: int| 0 <= k2 < k && all_nullable(m, ws.take(k2)) && #[trigger] starts_with(m, ws[k2], t),
        decreases ws.len() - k,
    {
        let ghost before = r@;
        let tok = &list[k];
        assert(ws[k as int] == sym(list@[k as int]));
        assert(classified(m, m[i as int].2[p as int][k as int]));
        if tok.kind == TokenKind::Id {
            let y = match find_non_terminal(nts, &tok.value) {
                Some(y) => y,
                None => 0,
            };
            assert(strings(nts@[y as int].first_set@) == first_stored(m, nts@[y as int].name@));
            add_all(&mut r, &nts[y].first_set);
            proof {
                assert forall|t: Seq<char>| #[trigger] strings(r@).contains(t) <==>
                    exists|k2: int| 0 <= k2 < k + 1 && all_nullable(m, ws.take(k2)) && #[trigger] starts_with(m, ws[k2], t) by {
                    if starts_with(m, ws[k as int], t) {
                        assert(strings(nts@[y as int].first_set@).contains(t));
                    }
                    if strings(nts@[y as int].first_set@).contains(t) {
                        assert(starts_with(m, ws[k as int], t));
                    }
                }
            }
            assert(nts@[y as int].is_nullable == derives_empty(m, nts@[y as int].name@));
            if !nts[y].is_nullable {
                go = false;
            }
        } else {
            insert(&mut r, &tok.value);
            proof {
                assert forall|t: Seq<char>| #[trigger] strings(r@).contains(t) <==>
                    exists|k2: int| 0 <= k2 < k + 1 && all_nullable(m, ws.take(k2)) && #[trigger] starts_with(m, ws[k2], t) by {
                    if t == tok.value@ {
                        assert(starts_with(m, ws[k as int], t));
                    }
                }
            }
            go = false;
        }
        proof {
            assert(ws.take(k + 1)[k as int] == ws[k as int]);
            assert forall|j: int| 0 <= j < k implies #[trigger] ws.take(k + 1)[j] == ws.take(k as int)[j] by {}
        }
        k = k + 1;
    }
    proof {
        assert forall|t: Seq<char>| #[trigger] strings(r@).contains(t) <==> first_of_seq(m, ws).contains(t) by {
            if first_of_seq(m, ws).contains(t) {
                let j2 = choose|j2: int| 0 <= j2 < ws.len() && all_nullable(m, ws.take(j2)) && #[trigger] starts_with(m, ws[j2], t);
                if j2 >= k {
                    let j = choose|j: int| 0 <= j < k && !((#[trigger] ws.take(k as int)[j]).0 == TokenKind::Id
                        && derives_empty(m, ws.take(k as int)[j].1));
                    assert(ws.take(j2)[j] == ws.take(k as int)[j]);
                }
            }
        }
        if go {
            assert(ws.take(k as int) =~= ws);
        } else {
            let j = choose|j: int| 0 <= j < k && !((#[trigger] ws.take(k as int)[j]).0 == TokenKind::Id
                && derives_empty(m, ws.take(k as int)[j].1));
            assert(ws[j] == ws.take(k as int)[j]);
        }
    }
    if go {
        let ghost before = r@;
        assert(strings(nts@[i as int].follow_set@) == follow_of(m, nts@[i as int].name@));
        add_all(&mut r, &nts[i].follow_set);
        proof {
            assert(m[i as int].0 == nts@[i as int].name@);
            assert(strings(r@) =~= predict_of(m, i as int, p as int));
        }
    } else {
        proof {
            assert(strings(r@) =~= predict_of(m, i as int, p as int));
        }
    }
    proof {
        lemma_sorted_distinct(r@);
    }
    r
}

/// Sets the `predict_set` of every production to its PREDICT set.
pub fn predict_sets(nts: &mut Vec<NonTerminal>)
    requires
        well_formed(model(old(nts)@)),
        nullable_known(old(nts)@),
        first_known(old(nts)@),
        follow_known(old(nts)@),
    ensures
        final(nts)@.len() == old(nts)@.len(),
        forall|i: int| 0 <= i < old(nts)@.len() ==> #[trigger] final(nts)@[i] == (NonTerminal {
            productions: final(nts)@[i].productions,
            ..old(nts)@[i]
        }),
        forall|i: int| 0 <= i < old(nts)@.len() ==> (#[trigger] final(nts)@[i]).productions@.len() == old(nts)@[i].productions@.len(),
        forall|i: int, p: int| 0 <= i < old(nts)@.len() && 0 <= p < old(nts)@[i].productions@.len()
            ==> (#[trigger] final(nts)@[i].productions@[p]).list == old(nts)@[i].productions@[p].list,
        forall|i: int, p: int| 0 <= i < old(nts)@.len() && 0 <= p < old(nts)@[i].productions@.len()
            ==> strings((#[trigger] final(nts)@[i].productions@[p]).predict_set@) == predict_of(model(old(nts)@), i, p)
                && distinct(final(nts)@[i].productions@[p].predict_set@) && sorted(final(nts)@[i].productions@[p].predict_set@),
{
    let ghost g = nts@;
    let ghost m = model(g);
    let n = nts.len();
    let mut all: Vec<Vec<Vec<String>>> = Vec::new();
    let mut i: usize = 0;
    while i < n
        invariant
            g == nts@,
            m == model(g),
            n == g.len(),
            well_formed(m),
            nullable_known(g),
            first_known(g),
            follow_known(g),
            i <= n,
            all@.len() == i,
            forall|x: int| 0 <= x < i ==> (#[trigger] all@[x])@.len() == g[x].productions@.len(),
            forall|x: int, q: int| 0 <= x < i && 0 <= q < g[x].productions@.len() ==>
                strings((#[trigger] all@[x]@[q])@) == predict_of(m, x, q) && distinct(all@[x]@[q]@) && sorted(all@[x]@[q]@),
        decreases n - i,
    {
        let mut row: Vec<Vec<String>> = Vec::new();
        let mut p: usize = 0;
        while p < nts[i].productions.len()
            invariant
                g == nts@,
                m == model(g),
                n == g.len(),
                well_formed(m),
                nullable_known(g),
                first_known(g),
                follow_known(g),
                i < n,
                p <= g[i as int].productions@.len(),
                row@.len() == p,
                forall|q: int| 0 <= q < p ==> strings((#[trigger] row@[q])@) == predict_of(m, i as int, q) && distinct(row@[q]@) && sorted(row@[q]@),
            decreases g[i as int].productions@.len() - p,
        {
            let pr = production_predict(nts, i, p);
            row.push(pr);
            p = p + 1;
        }
        all.push(row);
        i = i + 1;
    }
    let mut i: usize = 0;
    while i < n
        invariant
            n == g.len(),
            nts@.len() == n,
            all@.len() == n,
            i <= n,
            forall|x: int| 0 <= x < n ==> (#[trigger] all@[x])@.len() == g[x].productions@.len(),
            forall|x: int, q: int| 0 <= x < n && 0 <= q < g[x].productions@.len() ==>
                strings((#[trigger] all@[x]@[q])@) == predict_of(m, x, q) && distinct(all@[x]@[q]@) && sorted(all@[x]@[q]@),
            forall|x: int| i <= x < n ==> #[trigger] nts@[x] == g[x],
            forall|x: int| 0 <= x < i ==> #[trigger] nts@[x] == (NonTerminal { productions: nts@[x].productions, ..g[x] }),
            forall|x: int| 0 <= x < i ==> (#[trigger] nts@[x]).productions@.len() == g[x].productions@.len(),
            forall|x: int, q: int| 0 <= x < i && 0 <= q < g[x].productions@.len()
                ==> (#[trigger] nts@[x].productions@[q]).list == g[x].productions@[q].list
                    && strings(nts@[x].productions@[q].predict_set@) == predict_of(m, x, q)
                    && distinct(nts@[x].productions@[q].predict_set@) && sorted(nts@[x].productions@[q].predict_set@),
        decreases n - i,
    {
        let mut nt = NonTerminal::new(String::new());
        nts.set_and_swap(i, &mut nt);
        let ghost nt0 = nt;
        let row = &all[i];
        let mut p: usize = 0;
        while p < nt.productions.len()
            invariant
                nt0 == g[i as int],
                i < n,
                n == g.len(),
                all@.len() == n,
                row == all@[i as int],
                row@.len() == nt0.productions@.len(),
                forall|q: int| 0 <= q < nt0.productions@.len() ==>
                    strings((#[trigger] row@[q])@) == predict_of(m, i as int, q) && distinct(row@[q]@) && sorted(row@[q]@),
                nt == (NonTerminal { productions: nt.productions, ..nt0 }),
                nt.productions@.len() == nt0.productions@.len(),
                p <= nt.productions@.len(),
                forall|q: int| 0 <= q < nt.productions@.len() ==> (#[trigger] nt.productions@[q]).list == nt0.productions@[q].list,
                forall|q: int| 0 <= q < p ==> strings((#[trigger] nt.productions@[q]).predict_set@) == predict_of(m, i as int, q)
                    && distinct(nt.productions@[q].predict_set@) && sorted(nt.productions@[q].predict_set@),
            decreases nt.productions@.len() - p,
        {
            let mut pr = Production::new();
            nt.productions.set_and_swap(p, &mut pr);
            pr.predict_set = row[p].clone();
            proof {
                assert(strings(pr.predict_set@) =~= strings(row@[p as int]@)) by {
                    assert forall|t: Seq<char>| strings(pr.predict_set@).contains(t) == strings(row@[p as int]@).contains(t) by {
                        if strings(pr.predict_set@).contains(t) {
                            let k = choose|k: int| 0 <= k < pr.predict_set@.len() && #[trigger] pr.predict_set@[k]@ == t;
                            assert(row@[p as int]@[k]@ == t);
                        }
                        if strings(row@[p as int]@).contains(t) {
                            let k = choose|k: int| 0 <= k < row@[p as int]@.len() && #[trigger] row@[p as int]@[k]@ == t;
                            assert(pr.predict_set@[k]@ == t);
                        }
                    }
                }
                assert forall|a: int, b: int| 0 <= a < pr.predict_set@.len() && 0 <= b < pr.predict_set@.len() && a != b
                    implies pr.predict_set@[a]@ != pr.predict_set@[b]@ by {
                    assert(row@[p as int]@[a]@ != row@[p as int]@[b]@);
                }
                assert forall|a: int, b: int| 0 <= a < b < pr.predict_set@.len()
                    implies crate::order::lex_lt(pr.predict_set@[a]@, pr.predict_set@[b]@) by {
                    assert(crate::order::lex_lt(row@[p as int]@[a]@, row@[p as int]@[b]@));
                }
            }
            nt.productions.set_and_swap(p, &mut pr);
            p = p + 1;
        }
        nts.set_and_swap(i, &mut nt);
        i = i + 1;
    }
}

/// Two or more productions of a non-terminal predicted by the same terminals:
/// production `production` of non-terminal `non_terminal` (called `name`) is
/// predicted by `terminals`, which also predict an earlier production.
#[derive(Debug)]
pub struct Ambiguity {
    pub non_terminal: usize,
    pub production: usize,
    pub name: String,
    pub terminals: Vec<String>,
}

/// The stored PREDICT set of production `p` of non-terminal `i`.
pub open spec fn pset(g: Seq<NonTerminal>, i: int, p: int) -> Set<Seq<char>> {
    strings(g[i].productions@[p].predict_set@)
}

/// The terminals that predict some production of `i` before `p`.
pub open spec fn seen_before(g: Seq<NonTerminal>, i: int, p: int) -> Set<Seq<char>> {
    Set::new(|t: Seq<char>| exists|q: int| 0 <= q < p && #[trigger] pset(g, i, q).contains(t))
}

/// The terminals that predict production `p` of `i` and an earlier one.
pub open spec fn clash(g: Seq<NonTerminal>, i: int, p: int) -> Set<Seq<char>> {
    seen_before(g, i, p).intersect(pset(g, i, p))
}

/// No production is predicted by a terminal that predicts an earlier
/// production of the same non-terminal.
pub open spec fn no_ambiguity(g: Seq<NonTerminal>) -> bool {
    forall|i: int, p: int| 0 <= i < g.len() && 0 <= p < g[i].productions@.len() ==> #[trigger] clash(g, i, p) == Set::<Seq<char>>::empty()
}

/// The PREDICT sets of the productions of each non-terminal are pairwise
/// disjoint.
pub open spec fn pairwise_disjoint(g: Seq<NonTerminal>) -> bool {
    forall|i: int, p: int, q: int| 0 <= i < g.len() && 0 <= p < q < g[i].productions@.len()
        ==> #[trigger] pset(g, i, p).disjoint(#[trigger] pset(g, i, q))
}

/// A grammar is LL(1), that is no ambiguity is found in it, exactly when the
/// PREDICT sets of each non-terminal's productions are pairwise disjoint.
pub proof fn lemma_ll1_iff_disjoint(g: Seq<NonTerminal>)
    ensures
        no_ambiguity(g) <==> pairwise_disjoint(g),
{
    if no_ambiguity(g) {
        assert forall|i: int, p: int, q: int| 0 <= i < g.len() && 0 <= p < q < g[i].productions@.len()
            implies #[trigger] pset(g, i, p).disjoint(#[trigger] pset(g, i, q)) by {
            assert forall|t: Seq<char>| pset(g, i, p).contains(t) implies !pset(g, i, q).contains(t) by {
                assert(seen_before(g, i, q).contains(t));
                if pset(g, i, q).contains(t) {
                    assert(clash(g, i, q).contains(t));
                }
            }
        }
    }
    if pairwise_disjoint(g) {
        assert forall|i: int, p: int| 0 <= i < g.len() && 0 <= p < g[i].productions@.len()
            implies #[trigger] clash(g, i, p) == Set::<Seq<char>>::empty() by {
            assert forall|t: Seq<char>| !clash(g, i, p).contains(t) by {
                if clash(g, i, p).contains(t) {
                    let q = choose|q: int| 0 <= q < p && #[trigger] pset(g, i, q).contains(t);
                    assert(pset(g, i, q).disjoint(pset(g, i, p)));
                }
            }
            assert(clash(g, i, p) =~= Set::<Seq<char>>::empty());
        }
    }
}

/// The strings of `b` that `a` holds, in the order of `b`.
pub fn intersection(a: &Vec<String>, b: &Vec<String>) -> (r: Vec<String>)
    requires
        distinct(b@),
    ensures
        distinct(r@),
        strings(r@) == strings(a@).intersect(strings(b@)),
{
    let mut r: Vec<String> = Vec::new();
    let ghost mut from: Seq<int> = Seq::empty();
    let mut e: usize = 0;
    while e < b.len()
        invariant
            distinct(b@),
            e <= b@.len(),
            from.len() == r@.len(),
            forall|j: int| 0 <= j < r@.len() ==> 0 <= #[trigger] from[j] < e && r@[j]@ == b@[from[j]]@,
            forall|j1: int, j2: int| 0 <= j1 < j2 < r@.len() ==> from[j1] < from[j2],
            forall|t: Seq<char>| #[trigger] strings(r@).contains(t) <==> strings(a@).contains(t) && exists|f: int| 0 <= f < e && b@[f]@ == t,
        decreases b@.len() - e,
    {
        match find_symbol(a, &b[e]) {
            Some(_) => {
                let ghost before = r@;
                r.push(b[e].clone());
                proof {
                    from = from.push(e as int);
                    assert forall|t: Seq<char>| #[trigger] strings(r@).contains(t) <==> strings(a@).contains(t)
                        && exists|f: int| 0 <= f < e + 1 && b@[f]@ == t by {
                        if strings(r@).contains(t) {
                            let j = choose|j: int| 0 <= j < r@.len() && #[trigger] r@[j]@ == t;
                            if j < before.len() {
                                assert(before[j]@ == t);
                                assert(strings(before).contains(t));
                            }
                        }
                        if strings(a@).contains(t) && exists|f: int| 0 <= f < e + 1 && b@[f]@ == t {
                            let f = choose|f: int| 0 <= f < e + 1 && b@[f]@ == t;
                            if f < e {
                                assert(strings(before).contains(t));
                                let j = choose|j: int| 0 <= j < before.len() && #[trigger] before[j]@ == t;
                                assert(r@[j]@ == t);
                            } else {
                                assert(r@[before.len() as int]@ == t);
                            }
                        }
                    }
                }
                proof {
                    if !strings(a@).contains(b@[e as int]@) {
                        let x = choose|x: int| 0 <= x < a@.len() && a@[x]@ == b@[e as int]@;
                    }
                }
            },
            None => {
                proof {
                    assert forall|t: Seq<char>| #[trigger] strings(r@).contains(t) <==> strings(a@).contains(t)
                        && exists|f: int| 0 <= f < e + 1 && b@[f]@ == t by {
                        if strings(a@).contains(t) && t == b@[e as int]@ {
                            let x = choose|x: int| 0 <= x < a@.len() && #[trigger] a@[x]@ == t;
                            assert(views(a@)[x] == t);
                        }
                    }
                }
            },
        }
        e = e + 1;
    }
    proof {
        assert forall|j1: int, j2: int| 0 <= j1 < r@.len() && 0 <= j2 < r@.len() && j1 != j2 implies r@[j1]@ != r@[j2]@ by {
            if j1 < j2 {
                assert(from[j1] < from[j2]);
            } else {
                assert(from[j2] < from[j1]);
            }
        }
        assert forall|t: Seq<char>| #[trigger] strings(r@).contains(t) <==> strings(a@).intersect(strings(b@)).contains(t) by {
            if strings(b@).contains(t) {
                let f = choose|f: int| 0 <= f < b@.len() && #[trigger] b@[f]@ == t;
            }
        }
        assert(strings(r@) =~= strings(a@).intersect(strings(b@)));
    }
    r
}

/// `a` reports the clash of a production that has one.
pub open spec fn reports(g: Seq<NonTerminal>, a: Ambiguity) -> bool {
    &&& a.non_terminal < g.len()
    &&& a.production < g[a.non_terminal as int].productions@.len()
    &&& a.name@ == g[a.non_terminal as int].name@
    &&& strings(a.terminals@) == clash(g, a.non_terminal as int, a.production as int)
    &&& clash(g, a.non_terminal as int, a.production as int) != Set::<Seq<char>>::empty()
}

/// Production `p` of `i` comes before production `q` of `j`.
pub open spec fn comes_before(i: int, p: int, j: int, q: int) -> bool {
    i < j || (i == j && p < q)
}

/// Each production, in order, whose PREDICT set meets those of the earlier
/// productions of its non-terminal, with the terminals in common.
pub fn find_ambiguities(nts: &Vec<NonTerminal>) -> (r: Vec<Ambiguity>)
    requires
        forall|i: int, p: int| 0 <= i < nts@.len() && 0 <= p < nts@[i].productions@.len()
            ==> distinct(#[trigger] nts@[i].productions@[p].predict_set@),
    ensures
        forall|j: int| 0 <= j < r@.len() ==> reports(nts@, #[trigger] r@[j]),
        forall|j1: int, j2: int| 0 <= j1 < j2 < r@.len() ==> comes_before(
            r@[j1].non_terminal as int, r@[j1].production as int, r@[j2].non_terminal as int, r@[j2].production as int),
        forall|i: int, p: int| 0 <= i < nts@.len() && 0 <= p < nts@[i].productions@.len()
            && #[trigger] clash(nts@, i, p) != Set::<Seq<char>>::empty()
            ==> exists|j: int| 0 <= j < r@.len() && r@[j].non_terminal == i && r@[j].production == p,
        r@.len() == 0 <==> no_ambiguity(nts@),
{
    let ghost g = nts@;
    let mut r: Vec<Ambiguity> = Vec::new();
    let mut i: usize = 0;
    while i < nts.len()
        invariant
            g == nts@,
            i <= g.len(),
            forall|x: int, p: int| 0 <= x < g.len() && 0 <= p < g[x].productions@.len()
                ==> distinct(#[trigger] g[x].productions@[p].predict_set@),
            forall|j: int| 0 <= j < r@.len() ==> reports(g, #[trigger] r@[j]) && r@[j].non_terminal < i,
            forall|j1: int, j2: int| 0 <= j1 < j2 < r@.len() ==> comes_before(
                r@[j1].non_terminal as int, r@[j1].production as int, r@[j2].non_terminal as int, r@[j2].production as int),
            forall|x: int, p: int| 0 <= x < i && 0 <= p < g[x].productions@.len()
                && #[trigger] clash(g, x, p) != Set::<Seq<char>>::empty()
                ==> exists|j: int| 0 <= j < r@.len() && r@[j].non_terminal == x && r@[j].production == p,
        decreases g.len() - i,
    {
        let prods = &nts[i].productions;
        let mut seen: Vec<String> = Vec::new();
        let mut p: usize = 0;
        proof {
            assert(strings(seen@) =~= seen_before(g, i as int, 0));
        }
        while p < prods.len()
            invariant
                g == nts@,
                i < g.len(),
                prods@ == g[i as int].productions@,
                p <= prods@.len(),
                forall|x: int, q: int| 0 <= x < g.len() && 0 <= q < g[x].productions@.len()
                    ==> distinct(#[trigger] g[x].productions@[q].predict_set@),
                sorted(seen@),
                strings(seen@) == seen_before(g, i as int, p as int),
                forall|j: int| 0 <= j < r@.len() ==> reports(g, #[trigger] r@[j])
                    && comes_before(r@[j].non_terminal as int, r@[j].production as int, i as int, p as int),
                forall|j1: int, j2: int| 0 <= j1 < j2 < r@.len() ==> comes_before(
                    r@[j1].non_terminal as int, r@[j1].production as int, r@[j2].non_terminal as int, r@[j2].production as int),
                forall|x: int, q: int| 0 <= x < g.len() && 0 <= q < g[x].productions@.len() && comes_before(x, q, i as int, p as int)
                    && #[trigger] clash(g, x, q) != Set::<Seq<char>>::empty()
                    ==> exists|j: int| 0 <= j < r@.len() && r@[j].non_terminal == x && r@[j].production == q,
            decreases prods@.len() - p,
        {
            let pred = &prods[p].predict_set;
            let inter = intersection(&seen, pred);
            assert(strings(inter@) == clash(g, i as int, p as int));
            let ghost r0 = r@;
            if inter.len() > 0 {
                proof {
                    assert(clash(g, i as int, p as int).contains(inter@[0]@));
                }
                let a = Ambiguity { non_terminal: i, production: p, name: nts[i].name.clone(), terminals: inter };
                r.push(a);
                proof {
                    assert(r@[r0.len() as int] == a);
                    assert forall|x: int, q: int| 0 <= x < g.len() && 0 <= q < g[x].productions@.len()
                        && comes_before(x, q, i as int, p + 1) && #[trigger] clash(g, x, q) != Set::<Seq<char>>::empty()
                        implies exists|j: int| 0 <= j < r@.len() && r@[j].non_terminal == x && r@[j].production == q by {
                        if comes_before(x, q, i as int, p as int) {
                            let j = choose|j: int| 0 <= j < r0.len() && r0[j].non_terminal == x && r0[j].production == q;
                            assert(r@[j] == r0[j]);
                        } else {
                            assert(r@[r0.len() as int].non_terminal == x);
                        }
                    }
                    assert forall|j: int| 0 <= j < r@.len() implies reports(g, #[trigger] r@[j])
                        && comes_before(r@[j].non_terminal as int, r@[j].production as int, i as int, p + 1) by {
                        if j < r0.len() {
                            assert(r@[j] == r0[j]);
                        }
                    }
                }
            } else {
                proof {
                    assert(strings(inter@) =~= Set::<Seq<char>>::empty());
                }
            }
            let ghost seen0 = seen@;
            add_all(&mut seen, pred);
            proof {
                assert forall|t: Seq<char>| #[trigger] strings(seen@).contains(t) == seen_before(g, i as int, p + 1).contains(t) by {
                    if seen_before(g, i as int, p + 1).contains(t) {
                        let q = choose|q: int| 0 <= q < p + 1 && #[trigger] pset(g, i as int, q).contains(t);
                        if q < p {
                            assert(seen_before(g, i as int, p as int).contains(t));
                        }
                    }
                    if strings(pred@).contains(t) {
                        assert(pset(g, i as int, p as int).contains(t));
                    }
                }
                assert(strings(seen@) =~= seen_before(g, i as int, p + 1));
            }
            p = p + 1;
        }
        i = i + 1;
    }
    proof {
        if r@.len() == 0 {
            assert forall|x: int, q: int| 0 <= x < g.len() && 0 <= q < g[x].productions@.len()
                implies #[trigger] clash(g, x, q) == Set::<Seq<char>>::empty() by {
                if clash(g, x, q) != Set::<Seq<char>>::empty() {
                    let j = choose|j: int| 0 <= j < r@.len() && r@[j].non_terminal == x && r@[j].production == q;
                }
            }
        } else {
            assert(reports(g, r@[0]));
        }
    }
    r
}

/// `w` without a final `EOF` terminal, which the start rule's FOLLOW set
/// already implies.
pub open spec fn without_eof(w: Seq<Token>) -> Seq<Token> {
    if w.len() > 0 && w.last().kind == TokenKind::Term && w.last().value@ == "EOF"@ {
        w.drop_last()
    } else {
        w
    }
}

/// The terminals that predict some production of `nt`.
pub open spec fn predicts_any(nt: NonTerminal) -> Set<Seq<char>> {
    Set::new(|t: Seq<char>| exists|p: int| 0 <= p < nt.productions@.len() && #[trigger] strings(nt.productions@[p].predict_set@).contains(t))
}

/// Sets `predict_set` to the union of the productions' PREDICT sets, and
/// drops a final `EOF` from each production.
fn finish_non_terminal(nt: &mut NonTerminal)
    requires
        forall|p: int| 0 <= p < old(nt).productions@.len() ==> distinct(#[trigger] old(nt).productions@[p].predict_set@),
    ensures
        final(nt).name == old(nt).name,
        final(nt).is_start_term == old(nt).is_start_term,
        final(nt).is_nullable == old(nt).is_nullable,
        final(nt).first_set == old(nt).first_set,
        final(nt).follow_set == old(nt).follow_set,
        final(nt).productions@.len() == old(nt).productions@.len(),
        forall|p: int| 0 <= p < old(nt).productions@.len() ==> (#[trigger] final(nt).productions@[p]).predict_set
            == old(nt).productions@[p].predict_set && final(nt).productions@[p].list@ == without_eof(old(nt).productions@[p].list@),
        strings(final(nt).predict_set@) == predicts_any(*old(nt)),
        distinct(final(nt).predict_set@) && sorted(final(nt).predict_set@),
{
    let ghost nt0 = *nt;
    let mut all: Vec<String> = Vec::new();
    let eof = String::from_str("EOF");
    let mut p: usize = 0;
    while p < nt.productions.len()
        invariant
            nt.name == nt0.name,
            nt.is_start_term == nt0.is_start_term,
            nt.is_nullable == nt0.is_nullable,
            nt.first_set == nt0.first_set,
            nt.follow_set == nt0.follow_set,
            eof@ == "EOF"@,
            forall|q: int| 0 <= q < nt0.productions@.len() ==> distinct(#[trigger] nt0.productions@[q].predict_set@),
            nt.productions@.len() == nt0.productions@.len(),
            p <= nt.productions@.len(),
            forall|q: int| 0 <= q < nt.productions@.len() ==> (#[trigger] nt.productions@[q]).predict_set == nt0.productions@[q].predict_set,
            forall|q: int| 0 <= q < p ==> (#[trigger] nt.productions@[q]).list@ == without_eof(nt0.productions@[q].list@),
            forall|q: int| p <= q < nt.productions@.len() ==> (#[trigger] nt.productions@[q]).list@ == nt0.productions@[q].list@,
            sorted(all@),
            forall|t: Seq<char>| #[trigger] strings(all@).contains(t) <==> exists|q: int| 0 <= q < p
                && #[trigger] strings(nt0.productions@[q].predict_set@).contains(t),
        decreases nt.productions@.len() - p,
    {
        let mut pr = Production::new();
        nt.productions.set_and_swap(p, &mut pr);
        let ghost all0 = all@;
        add_all(&mut all, &pr.predict_set);
        let n = pr.list.len();
        if n > 0 {
            if pr.list[n - 1].kind == TokenKind::Term && pr.list[n - 1].value == eof {
                pr.list.pop();
                assert(pr.list@ =~= nt0.productions@[p as int].list@.drop_last());
            }
        }
        nt.productions.set_and_swap(p, &mut pr);
        proof {
            assert forall|t: Seq<char>| #[trigger] strings(all@).contains(t) <==> exists|q: int| 0 <= q < p + 1
                && #[trigger] strings(nt0.productions@[q].predict_set@).contains(t) by {
                if exists|q: int| 0 <= q < p + 1 && #[trigger] strings(nt0.productions@[q].predict_set@).contains(t) {
                    let q = choose|q: int| 0 <= q < p + 1 && #[trigger] strings(nt0.productions@[q].predict_set@).contains(t);
                    if q < p {
                        assert(strings(all0).contains(t));
                    }
                }
            }
        }
        p = p + 1;
    }
    proof {
        lemma_sorted_distinct(all@);
    }
    nt.predict_set = all;
    proof {
        assert(strings(nt.predict_set@) =~= predicts_any(nt0));
    }
}

proof fn lemma_clash_same(g1: Seq<NonTerminal>, g2: Seq<NonTerminal>)
    requires
        g1.len() == g2.len(),
        forall|i: int| 0 <= i < g1.len() ==> #[trigger] g1[i].productions@.len() == g2[i].productions@.len(),
        forall|i: int, p: int| 0 <= i < g1.len() && 0 <= p < g1[i].productions@.len()
            ==> #[trigger] g1[i].productions@[p].predict_set == g2[i].productions@[p].predict_set,
    ensures
        forall|i: int, p: int| 0 <= i < g1.len() && 0 <= p < g1[i].productions@.len() ==> #[trigger] clash(g1, i, p) == clash(g2, i, p),
        no_ambiguity(g1) == no_ambiguity(g2),
{
    assert forall|i: int, p: int| 0 <= i < g1.len() && 0 <= p < g1[i].productions@.len() implies #[trigger] clash(g1, i, p) == clash(g2, i, p) by {
        assert forall|q: int| 0 <= q <= p implies #[trigger] pset(g1, i, q) == pset(g2, i, q) by {
            assert(g1[i].productions@[q].predict_set == g2[i].productions@[q].predict_set);
        }
        assert forall|t: Seq<char>| seen_before(g1, i, p).contains(t) == seen_before(g2, i, p).contains(t) by {
            if seen_before(g1, i, p).contains(t) {
                let q = choose|q: int| 0 <= q < p && #[trigger] pset(g1, i, q).contains(t);
                assert(pset(g2, i, q).contains(t));
            }
            if seen_before(g2, i, p).contains(t) {
                let q = choose|q: int| 0 <= q < p && #[trigger] pset(g2, i, q).contains(t);
                assert(pset(g1, i, q).contains(t));
            }
        }
        assert(seen_before(g1, i, p) =~= seen_before(g2, i, p));
        assert(clash(g1, i, p) =~= clash(g2, i, p));
    }
    if no_ambiguity(g1) {
        assert forall|i: int, p: int| 0 <= i < g2.len() && 0 <= p < g2[i].productions@.len()
            implies #[trigger] clash(g2, i, p) == Set::<Seq<char>>::empty() by {
            assert(clash(g1, i, p) == Set::<Seq<char>>::empty());
        }
    }
    if no_ambiguity(g2) {
        assert forall|i: int, p: int| 0 <= i < g1.len() && 0 <= p < g1[i].productions@.len()
            implies #[trigger] clash(g1, i, p) == Set::<Seq<char>>::empty() by {
            assert(clash(g2, i, p) == Set::<Seq<char>>::empty());
        }
    }
}

/// Computes nullability, then FIRST, then FOLLOW sets, in place.
pub fn analyse(nts: &mut Vec<NonTerminal>)
    requires
        well_formed(model(old(nts)@)),
    ensures
        final(nts)@.len() == old(nts)@.len(),
        model(final(nts)@) == model(old(nts)@),
        nullable_known(final(nts)@),
        first_known(final(nts)@),
        follow_known(final(nts)@),
        forall|i: int| 0 <= i < old(nts)@.len() ==> #[trigger] final(nts)@[i] == (NonTerminal {
            is_nullable: derives_empty(model(old(nts)@), old(nts)@[i].name@),
            first_set: final(nts)@[i].first_set,
            follow_set: final(nts)@[i].follow_set,
            ..old(nts)@[i]
        }),
        forall|i: int| 0 <= i < old(nts)@.len() ==> distinct(#[trigger] final(nts)@[i].first_set@) && distinct(final(nts)@[i].follow_set@)
            && sorted(final(nts)@[i].first_set@) && sorted(final(nts)@[i].follow_set@),
{
    let ghost g0 = nts@;
    let ghost m = model(g0);
    nullability(nts);
    let ghost g1 = nts@;
    proof {
        lemma_same_model(g0, g1);
        assert forall|i: int| 0 <= i < g1.len() implies #[trigger] g1[i].is_nullable == derives_empty(model(g1), g1[i].name@) by {
            assert(g1[i] == (NonTerminal { is_nullable: derives_empty(m, g0[i].name@), ..g0[i] }));
        }
    }
    first_sets(nts);
    let ghost g2 = nts@;
    proof {
        assert forall|i: int| 0 <= i < g2.len() implies #[trigger] g2[i] == (NonTerminal { first_set: g2[i].first_set, ..g1[i] }) by {}
        lemma_same_model(g1, g2);
        assert forall|i: int| 0 <= i < g2.len() implies #[trigger] g2[i].is_nullable == derives_empty(model(g2), g2[i].name@) by {
            assert(g2[i] == (NonTerminal { first_set: g2[i].first_set, ..g1[i] }));
            assert(g1[i].is_nullable == derives_empty(model(g1), g1[i].name@));
        }
        assert forall|i: int| 0 <= i < g2.len() implies strings(#[trigger] g2[i].first_set@) == first_stored(model(g2), g2[i].name@) by {
            assert(g2[i] == (NonTerminal { first_set: g2[i].first_set, ..g1[i] }));
        }
    }
    follow_sets(nts);
    let ghost g3 = nts@;
    proof {
        assert forall|i: int| 0 <= i < g3.len() implies #[trigger] g3[i] == (NonTerminal { follow_set: g3[i].follow_set, ..g2[i] }) by {}
        lemma_same_model(g2, g3);
        assert forall|i: int| 0 <= i < g3.len() implies #[trigger] g3[i].is_nullable == derives_empty(model(g3), g3[i].name@) by {
            assert(g3[i] == (NonTerminal { follow_set: g3[i].follow_set, ..g2[i] }));
            assert(g2[i].is_nullable == derives_empty(model(g2), g2[i].name@));
        }
        assert forall|i: int| 0 <= i < g3.len() implies strings(#[trigger] g3[i].first_set@) == first_stored(model(g3), g3[i].name@) by {
            assert(g3[i] == (NonTerminal { follow_set: g3[i].follow_set, ..g2[i] }));
            assert(strings(g2[i].first_set@) == first_stored(model(g2), g2[i].name@));
        }
        assert forall|i: int| 0 <= i < g3.len() implies strings(#[trigger] g3[i].follow_set@) == follow_of(model(g3), g3[i].name@) by {
            assert(g3[i] == (NonTerminal { follow_set: g3[i].follow_set, ..g2[i] }));
        }
        assert forall|i: int| 0 <= i < g0.len() implies #[trigger] g3[i] == (NonTerminal {
            is_nullable: derives_empty(m, g0[i].name@),
            first_set: g3[i].first_set,
            follow_set: g3[i].follow_set,
            ..g0[i]
        }) && distinct(g3[i].first_set@) && sorted(g3[i].first_set@) && distinct(g3[i].follow_set@) && sorted(g3[i].follow_set@) by {
            assert(g3[i] == (NonTerminal { follow_set: g3[i].follow_set, ..g2[i] }));
            assert(g2[i] == (NonTerminal { first_set: g2[i].first_set, ..g1[i] }));
            assert(g1[i] == (NonTerminal { is_nullable: derives_empty(m, g0[i].name@), ..g0[i] }));
        }
    }
}

/// `g1` is what the pipeline makes of `g0`: the same non-terminals with
/// nullability, FIRST, FOLLOW and PREDICT sets (each set once per element),
/// and productions without a final `EOF`.
pub open spec fn processed(g0: Seq<NonTerminal>, g1: Seq<NonTerminal>) -> bool {
    let m = model(g0);
    &&& g1.len() == g0.len()
    &&& forall|i: int| 0 <= i < g0.len() ==> (#[trigger] g1[i]).name == g0[i].name
        && g1[i].is_start_term == g0[i].is_start_term
        && g1[i].productions@.len() == g0[i].productions@.len()
        && g1[i].is_nullable == derives_empty(m, g0[i].name@)
        && strings(g1[i].first_set@) == first_stored(m, g0[i].name@)
        && distinct(g1[i].first_set@) && sorted(g1[i].first_set@)
        && strings(g1[i].follow_set@) == follow_of(m, g0[i].name@)
        && distinct(g1[i].follow_set@) && sorted(g1[i].follow_set@)
        && strings(g1[i].predict_set@) == Set::new(|t: Seq<char>| exists|p: int|
            0 <= p < g0[i].productions@.len() && #[trigger] predict_of(m, i, p).contains(t))
        && distinct(g1[i].predict_set@) && sorted(g1[i].predict_set@)
    &&& forall|i: int, p: int| 0 <= i < g0.len() && 0 <= p < g0[i].productions@.len()
        ==> strings((#[trigger] g1[i].productions@[p]).predict_set@) == predict_of(m, i, p)
            && distinct(g1[i].productions@[p].predict_set@) && sorted(g1[i].productions@[p].predict_set@)
            && g1[i].productions@[p].list@ == without_eof(g0[i].productions@[p].list@)
}

/// Running the pipeline on its own output changes no set, where no
/// production ends with `EOF` (the first run drops such a final `EOF`, which
/// changes the grammar that the second run sees).
pub proof fn lemma_process_idempotent(g0: Seq<NonTerminal>, g1: Seq<NonTerminal>, g2: Seq<NonTerminal>)
    requires
        processed(g0, g1),
        processed(g1, g2),
        forall|i: int, p: int| 0 <= i < g0.len() && 0 <= p < g0[i].productions@.len()
            ==> without_eof(#[trigger] g0[i].productions@[p].list@) == g0[i].productions@[p].list@,
    ensures
        forall|i: int| 0 <= i < g1.len() ==> #[trigger] g2[i].is_nullable == g1[i].is_nullable
            && strings(g2[i].first_set@) == strings(g1[i].first_set@)
            && strings(g2[i].follow_set@) == strings(g1[i].follow_set@)
            && strings(g2[i].predict_set@) == strings(g1[i].predict_set@),
        forall|i: int, p: int| 0 <= i < g1.len() && 0 <= p < g1[i].productions@.len()
            ==> strings((#[trigger] g2[i].productions@[p]).predict_set@) == strings(g1[i].productions@[p].predict_set@)
                && g2[i].productions@[p].list@ == g1[i].productions@[p].list@,
{
    assert forall|i: int, p: int| 0 <= i < g0.len() && 0 <= p < g0[i].productions@.len()
        implies #[trigger] g0[i].productions@[p].list@ == g1[i].productions@[p].list@ by {
        assert(g1[i].productions@[p].list@ == without_eof(g0[i].productions@[p].list@));
        assert(g0[i].productions@[p].list@ == g1[i].productions@[p].list@);
    }
    assert forall|i: int| 0 <= i < g0.len() implies #[trigger] g0[i].name == g1[i].name && g0[i].is_start_term == g1[i].is_start_term
        && g0[i].productions@.len() == g1[i].productions@.len() by {
        assert(g1[i].name == g0[i].name);
    }
    lemma_same_model(g0, g1);
    assert forall|i: int| 0 <= i < g1.len() implies #[trigger] g2[i].is_nullable == g1[i].is_nullable
        && strings(g2[i].first_set@) == strings(g1[i].first_set@)
        && strings(g2[i].follow_set@) == strings(g1[i].follow_set@)
        && strings(g2[i].predict_set@) == strings(g1[i].predict_set@) by {
        assert(g2[i].name == g1[i].name);
        assert(g1[i].name == g0[i].name);
    }
    assert forall|i: int, p: int| 0 <= i < g1.len() && 0 <= p < g1[i].productions@.len()
        implies strings((#[trigger] g2[i].productions@[p]).predict_set@) == strings(g1[i].productions@[p].predict_set@)
            && g2[i].productions@[p].list@ == g1[i].productions@[p].list@ by {
        assert(g1[i].productions@.len() == g0[i].productions@.len());
        assert(g1[i].productions@[p].list@ == without_eof(g0[i].productions@[p].list@));
    }
}

/// Runs the LL(1) analyses on a grammar: nullability, FIRST, FOLLOW and
/// PREDICT sets, then the ambiguity check; at last each non-terminal gets
/// the union of its productions' PREDICT sets and loses a final `EOF` in
/// each production. Returns the ambiguities found.
pub fn process(nts: &mut Vec<NonTerminal>) -> (r: Vec<Ambiguity>)
    requires
        well_formed(model(old(nts)@)),
    ensures
        processed(old(nts)@, final(nts)@),
        forall|j: int| 0 <= j < r@.len() ==> reports(final(nts)@, #[trigger] r@[j]),
        forall|j1: int, j2: int| 0 <= j1 < j2 < r@.len() ==> comes_before(
            r@[j1].non_terminal as int, r@[j1].production as int, r@[j2].non_terminal as int, r@[j2].production as int),
        forall|i: int, p: int| 0 <= i < final(nts)@.len() && 0 <= p < final(nts)@[i].productions@.len()
            && #[trigger] clash(final(nts)@, i, p) != Set::<Seq<char>>::empty()
            ==> exists|j: int| 0 <= j < r@.len() && r@[j].non_terminal == i && r@[j].production == p,
        r@.len() == 0 <==> no_ambiguity(final(nts)@),
{
    let ghost g0 = nts@;
    let ghost m = model(g0);
    analyse(nts);
    let ghost g3 = nts@;
    predict_sets(nts);
    let ghost g4 = nts@;
    let ambiguities = find_ambiguities(nts);
    let n = nts.len();
    let mut i: usize = 0;
    while i < n
        invariant
            n == g4.len(),
            nts@.len() == n,
            i <= n,
            forall|x: int| i <= x < n ==> #[trigger] nts@[x] == g4[x],
            forall|x: int| 0 <= x < n ==> (#[trigger] g4[x]).productions@.len() == g0[x].productions@.len(),
            forall|x: int, p: int| 0 <= x < n && 0 <= p < g4[x].productions@.len()
                ==> distinct(#[trigger] g4[x].productions@[p].predict_set@),
            forall|x: int| 0 <= x < i ==> (#[trigger] nts@[x]).name == g4[x].name
                && nts@[x].is_start_term == g4[x].is_start_term
                && nts@[x].is_nullable == g4[x].is_nullable
                && nts@[x].first_set == g4[x].first_set
                && nts@[x].follow_set == g4[x].follow_set
                && nts@[x].productions@.len() == g4[x].productions@.len()
                && strings(nts@[x].predict_set@) == predicts_any(g4[x])
                && distinct(nts@[x].predict_set@) && sorted(nts@[x].predict_set@),
            forall|x: int, p: int| 0 <= x < i && 0 <= p < g4[x].productions@.len()
                ==> (#[trigger] nts@[x].productions@[p]).predict_set == g4[x].productions@[p].predict_set
                    && nts@[x].productions@[p].list@ == without_eof(g4[x].productions@[p].list@),
        decreases n - i,
    {
        let mut nt = NonTerminal::new(String::new());
        nts.set_and_swap(i, &mut nt);
        finish_non_terminal(&mut nt);
        nts.set_and_swap(i, &mut nt);
        i = i + 1;
    }
    proof {
        let g5 = nts@;
        lemma_clash_same(g4, g5);
        assert forall|x: int| 0 <= x < g5.len() implies (#[trigger] g5[x]).name == g0[x].name
            && g5[x].is_start_term == g0[x].is_start_term
            && g5[x].productions@.len() == g0[x].productions@.len()
            && g5[x].is_nullable == derives_empty(m, g0[x].name@)
            && strings(g5[x].first_set@) == first_stored(m, g0[x].name@)
            && distinct(g5[x].first_set@) && sorted(g5[x].first_set@)
            && strings(g5[x].follow_set@) == follow_of(m, g0[x].name@)
            && distinct(g5[x].follow_set@) && sorted(g5[x].follow_set@)
            && strings(g5[x].predict_set@) == Set::new(|t: Seq<char>| exists|p: int|
                0 <= p < g0[x].productions@.len() && #[trigger] predict_of(m, x, p).contains(t))
            && distinct(g5[x].predict_set@) && sorted(g5[x].predict_set@) by {
            assert(g3[x] == (NonTerminal {
                is_nullable: derives_empty(m, g0[x].name@),
                first_set: g3[x].first_set,
                follow_set: g3[x].follow_set,
                ..g0[x]
            }));
            assert(g4[x] == (NonTerminal { productions: g4[x].productions, ..g3[x] }));
            assert(strings(g3[x].first_set@) == first_stored(model(g3), g3[x].name@));
            assert(strings(g3[x].follow_set@) == follow_of(model(g3), g3[x].name@));
            assert forall|t: Seq<char>| predicts_any(g4[x]).contains(t) == (exists|p: int|
                0 <= p < g0[x].productions@.len() && #[trigger] predict_of(m, x, p).contains(t)) by {
                if predicts_any(g4[x]).contains(t) {
                    let p = choose|p: int| 0 <= p < g4[x].productions@.len() && #[trigger] strings(g4[x].productions@[p].predict_set@).contains(t);
                    assert(strings(g4[x].productions@[p].predict_set@) == predict_of(model(g3), x, p));
                }
                if exists|p: int| 0 <= p < g0[x].productions@.len() && #[trigger] predict_of(m, x, p).contains(t) {
                    let p = choose|p: int| 0 <= p < g0[x].productions@.len() && #[trigger] predict_of(m, x, p).contains(t);
                    assert(strings(g4[x].productions@[p].predict_set@) == predict_of(model(g3), x, p));
                }
            }
            assert(predicts_any(g4[x]) =~= Set::new(|t: Seq<char>| exists|p: int|
                0 <= p < g0[x].productions@.len() && #[trigger] predict_of(m, x, p).contains(t)));
        }
        assert forall|x: int, p: int| 0 <= x < g0.len() && 0 <= p < g0[x].productions@.len()
            implies strings((#[trigger] g5[x].productions@[p]).predict_set@) == predict_of(m, x, p)
                && distinct(g5[x].productions@[p].predict_set@) && sorted(g5[x].productions@[p].predict_set@)
                && g5[x].productions@[p].list@ == without_eof(g0[x].productions@[p].list@) by {
            assert(g3[x] == (NonTerminal {
                is_nullable: derives_empty(m, g0[x].name@),
                first_set: g3[x].first_set,
                follow_set: g3[x].follow_set,
                ..g0[x]
            }));
            assert(g4[x].productions@[p].list == g3[x].productions@[p].list);
        }
        assert forall|j: int| 0 <= j < ambiguities@.len() implies reports(g5, #[trigger] ambiguities@[j]) by {
            assert(reports(g4, ambiguities@[j]));
        }
        assert forall|x: int, p: int| 0 <= x < g5.len() && 0 <= p < g5[x].productions@.len()
            && #[trigger] clash(g5, x, p) != Set::<Seq<char>>::empty()
            implies exists|j: int| 0 <= j < ambiguities@.len() && ambiguities@[j].non_terminal == x && ambiguities@[j].production == p by {
            assert(clash(g4, x, p) == clash(g5, x, p));
        }
    }
    ambiguities
}

/// The LL(1) back end on an analysed grammar: PREDICT sets of every
/// production, then the ambiguities among them.
pub fn ll_process(nts: &mut Vec<NonTerminal>) -> (r: Vec<Ambiguity>)
    requires
        well_formed(model(old(nts)@)),
        nullable_known(old(nts)@),
        first_known(old(nts)@),
        follow_known(old(nts)@),
    ensures
        final(nts)@.len() == old(nts)@.len(),
        forall|i: int| 0 <= i < old(nts)@.len() ==> #[trigger] final(nts)@[i] == (NonTerminal {
            productions: final(nts)@[i].productions,
            ..old(nts)@[i]
        }),
        forall|i: int| 0 <= i < old(nts)@.len() ==> (#[trigger] final(nts)@[i]).productions@.len() == old(nts)@[i].productions@.len(),
        forall|i: int, p: int| 0 <= i < old(nts)@.len() && 0 <= p < old(nts)@[i].productions@.len()
            ==> (#[trigger] final(nts)@[i].productions@[p]).list == old(nts)@[i].productions@[p].list,
        forall|i: int, p: int| 0 <= i < old(nts)@.len() && 0 <= p < old(nts)@[i].productions@.len()
            ==> strings((#[trigger] final(nts)@[i].productions@[p]).predict_set@) == predict_of(model(old(nts)@), i, p)
                && sorted(final(nts)@[i].productions@[p].predict_set@),
        forall|j: int| 0 <= j < r@.len() ==> reports(final(nts)@, #[trigger] r@[j]),
        forall|j1: int, j2: int| 0 <= j1 < j2 < r@.len() ==> comes_before(
            r@[j1].non_terminal as int, r@[j1].production as int, r@[j2].non_terminal as int, r@[j2].production as int),
        forall|i: int, p: int| 0 <= i < final(nts)@.len() && 0 <= p < final(nts)@[i].productions@.len()
            && #[trigger] clash(final(nts)@, i, p) != Set::<Seq<char>>::empty()
            ==> exists|j: int| 0 <= j < r@.len() && r@[j].non_terminal == i && r@[j].production == p,
        r@.len() == 0 <==> no_ambiguity(final(nts)@),
        r@.len() == 0 <==> pairwise_disjoint(final(nts)@),
{
    predict_sets(nts);
    let r = find_ambiguities(nts);
    proof {
        lemma_ll1_iff_disjoint(nts@);
    }
    r
}

/// An empty production makes its non-terminal derive ε, and FOLLOW of the
/// non-terminal predicts it.
pub proof fn lemma_empty_production(m: Seq<Rule>, i: int, p: int)
    requires
        0 <= i < m.len(),
        0 <= p < m[i].2.len(),
        m[i].2[p].len() == 0,
    ensures
        derives_empty(m, m[i].0),
        follow_of(m, m[i].0).subset_of(predict_of(m, i, p)),
{
    crate::productions::lemma_null_unfold(m, 0, m[i].0);
    assert(crate::productions::all_ids_in(m[i].2[p], crate::productions::null_set(m, 0)));
    assert(crate::productions::null_within(m, 1, m[i].0));
    assert(all_nullable(m, m[i].2[p]));
}

/// When the start symbol derives ε, `EOF` predicts each of its productions
/// that derives ε.
pub proof fn lemma_nullable_start_predicts_eof(m: Seq<Rule>, i: int, p: int)
    requires
        !crate::productions::is_nt(m, "EOF"@),
        0 <= i < m.len(),
        m[i].1,
        0 <= p < m[i].2.len(),
        all_nullable(m, m[i].2[p]),
    ensures
        predict_of(m, i, p).contains("EOF"@),
        follow_of(m, m[i].0).contains("EOF"@),
{
    assert(crate::first_follow::follow_edge(m, m[i].0, "EOF"@));
    assert(crate::first_follow::follow_rel(m)(m[i].0, "EOF"@));
    crate::reach::lemma_rel_edge(crate::first_follow::follow_rel(m), m[i].0, "EOF"@);
}

} // verus!
