//! The grammar IR: non-terminals and their productions, with the model that
//! the analyses are stated over, and the nullability analysis.
use vstd::prelude::*;
use crate::reach::{count_true, lemma_count_true_bound, lemma_count_true_grow};
use crate::scanner::{Token, TokenKind};

verus! {

/// One alternative of a non-terminal, with the terminals that predict it.
#[derive(Debug)]
pub struct Production {
    pub list: Vec<Token>,
    pub predict_set: Vec<String>,
}

/// A non-terminal with its productions and the sets the analyses fill in.
#[derive(Debug)]
pub struct NonTerminal {
    pub name: String,
    pub is_start_term: bool,
    pub is_nullable: bool,
    pub first_set: Vec<String>,
    pub follow_set: Vec<String>,
    pub productions: Vec<Production>,
    pub predict_set: Vec<String>,
}

impl Production {
    pub fn new() -> (r: Production)
        ensures
            r.list@.len() == 0,
            r.predict_set@.len() == 0,
    {
        Production { list: Vec::new(), predict_set: Vec::new() }
    }

    pub fn push(&mut self, token: Token)
        ensures
            final(self).list@ == old(self).list@.push(token),
            final(self).predict_set == old(self).predict_set,
    {
        self.list.push(token);
    }

    pub fn push_to_front(&mut self, token: Token)
        ensures
            final(self).list@ == seq![token] + old(self).list@,
            final(self).predict_set == old(self).predict_set,
    {
        self.list.insert(0, token);
        proof {
            assert(self.list@ =~= seq![token] + old(self).list@);
        }
    }
}

impl NonTerminal {
    pub fn new(name: String) -> (r: NonTerminal)
        ensures
            r.name@ == name@,
            !r.is_start_term,
            !r.is_nullable,
            r.first_set@.len() == 0,
            r.follow_set@.len() == 0,
            r.productions@.len() == 0,
            r.predict_set@.len() == 0,
    {
        NonTerminal {
            name,
            is_start_term: false,
            is_nullable: false,
            first_set: Vec::new(),
            follow_set: Vec::new(),
            productions: Vec::new(),
            predict_set: Vec::new(),
        }
    }
}

/// A grammar symbol as the analyses see it: its kind and its name.
pub type Sym = (TokenKind, Seq<char>);

/// A non-terminal as the analyses see it: its name, whether it is the start
/// symbol, and the symbols of each production.
pub type Rule = (Seq<char>, bool, Seq<Seq<Sym>>);

pub open spec fn sym(t: Token) -> Sym {
    (t.kind, t.value@)
}

pub open spec fn syms(w: Seq<Token>) -> Seq<Sym> {
    w.map_values(|t: Token| sym(t))
}

pub open spec fn rule(nt: NonTerminal) -> Rule {
    (nt.name@, nt.is_start_term, nt.productions@.map_values(|pr: Production| syms(pr.list@)))
}

/// The grammar that a list of non-terminals describes.
pub open spec fn model(g: Seq<NonTerminal>) -> Seq<Rule> {
    g.map_values(|nt: NonTerminal| rule(nt))
}

/// The set of strings held in a list.
pub open spec fn strings(v: Seq<String>) -> Set<Seq<char>> {
    Set::new(|s: Seq<char>| exists|k: int| 0 <= k < v.len() && #[trigger] v[k]@ == s)
}

/// No string occurs twice in a list.
pub open spec fn distinct(v: Seq<String>) -> bool {
    forall|a: int, b: int| 0 <= a < v.len() && 0 <= b < v.len() && a != b ==> v[a]@ != v[b]@
}

pub open spec fn is_nt(m: Seq<Rule>, s: Seq<char>) -> bool {
    exists|i: int| 0 <= i < m.len() && #[trigger] m[i].0 == s
}

/// A symbol is either an identifier naming a non-terminal, or a terminal that
/// names none.
pub open spec fn classified(m: Seq<Rule>, t: Sym) -> bool {
    ||| t.0 == TokenKind::Id && is_nt(m, t.1)
    ||| t.0 == TokenKind::Term && !is_nt(m, t.1)
}

/// The shape that the analyses assume of a grammar: unique names and
/// classified symbols.
pub open spec fn well_formed(m: Seq<Rule>) -> bool {
    &&& forall|i: int, j: int| 0 <= i < m.len() && 0 <= j < m.len() && #[trigger] m[i].0 == #[trigger] m[j].0 ==> i == j
    &&& forall|i: int, p: int, k: int|
        0 <= i < m.len() && 0 <= p < m[i].2.len() && 0 <= k < m[i].2[p].len() ==> classified(m, #[trigger] m[i].2[p][k])
}

/// Every symbol of `w` is a non-terminal whose name is in `ok`.
pub open spec fn all_ids_in(w: Seq<Sym>, ok: Set<Seq<char>>) -> bool {
    forall|j: int| 0 <= j < w.len() ==> (#[trigger] w[j]).0 == TokenKind::Id && ok.contains(w[j].1)
}

/// `s` names a non-terminal with a production all of whose symbols are in `ok`.
pub open spec fn has_prod_in(m: Seq<Rule>, s: Seq<char>, ok: Set<Seq<char>>) -> bool {
    exists|i: int, p: int| 0 <= i < m.len() && m[i].0 == s && 0 <= p < m[i].2.len() && #[trigger] all_ids_in(m[i].2[p], ok)
}

/// The non-terminals that derive the empty string within `k` rounds.
pub open spec fn null_set(m: Seq<Rule>, k: nat) -> Set<Seq<char>>
    decreases k,
{
    if k == 0 {
        Set::empty()
    } else {
        Set::new(|s: Seq<char>| has_prod_in(m, s, null_set(m, (k - 1) as nat)))
    }
}

pub open spec fn null_within(m: Seq<Rule>, k: nat, s: Seq<char>) -> bool {
    null_set(m, k).contains(s)
}

pub proof fn lemma_null_unfold(m: Seq<Rule>, k: nat, s: Seq<char>)
    ensures
        null_within(m, k + 1, s) == has_prod_in(m, s, null_set(m, k)),
{
    assert(((k + 1) - 1) as nat == k);
}

/// `s` derives the empty string: `s =>* ε`.
pub open spec fn derives_empty(m: Seq<Rule>, s: Seq<char>) -> bool {
    exists|k: nat| null_within(m, k, s)
}

/// Every symbol of `w` is a non-terminal that derives the empty string, so
/// that `w =>* ε`.
pub open spec fn all_nullable(m: Seq<Rule>, w: Seq<Sym>) -> bool {
    forall|j: int| 0 <= j < w.len() ==> (#[trigger] w[j]).0 == TokenKind::Id && derives_empty(m, w[j].1)
}

proof fn lemma_null_mono(m: Seq<Rule>, k: nat, s: Seq<char>)
    requires
        null_within(m, k, s),
    ensures
        null_within(m, k + 1, s),
    decreases k,
{
    let k1 = (k - 1) as nat;
    lemma_null_unfold(m, k1, s);
    lemma_null_unfold(m, k, s);
    let (i, p) = choose|i: int, p: int|
        0 <= i < m.len() && m[i].0 == s && 0 <= p < m[i].2.len() && #[trigger] all_ids_in(m[i].2[p], null_set(m, k1));
    assert forall|j: int| 0 <= j < m[i].2[p].len() implies (#[trigger] m[i].2[p][j]).0 == TokenKind::Id
        && null_set(m, k).contains(m[i].2[p][j].1) by {
        lemma_null_mono(m, k1, m[i].2[p][j].1);
    }
    assert(all_ids_in(m[i].2[p], null_set(m, k)));
}

proof fn lemma_null_mono_to(m: Seq<Rule>, k: nat, n: nat, s: Seq<char>)
    requires
        null_within(m, k, s),
        k <= n,
    ensures
        null_within(m, n, s),
    decreases n - k,
{
    if k < n {
        lemma_null_mono(m, k, s);
        lemma_null_mono_to(m, k + 1, n, s);
    }
}

/// Once a round changes nothing, no later round does.
proof fn lemma_null_stable(m: Seq<Rule>, k: nat, n: nat, s: Seq<char>)
    requires
        forall|i: int| 0 <= i < m.len() ==> null_within(m, k + 1, #[trigger] m[i].0) == null_within(m, k, m[i].0),
        k <= n,
    ensures
        null_within(m, n, s) == null_within(m, k, s),
    decreases n - k,
{
    if k < n {
        lemma_null_stable(m, k, (n - 1) as nat, s);
        assert forall|t: Seq<char>| #![auto] null_within(m, (n - 1) as nat, t) == null_within(m, k, t) by {
            lemma_null_stable(m, k, (n - 1) as nat, t);
        }
        lemma_null_same_step(m, (n - 1) as nat, k, s);
        lemma_null_unfold(m, k, s);
        lemma_null_unfold(m, (k - 1) as nat, s);
    }
}

proof fn lemma_null_same_step(m: Seq<Rule>, a: nat, b: nat, s: Seq<char>)
    requires
        forall|t: Seq<char>| #![auto] null_within(m, a, t) == null_within(m, b, t),
    ensures
        null_within(m, a + 1, s) == null_within(m, b + 1, s),
{
    lemma_null_unfold(m, a, s);
    lemma_null_unfold(m, b, s);
    assert forall|t: Seq<char>| null_set(m, a).contains(t) == null_set(m, b).contains(t) by {
        assert(null_within(m, a, t) == null_within(m, b, t));
    }
    assert(null_set(m, a) =~= null_set(m, b));
}

/// The first `j` symbols of `w` derive ε within `n` rounds.
pub open spec fn all_within(m: Seq<Rule>, n: nat, w: Seq<Sym>, j: int) -> bool {
    forall|x: int| 0 <= x < j ==> null_within(m, n, #[trigger] w[x].1)
}

proof fn lemma_common_round(m: Seq<Rule>, w: Seq<Sym>, j: int)
    requires
        0 <= j <= w.len(),
        all_nullable(m, w),
    ensures
        exists|n: nat| #[trigger] all_within(m, n, w, j),
    decreases j,
{
    if j == 0 {
        assert(all_within(m, 0, w, 0));
    } else {
        lemma_common_round(m, w, j - 1);
        let n0 = choose|n: nat| #[trigger] all_within(m, n, w, j - 1);
        assert(w[j - 1].0 == TokenKind::Id && derives_empty(m, w[j - 1].1));
        let n1 = choose|n: nat| #[trigger] null_set(m, n).contains(w[j - 1].1);
        let n = if n0 < n1 { n1 } else { n0 };
        assert forall|x: int| 0 <= x < j implies null_within(m, n, #[trigger] w[x].1) by {
            if x < j - 1 {
                lemma_null_mono_to(m, n0, n, w[x].1);
            } else {
                lemma_null_mono_to(m, n1, n, w[x].1);
            }
        }
        assert(all_within(m, n, w, j));
    }
}

/// A non-terminal with a production whose symbols all derive ε derives ε
/// too (an empty production among them).
pub proof fn lemma_nullable_production(m: Seq<Rule>, i: int, p: int)
    requires
        0 <= i < m.len(),
        0 <= p < m[i].2.len(),
        all_nullable(m, m[i].2[p]),
    ensures
        derives_empty(m, m[i].0),
{
    let w = m[i].2[p];
    lemma_common_round(m, w, w.len() as int);
    let n = choose|n: nat| #[trigger] all_within(m, n, w, w.len() as int);
    lemma_null_unfold(m, n, m[i].0);
    assert(all_ids_in(w, null_set(m, n)));
    assert(null_within(m, n + 1, m[i].0));
}

/// Two lists of non-terminals with the same names, start flags and
/// production symbols describe the same grammar.
pub proof fn lemma_same_model(a: Seq<NonTerminal>, b: Seq<NonTerminal>)
    requires
        a.len() == b.len(),
        forall|i: int| 0 <= i < a.len() ==> #[trigger] a[i].name == b[i].name && a[i].is_start_term == b[i].is_start_term
            && a[i].productions@.len() == b[i].productions@.len(),
        forall|i: int, p: int| 0 <= i < a.len() && 0 <= p < a[i].productions@.len()
            ==> #[trigger] a[i].productions@[p].list@ == b[i].productions@[p].list@,
    ensures
        model(a) == model(b),
{
    assert forall|i: int| 0 <= i < a.len() implies #[trigger] model(a)[i] == model(b)[i] by {
        assert forall|p: int| 0 <= p < rule(a[i]).2.len() implies #[trigger] rule(a[i]).2[p] == rule(b[i]).2[p] by {
            assert(a[i].productions@[p].list@ == b[i].productions@[p].list@);
        }
        assert(rule(a[i]).2 =~= rule(b[i]).2);
        assert(model(a)[i] == rule(a[i]));
        assert(model(b)[i] == rule(b[i]));
    }
    assert(model(a) =~= model(b));
}

/// The index of the non-terminal called `name`.
pub fn find_non_terminal(nts: &Vec<NonTerminal>, name: &String) -> (r: Option<usize>)
    ensures
        match r {
            Some(i) => i < nts@.len() && nts@[i as int].name@ == name@,
            None => !is_nt(model(nts@), name@),
        },
{
    let ghost m = model(nts@);
    let mut i: usize = 0;
    while i < nts.len()
        invariant
            m == model(nts@),
            i <= nts@.len(),
            forall|j: int| 0 <= j < i ==> nts@[j].name@ != name@,
        decreases nts@.len() - i,
    {
        if nts[i].name == *name {
            return Some(i);
        }
        i = i + 1;
    }
    proof {
        assert forall|j: int| 0 <= j < m.len() implies #[trigger] m[j].0 != name@ by {
            assert(m[j].0 == nts@[j].name@);
        }
    }
    None
}

/// One round of the nullability fixed point: from the non-terminals known
/// nullable within `k` rounds, those nullable within `k + 1`.
fn nullability_round(nts: &Vec<NonTerminal>, cur: &Vec<bool>, Ghost(k): Ghost<nat>) -> (next: Vec<bool>)
    requires
        well_formed(model(nts@)),
        cur@.len() == nts@.len(),
        forall|i: int| 0 <= i < nts@.len() ==> cur@[i] == null_within(model(nts@), k, #[trigger] model(nts@)[i].0),
    ensures
        next@.len() == nts@.len(),
        forall|i: int| 0 <= i < nts@.len() ==> next@[i] == null_within(model(nts@), k + 1, #[trigger] model(nts@)[i].0),
{
    let ghost m = model(nts@);
    let mut next: Vec<bool> = Vec::new();
    let mut i: usize = 0;
    while i < nts.len()
        invariant
            m == model(nts@),
            well_formed(m),
            cur@.len() == m.len(),
            forall|x: int| 0 <= x < m.len() ==> cur@[x] == null_within(m, k, #[trigger] m[x].0),
            i <= m.len(),
            next@.len() == i,
            forall|x: int| 0 <= x < i ==> next@[x] == null_within(m, k + 1, #[trigger] m[x].0),
        decreases m.len() - i,
    {
        let prods = &nts[i].productions;
        let mut found = false;
        let mut p: usize = 0;
        while p < prods.len() && !found
            invariant
                m == model(nts@),
                well_formed(m),
                cur@.len() == m.len(),
                forall|x: int| 0 <= x < m.len() ==> cur@[x] == null_within(m, k, #[trigger] m[x].0),
                i < m.len(),
                prods@ == nts@[i as int].productions@,
                p <= prods@.len(),
                found ==> null_within(m, k + 1, m[i as int].0),
                !found ==> forall|q: int| 0 <= q < p ==> !#[trigger] all_ids_in(m[i as int].2[q], null_set(m, k)),
            decreases prods@.len() - p,
        {
            let list = &prods[p].list;
            let ghost w = m[i as int].2[p as int];
            assert(w == syms(list@));
            let mut all = true;
            let mut j: usize = 0;
            while j < list.len() && all
                invariant
                    m == model(nts@),
                    well_formed(m),
                    cur@.len() == m.len(),
                    forall|x: int| 0 <= x < m.len() ==> cur@[x] == null_within(m, k, #[trigger] m[x].0),
                    i < m.len(),
                    p < m[i as int].2.len(),
                    w == m[i as int].2[p as int],
                    w == syms(list@),
                    j <= list@.len(),
                    all ==> forall|y: int| 0 <= y < j ==> (#[trigger] w[y]).0 == TokenKind::Id
                        && null_set(m, k).contains(w[y].1),
                    !all ==> !all_ids_in(w, null_set(m, k)),
                decreases list@.len() - j,
            {
                let tok = &list[j];
                assert(w[j as int] == sym(list@[j as int]));
                assert(classified(m, m[i as int].2[p as int][j as int]));
                if tok.kind != TokenKind::Id {
                    all = false;
                } else {
                    match find_non_terminal(nts, &tok.value) {
                        Some(x) => {
                            assert(m[x as int].0 == nts@[x as int].name@);
                            if !cur[x] {
                                all = false;
                            }
                        },
                        None => {
                            all = false;
                        },
                    }
                }
                j = j + 1;
            }
            if all {
                found = true;
                assert(all_ids_in(w, null_set(m, k)));
                proof { lemma_null_unfold(m, k, m[i as int].0); }
            }
            p = p + 1;
        }
        proof {
            lemma_null_unfold(m, k, m[i as int].0);
            if !found {
                if has_prod_in(m, m[i as int].0, null_set(m, k)) {
                    let (a, q) = choose|a: int, q: int|
                        0 <= a < m.len() && m[a].0 == m[i as int].0 && 0 <= q < m[a].2.len()
                            && #[trigger] all_ids_in(m[a].2[q], null_set(m, k));
                    assert(a == i);
                }
            }
        }
        next.push(found);
        i = i + 1;
    }
    next
}

/// Sets `is_nullable` of every non-terminal to whether it derives the empty
/// string, by a fixed point over rounds.
pub fn nullability(nts: &mut Vec<NonTerminal>)
    requires
        well_formed(model(old(nts)@)),
    ensures
        final(nts)@.len() == old(nts)@.len(),
        forall|i: int| 0 <= i < old(nts)@.len() ==> #[trigger] final(nts)@[i] == (NonTerminal {
            is_nullable: derives_empty(model(old(nts)@), old(nts)@[i].name@),
            ..old(nts)@[i]
        }),
{
    let ghost g = nts@;
    let ghost m = model(g);
    let n = nts.len();
    let mut cur: Vec<bool> = Vec::new();
    let mut i: usize = 0;
    while i < n
        invariant
            g == nts@,
            n == g.len(),
            i <= n,
            cur@.len() == i,
            forall|x: int| 0 <= x < i ==> !cur@[x],
        decreases n - i,
    {
        cur.push(false);
        i = i + 1;
    }
    let ghost mut k: nat = 0;
    let mut done = false;
    proof { lemma_count_true_bound(cur@); }
    while !done
        invariant
            g == nts@,
            m == model(g),
            well_formed(m),
            n == g.len(),
            cur@.len() == n,
            count_true(cur@) <= n,
            forall|x: int| 0 <= x < n ==> cur@[x] == null_within(m, k, #[trigger] m[x].0),
            done ==> forall|x: int| 0 <= x < n ==> null_within(m, k + 1, #[trigger] m[x].0) == null_within(m, k, m[x].0),
        decreases n - count_true(cur@) + if done { 0int } else { 1int },
    {
        let next = nullability_round(nts, &cur, Ghost(k));
        proof {
            lemma_count_true_bound(next@);
            assert forall|x: int| 0 <= x < n && cur@[x] implies next@[x] by {
                lemma_null_mono(m, k, m[x].0);
            }
        }
        let mut same = true;
        let mut x: usize = 0;
        while x < n
            invariant
                n == cur@.len(),
                n == next@.len(),
                x <= n,
                same == forall|y: int| 0 <= y < x ==> cur@[y] == next@[y],
            decreases n - x,
        {
            if cur[x] != next[x] {
                same = false;
            }
            x = x + 1;
        }
        if same {
            done = true;
        } else {
            proof {
                lemma_count_true_grow(cur@, next@);
                k = k + 1;
            }
            cur = next;
        }
    }
    proof {
        assert forall|x: int| 0 <= x < n implies cur@[x] == derives_empty(m, #[trigger] m[x].0) by {
            let s = m[x].0;
            if derives_empty(m, s) {
                let j = choose|j: nat| null_within(m, j, s);
                if j <= k {
                    lemma_null_mono_to(m, j, k, s);
                } else {
                    lemma_null_stable(m, k, j, s);
                }
            }
        }
    }
    let mut i: usize = 0;
    while i < n
        invariant
            g.len() == n,
            m == model(g),
            n == cur@.len(),
            nts@.len() == n,
            i <= n,
            forall|x: int| 0 <= x < n ==> cur@[x] == derives_empty(m, #[trigger] m[x].0),
            forall|x: int| 0 <= x < i ==> #[trigger] nts@[x] == (NonTerminal { is_nullable: derives_empty(m, g[x].name@), ..g[x] }),
            forall|x: int| i <= x < n ==> #[trigger] nts@[x] == g[x],
        decreases n - i,
    {
        let mut slot = NonTerminal::new(String::new());
        nts.set_and_swap(i, &mut slot);
        assert(m[i as int].0 == g[i as int].name@);
        slot.is_nullable = cur[i];
        nts.set_and_swap(i, &mut slot);
        i = i + 1;
    }
}

} // verus!
