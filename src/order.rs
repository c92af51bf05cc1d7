//! Lexicographic order on strings, and lists of strings kept in that order.
use vstd::prelude::*;
use crate::productions::{distinct, strings};
use crate::scanner::chars_of;

verus! {

/// `a` comes before `b` in lexicographic order of character codes.
pub open spec fn lex_lt(a: Seq<char>, b: Seq<char>) -> bool
    decreases a.len(),
{
    if a.len() == 0 {
        b.len() > 0
    } else if b.len() == 0 {
        false
    } else if a[0] != b[0] {
        (a[0] as u32) < (b[0] as u32)
    } else {
        lex_lt(a.skip(1), b.skip(1))
    }
}

/// Each string comes before the next.
pub open spec fn sorted(v: Seq<String>) -> bool {
    forall|i: int, j: int| 0 <= i < j < v.len() ==> lex_lt(v[i]@, v[j]@)
}

proof fn lemma_lex_irreflexive(a: Seq<char>)
    ensures
        !lex_lt(a, a),
    decreases a.len(),
{
    if a.len() > 0 {
        lemma_lex_irreflexive(a.skip(1));
    }
}

proof fn lemma_lex_trans(a: Seq<char>, b: Seq<char>, c: Seq<char>)
    requires
        lex_lt(a, b),
        lex_lt(b, c),
    ensures
        lex_lt(a, c),
    decreases a.len(),
{
    if a.len() > 0 && b.len() > 0 && c.len() > 0 && a[0] == b[0] && b[0] == c[0] {
        lemma_lex_trans(a.skip(1), b.skip(1), c.skip(1));
    }
}

proof fn lemma_char_code(x: char, y: char)
    requires
        x != y,
    ensures
        (x as u32) != (y as u32),
{
    assert((x as int) != (y as int));
    assert((x as u32) as int == x as int);
    assert((y as u32) as int == y as int);
}

proof fn lemma_lex_total(a: Seq<char>, b: Seq<char>)
    requires
        a != b,
    ensures
        lex_lt(a, b) || lex_lt(b, a),
    decreases a.len(),
{
    if a.len() > 0 && b.len() > 0 && a[0] == b[0] {
        if a.skip(1) == b.skip(1) {
            assert(a =~= seq![a[0]] + a.skip(1));
            assert(b =~= seq![b[0]] + b.skip(1));
        }
        lemma_lex_total(a.skip(1), b.skip(1));
    } else if a.len() > 0 && b.len() > 0 {
        lemma_char_code(a[0], b[0]);
    } else if a.len() == 0 && b.len() == 0 {
        assert(a =~= b);
    }
}

/// A sorted list holds each string once.
pub proof fn lemma_sorted_distinct(v: Seq<String>)
    requires
        sorted(v),
    ensures
        distinct(v),
{
    assert forall|a: int, b: int| 0 <= a < v.len() && 0 <= b < v.len() && a != b implies v[a]@ != v[b]@ by {
        if a < b {
            assert(lex_lt(v[a]@, v[b]@));
            if v[a]@ == v[b]@ {
                lemma_lex_irreflexive(v[a]@);
            }
        } else {
            assert(lex_lt(v[b]@, v[a]@));
            if v[a]@ == v[b]@ {
                lemma_lex_irreflexive(v[a]@);
            }
        }
    }
}

/// Whether `a` comes before `b`.
pub fn lex_less(a: &String, b: &String) -> (r: bool)
    ensures
        r == lex_lt(a@, b@),
{
    let x = chars_of(a.as_str());
    let y = chars_of(b.as_str());
    let mut i: usize = 0;
    assert(x@.skip(0) =~= x@);
    assert(y@.skip(0) =~= y@);
    assert(x@.take(0) =~= y@.take(0));
    while i < x.len() && i < y.len() && x[i] == y[i]
        invariant
            x@ == a@,
            y@ == b@,
            i <= x@.len(),
            i <= y@.len(),
            x@.take(i as int) == y@.take(i as int),
            lex_lt(a@, b@) == lex_lt(x@.skip(i as int), y@.skip(i as int)),
        decreases x@.len() - i,
    {
        proof {
            let xs = x@.skip(i as int);
            let ys = y@.skip(i as int);
            assert(xs[0] == ys[0]);
            assert(xs.skip(1) =~= x@.skip(i + 1));
            assert(ys.skip(1) =~= y@.skip(i + 1));
            assert(x@.take(i + 1) =~= x@.take(i as int).push(x@[i as int]));
            assert(y@.take(i + 1) =~= y@.take(i as int).push(y@[i as int]));
        }
        i = i + 1;
    }
    proof {
        assert(x@.skip(i as int).len() == x@.len() - i);
        assert(y@.skip(i as int).len() == y@.len() - i);
    }
    if i == x.len() {
        i < y.len()
    } else if i == y.len() {
        false
    } else {
        proof {
            assert(x@.skip(i as int)[0] == x@[i as int]);
            assert(y@.skip(i as int)[0] == y@[i as int]);
        }
        (x[i] as u32) < (y[i] as u32)
    }
}

/// Adds `s` to a sorted list unless the list holds it already; the list
/// stays sorted.
pub fn insert_sorted(set: &mut Vec<String>, s: &String)
    requires
        sorted(old(set)@),
    ensures
        sorted(final(set)@),
        strings(final(set)@) == strings(old(set)@).insert(s@),
{
    let ghost set0 = set@;
    let mut k: usize = 0;
    while k < set.len() && lex_less(&set[k], s)
        invariant
            set@ == set0,
            k <= set@.len(),
            forall|i: int| 0 <= i < k ==> lex_lt(set@[i]@, s@),
        decreases set@.len() - k,
    {
        k = k + 1;
    }
    if k < set.len() && set[k] == *s {
        proof {
            assert(strings(set@) =~= strings(set0).insert(s@)) by {
                assert(set@[k as int]@ == s@);
            }
        }
        return;
    }
    proof {
        if k < set@.len() {
            assert(!lex_lt(set@[k as int]@, s@));
            assert(set@[k as int]@ != s@);
            lemma_lex_total(set@[k as int]@, s@);
        }
    }
    set.insert(k, s.clone());
    proof {
        assert(set@ =~= set0.subrange(0, k as int).push(set@[k as int]) + set0.subrange(k as int, set0.len() as int));
        assert forall|i: int, j: int| 0 <= i < j < set@.len() implies lex_lt(set@[i]@, set@[j]@) by {
            if j < k {
                assert(set@[i] == set0[i] && set@[j] == set0[j]);
            } else if j == k {
                assert(set@[i] == set0[i]);
            } else if i < k {
                assert(set@[i] == set0[i] && set@[j] == set0[j - 1]);
                assert(lex_lt(set0[i]@, s@));
                if j - 1 > k {
                    assert(lex_lt(set0[k as int]@, set0[j - 1]@));
                    lemma_lex_trans(s@, set0[k as int]@, set0[j - 1]@);
                }
                lemma_lex_trans(set0[i]@, s@, set0[j - 1]@);
            } else if i == k {
                assert(set@[j] == set0[j - 1]);
                if j - 1 > k {
                    assert(lex_lt(set0[k as int]@, set0[j - 1]@));
                    lemma_lex_trans(s@, set0[k as int]@, set0[j - 1]@);
                }
            } else {
                assert(set@[i] == set0[i - 1] && set@[j] == set0[j - 1]);
            }
        }
        assert forall|t: Seq<char>| #[trigger] strings(set@).contains(t) <==> strings(set0).insert(s@).contains(t) by {
            if strings(set@).contains(t) {
                let i = choose|i: int| 0 <= i < set@.len() && #[trigger] set@[i]@ == t;
                if i < k {
                    assert(set@[i] == set0[i]);
                } else if i > k {
                    assert(set@[i] == set0[i - 1]);
                }
            }
            if strings(set0).contains(t) {
                let i = choose|i: int| 0 <= i < set0.len() && #[trigger] set0[i]@ == t;
                if i < k {
                    assert(set@[i] == set0[i]);
                } else {
                    assert(set@[i + 1] == set0[i]);
                }
            }
            if t == s@ {
                assert(set@[k as int]@ == s@);
            }
        }
        assert(strings(set@) =~= strings(set0).insert(s@));
    }
}

/// The strings of `v` in lexicographic order, each once.
pub fn sort_strings(v: &Vec<String>) -> (r: Vec<String>)
    ensures
        sorted(r@),
        strings(r@) == strings(v@),
{
    let mut r: Vec<String> = Vec::new();
    let mut i: usize = 0;
    assert(strings(r@) =~= strings(v@.take(0)));
    while i < v.len()
        invariant
            i <= v@.len(),
            sorted(r@),
            strings(r@) == strings(v@.take(i as int)),
        decreases v@.len() - i,
    {
        insert_sorted(&mut r, &v[i]);
        proof {
            assert forall|t: Seq<char>| #[trigger] strings(v@.take(i + 1)).contains(t) == strings(v@.take(i as int)).insert(v@[i as int]@).contains(t) by {
                if strings(v@.take(i + 1)).contains(t) {
                    let k = choose|k: int| 0 <= k < v@.take(i + 1).len() && #[trigger] v@.take(i + 1)[k]@ == t;
                    if k < i {
                        assert(v@.take(i as int)[k]@ == t);
                    }
                }
                if strings(v@.take(i as int)).contains(t) {
                    let k = choose|k: int| 0 <= k < v@.take(i as int).len() && #[trigger] v@.take(i as int)[k]@ == t;
                    assert(v@.take(i + 1)[k]@ == t);
                }
                if t == v@[i as int]@ {
                    assert(v@.take(i + 1)[i as int]@ == t);
                }
            }
            assert(strings(v@.take(i + 1)) =~= strings(v@.take(i as int)).insert(v@[i as int]@));
        }
        i = i + 1;
    }
    assert(v@.take(v@.len() as int) =~= v@);
    r
}

} // verus!
