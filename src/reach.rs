//! Reachability over a directed graph held as adjacency lists of node indices.
use vstd::prelude::*;

verus! {

/// The graph has an edge from `u` to `v`.
pub open spec fn edge(adj: Seq<Seq<usize>>, u: int, v: int) -> bool {
    0 <= u < adj.len() && 0 <= v < adj.len() && adj[u].contains(v as usize)
}

/// Every node named in an adjacency list is a node of the graph.
pub open spec fn closed_graph(adj: Seq<Seq<usize>>) -> bool {
    forall|u: int, k: int| 0 <= u < adj.len() && 0 <= k < adj[u].len() ==> adj[u][k] < adj.len()
}

/// `p` is a walk along edges of the graph.
pub open spec fn is_walk(adj: Seq<Seq<usize>>, p: Seq<int>) -> bool {
    &&& p.len() >= 1
    &&& forall|i: int| 0 <= i < p.len() - 1 ==> edge(adj, #[trigger] p[i], p[i + 1])
}

/// Some walk leads from `a` to `b` (a node reaches itself).
pub open spec fn reachable(adj: Seq<Seq<usize>>, a: int, b: int) -> bool {
    exists|p: Seq<int>| is_walk(adj, p) && p[0] == a && p.last() == b
}

pub open spec fn adj_view(adj: &Vec<Vec<usize>>) -> Seq<Seq<usize>> {
    adj@.map_values(|l: Vec<usize>| l@)
}

pub open spec fn count_true(s: Seq<bool>) -> nat
    decreases s.len(),
{
    if s.len() == 0 {
        0
    } else {
        count_true(s.drop_last()) + if s.last() { 1nat } else { 0nat }
    }
}

pub proof fn lemma_count_true_bound(s: Seq<bool>)
    ensures
        count_true(s) <= s.len(),
    decreases s.len(),
{
    if s.len() > 0 {
        lemma_count_true_bound(s.drop_last());
    }
}

proof fn lemma_count_true_set(s: Seq<bool>, i: int)
    requires
        0 <= i < s.len(),
        !s[i],
    ensures
        count_true(s.update(i, true)) == count_true(s) + 1,
    decreases s.len(),
{
    let t = s.update(i, true);
    if i == s.len() - 1 {
        assert(t.drop_last() =~= s.drop_last());
    } else {
        assert(t.drop_last() =~= s.drop_last().update(i, true));
        lemma_count_true_set(s.drop_last(), i);
    }
}

/// Turning some `false` entries to `true`, and at least one, raises the count.
pub proof fn lemma_count_true_grow(a: Seq<bool>, b: Seq<bool>)
    requires
        a.len() == b.len(),
        forall|i: int| 0 <= i < a.len() && a[i] ==> b[i],
        !(forall|i: int| 0 <= i < a.len() ==> a[i] == b[i]),
    ensures
        count_true(b) > count_true(a),
    decreases a.len(),
{
    let n = a.len();
    if a[n - 1] == b[n - 1] {
        let i = choose|i: int| 0 <= i < a.len() && a[i] != b[i];
        assert(a.drop_last()[i] != b.drop_last()[i]);
        lemma_count_true_grow(a.drop_last(), b.drop_last());
    } else {
        lemma_count_true_le(a.drop_last(), b.drop_last());
    }
}

proof fn lemma_count_true_le(a: Seq<bool>, b: Seq<bool>)
    requires
        a.len() == b.len(),
        forall|i: int| 0 <= i < a.len() && a[i] ==> b[i],
    ensures
        count_true(b) >= count_true(a),
    decreases a.len(),
{
    if a.len() > 0 {
        lemma_count_true_le(a.drop_last(), b.drop_last());
    }
}

/// A walk followed by an edge is a walk.
pub proof fn lemma_reach_extend(adj: Seq<Seq<usize>>, a: int, b: int, c: int)
    requires
        reachable(adj, a, b),
        edge(adj, b, c),
    ensures
        reachable(adj, a, c),
{
    let p = choose|p: Seq<int>| is_walk(adj, p) && p[0] == a && p.last() == b;
    let q = p.push(c);
    assert(q[0] == a && q.last() == c);
    assert forall|i: int| 0 <= i < q.len() - 1 implies edge(adj, #[trigger] q[i], q[i + 1]) by {
        if i < p.len() - 1 {
            assert(q[i] == p[i]);
            assert(q[i + 1] == p[i + 1]);
        }
    }
}

pub proof fn lemma_reach_self(adj: Seq<Seq<usize>>, a: int)
    ensures
        reachable(adj, a, a),
{
    let p = seq![a];
    assert(p[0] == a && p.last() == a);
    assert(is_walk(adj, p));
}

/// Any node reached from a set that is closed under edges stays in it.
proof fn lemma_closed_set(adj: Seq<Seq<usize>>, seen: Seq<bool>, p: Seq<int>)
    requires
        seen.len() == adj.len(),
        is_walk(adj, p),
        0 <= p[0] < seen.len(),
        seen[p[0]],
        forall|u: int, v: int| 0 <= u < adj.len() && seen[u] && #[trigger] edge(adj, u, v) ==> 0 <= v < seen.len() && seen[v],
    ensures
        forall|i: int| 0 <= i < p.len() ==> 0 <= #[trigger] p[i] < seen.len() && seen[p[i]],
{
    assert forall|i: int| 0 <= i < p.len() implies 0 <= #[trigger] p[i] < seen.len() && seen[p[i]] by {
        lemma_walk_prefix_seen(adj, seen, p, i);
    }
}

proof fn lemma_walk_prefix_seen(adj: Seq<Seq<usize>>, seen: Seq<bool>, p: Seq<int>, i: int)
    requires
        seen.len() == adj.len(),
        is_walk(adj, p),
        0 <= i < p.len(),
        0 <= p[0] < seen.len(),
        seen[p[0]],
        forall|u: int, v: int| 0 <= u < adj.len() && seen[u] && #[trigger] edge(adj, u, v) ==> 0 <= v < seen.len() && seen[v],
    ensures
        0 <= p[i] < seen.len() && seen[p[i]],
    decreases i,
{
    if i > 0 {
        lemma_walk_prefix_seen(adj, seen, p, i - 1);
        assert(edge(adj, p[i - 1], p[i]));
    }
}

/// Marks every node that a walk from `start` reaches.
pub fn first_n_follow_set_dfs(adj: &Vec<Vec<usize>>, start: usize) -> (seen: Vec<bool>)
    requires
        start < adj.len(),
        closed_graph(adj_view(adj)),
    ensures
        seen.len() == adj.len(),
        forall|v: int| 0 <= v < seen.len() ==> (#[trigger] seen[v] <==> reachable(adj_view(adj), start as int, v)),
{
    let ghost g = adj_view(adj);
    let n = adj.len();
    let mut seen: Vec<bool> = Vec::new();
    let mut i: usize = 0;
    while i < n
        invariant
            i <= n,
            seen.len() == i,
            forall|k: int| 0 <= k < i ==> !seen[k],
        decreases n - i,
    {
        seen.push(false);
        i = i + 1;
    }
    seen.set(start, true);
    proof {
        lemma_reach_self(g, start as int);
        assert(count_true(seen@) == 1) by {
            let z = Seq::new(n as nat, |k: int| false);
            assert(seen@ =~= z.update(start as int, true));
            lemma_count_zero(z);
            lemma_count_true_set(z, start as int);
        }
    }
    let mut stack: Vec<usize> = vec![start];
    while stack.len() > 0
        invariant
            g == adj_view(adj),
            closed_graph(g),
            n == adj.len(),
            seen.len() == n,
            start < n,
            seen[start as int],
            forall|k: int| 0 <= k < stack.len() ==> #[trigger] stack[k] < n && seen[stack[k] as int],
            stack.len() <= count_true(seen@),
            forall|v: int| 0 <= v < n && #[trigger] seen[v] ==> reachable(g, start as int, v),
            forall|u: int, v: int|
                0 <= u < n && seen[u] && !stack@.contains(u as usize) && #[trigger] edge(g, u, v) ==> 0 <= v < n && seen[v],
        decreases 2 * (n - count_true(seen@)) + stack.len(),
    {
        proof { lemma_count_true_bound(seen@); }
        let ghost old_stack = stack@;
        let u = stack.pop().unwrap();
        let ghost stack0 = stack@;
        proof {
            assert(old_stack =~= stack0.push(u));
            assert forall|w: int| 0 <= w < n && w != u && !stack0.contains(w as usize)
                implies !#[trigger] old_stack.contains(w as usize) by {
                if old_stack.contains(w as usize) {
                    let j = choose|j: int| 0 <= j < old_stack.len() && old_stack[j] == w as usize;
                    if j < stack0.len() {
                        assert(stack0[j] == w as usize);
                    }
                }
            }
        }
        let ghost count0 = count_true(seen@);
        let succ = &adj[u];
        let mut k: usize = 0;
        while k < succ.len()
            invariant
                g == adj_view(adj),
                closed_graph(g),
                n == adj.len(),
                seen.len() == n,
                u < n,
                succ@ == g[u as int],
                k <= succ.len(),
                start < n,
                seen[start as int],
                seen[u as int],
                reachable(g, start as int, u as int),
                stack0.len() + 1 <= count0,
                stack@.len() >= stack0.len(),
                stack@.subrange(0, stack0.len() as int) == stack0,
                count_true(seen@) == count0 + (stack.len() - stack0.len()),
                forall|j: int| 0 <= j < stack.len() ==> #[trigger] stack[j] < n && seen[stack[j] as int],
                forall|v: int| 0 <= v < n && #[trigger] seen[v] ==> reachable(g, start as int, v),
                forall|j: int| 0 <= j < k ==> seen[#[trigger] succ[j] as int],
                forall|w: int, v: int|
                    0 <= w < n && seen[w] && w != u && !stack@.contains(w as usize)
                        && #[trigger] edge(g, w, v) ==> 0 <= v < n && seen[v],
            decreases succ.len() - k,
        {
            let v = succ[k];
            if !seen[v] {
                proof {
                    lemma_count_true_set(seen@, v as int);
                    assert(edge(g, u as int, v as int));
                    lemma_reach_extend(g, start as int, u as int, v as int);
                }
                let ghost prev_stack = stack@;
                seen.set(v, true);
                stack.push(v);
                proof {
                    assert(stack@.subrange(0, stack0.len() as int) =~= stack0);
                    assert(prev_stack =~= stack@.drop_last());
                    assert forall|w: int, x: int|
                        0 <= w < n && seen[w] && w != u && !stack@.contains(w as usize)
                            && #[trigger] edge(g, w, x) implies 0 <= x < n && seen[x] by {
                        if prev_stack.contains(w as usize) {
                            let j = choose|j: int| 0 <= j < prev_stack.len() && prev_stack[j] == w as usize;
                            assert(stack@[j] == w as usize);
                        }
                        if w == v as int {
                            assert(stack@.last() == v);
                        }
                    }
                }
            }
            k = k + 1;
        }
        proof {
            assert forall|w: int, v: int|
                0 <= w < n && seen[w] && !stack@.contains(w as usize) && #[trigger] edge(g, w, v) implies 0 <= v < n && seen[v] by {
                if w == u as int {
                    let j = choose|j: int| 0 <= j < succ@.len() && succ@[j] == v as usize;
                    assert(seen[succ[j] as int]);
                }
            }
            lemma_count_true_bound(seen@);
        }
    }
    proof {
        assert forall|v: int| 0 <= v < n && reachable(g, start as int, v) implies #[trigger] seen[v] by {
            let p = choose|p: Seq<int>| is_walk(g, p) && p[0] == start as int && p.last() == v;
            lemma_closed_set(g, seen@, p);
            assert(p[p.len() - 1] == v);
        }
    }
    seen
}

proof fn lemma_count_zero(s: Seq<bool>)
    requires
        forall|k: int| 0 <= k < s.len() ==> !s[k],
    ensures
        count_true(s) == 0,
    decreases s.len(),
{
    if s.len() > 0 {
        lemma_count_zero(s.drop_last());
    }
}

/// `w` is a walk of names along relation `r`.
pub open spec fn rel_walk(r: spec_fn(Seq<char>, Seq<char>) -> bool, w: Seq<Seq<char>>) -> bool {
    &&& w.len() >= 1
    &&& forall|i: int| 0 <= i < w.len() - 1 ==> r(#[trigger] w[i], w[i + 1])
}

/// Some walk along `r` leads from `a` to `b`.
pub open spec fn rel_reach(r: spec_fn(Seq<char>, Seq<char>) -> bool, a: Seq<char>, b: Seq<char>) -> bool {
    exists|w: Seq<Seq<char>>| rel_walk(r, w) && w[0] == a && w.last() == b
}

/// The graph `adj` over the symbol table `names` has exactly the edges of `r`,
/// and `r` leads from a symbol of the table only to symbols of the table.
pub open spec fn graph_of(adj: Seq<Seq<usize>>, names: Seq<Seq<char>>, r: spec_fn(Seq<char>, Seq<char>) -> bool) -> bool {
    &&& adj.len() == names.len()
    &&& names.no_duplicates()
    &&& forall|u: int, v: int| 0 <= u < adj.len() && 0 <= v < adj.len() ==> (#[trigger] edge(adj, u, v) <==> r(names[u], names[v]))
    &&& forall|u: int, b: Seq<char>| 0 <= u < adj.len() && #[trigger] r(names[u], b) ==> names.contains(b)
}

pub proof fn lemma_rel_step(r: spec_fn(Seq<char>, Seq<char>) -> bool, a: Seq<char>, b: Seq<char>, c: Seq<char>)
    requires
        r(a, b),
        rel_reach(r, b, c),
    ensures
        rel_reach(r, a, c),
{
    let w = choose|w: Seq<Seq<char>>| rel_walk(r, w) && w[0] == b && w.last() == c;
    let q = seq![a] + w;
    assert(q[0] == a && q.last() == c);
    assert forall|i: int| 0 <= i < q.len() - 1 implies r(#[trigger] q[i], q[i + 1]) by {
        if i > 0 {
            assert(q[i] == w[i - 1]);
            assert(q[i + 1] == w[i]);
        }
    }
}

pub proof fn lemma_rel_edge(r: spec_fn(Seq<char>, Seq<char>) -> bool, a: Seq<char>, b: Seq<char>)
    requires
        r(a, b),
    ensures
        rel_reach(r, a, b),
{
    let w = seq![a, b];
    assert(w[0] == a && w.last() == b);
    assert(rel_walk(r, w));
}

proof fn lemma_walk_in_table(
    adj: Seq<Seq<usize>>,
    names: Seq<Seq<char>>,
    r: spec_fn(Seq<char>, Seq<char>) -> bool,
    w: Seq<Seq<char>>,
    i: int,
)
    requires
        graph_of(adj, names, r),
        rel_walk(r, w),
        names.contains(w[0]),
        0 <= i < w.len(),
    ensures
        names.contains(w[i]),
    decreases i,
{
    if i > 0 {
        lemma_walk_in_table(adj, names, r, w, i - 1);
        let x = choose|x: int| 0 <= x < names.len() && names[x] == w[i - 1];
        assert(r(w[i - 1], w[i]));
        assert(r(names[x], w[i]));
    }
}

/// A walk along the relation from a symbol of the table ends in the table.
pub proof fn lemma_reach_in_table(
    adj: Seq<Seq<usize>>,
    names: Seq<Seq<char>>,
    r: spec_fn(Seq<char>, Seq<char>) -> bool,
    a: Seq<char>,
    b: Seq<char>,
)
    requires
        graph_of(adj, names, r),
        names.contains(a),
        rel_reach(r, a, b),
    ensures
        names.contains(b),
{
    let w = choose|w: Seq<Seq<char>>| rel_walk(r, w) && w[0] == a && w.last() == b;
    lemma_walk_in_table(adj, names, r, w, w.len() - 1);
}

/// Reachability in the index graph is reachability along the relation.
pub proof fn lemma_graph_reach(
    adj: Seq<Seq<usize>>,
    names: Seq<Seq<char>>,
    r: spec_fn(Seq<char>, Seq<char>) -> bool,
    u: int,
    v: int,
)
    requires
        graph_of(adj, names, r),
        0 <= u < adj.len(),
        0 <= v < adj.len(),
    ensures
        reachable(adj, u, v) <==> rel_reach(r, names[u], names[v]),
{
    if reachable(adj, u, v) {
        let p = choose|p: Seq<int>| is_walk(adj, p) && p[0] == u && p.last() == v;
        let w = Seq::new(p.len(), |i: int| names[p[i]]);
        assert forall|i: int| 0 <= i < w.len() - 1 implies r(#[trigger] w[i], w[i + 1]) by {
            assert(edge(adj, p[i], p[i + 1]));
        }
        assert(w[0] == names[u]);
        assert(w.last() == names[v]);
        assert(rel_walk(r, w));
    }
    if rel_reach(r, names[u], names[v]) {
        let w = choose|w: Seq<Seq<char>>| rel_walk(r, w) && w[0] == names[u] && w.last() == names[v];
        assert(names.contains(w[0]));
        let p = Seq::new(w.len(), |i: int| choose|x: int| 0 <= x < names.len() && names[x] == w[i]);
        assert forall|i: int| 0 <= i < p.len() implies 0 <= #[trigger] p[i] < names.len() && names[p[i]] == w[i] by {
            lemma_walk_in_table(adj, names, r, w, i);
        }
        assert forall|i: int| 0 <= i < p.len() - 1 implies edge(adj, #[trigger] p[i], p[i + 1]) by {
            assert(0 <= p[i] < names.len() && names[p[i]] == w[i]);
            assert(0 <= p[i + 1] < names.len() && names[p[i + 1]] == w[i + 1]);
            assert(r(w[i], w[i + 1]));
        }
        assert(0 <= p[0] < names.len() && names[p[0]] == w[0]);
        assert(p[0] == u);
        assert(0 <= p[p.len() - 1] < names.len() && names[p[p.len() - 1]] == w[w.len() - 1]);
        assert(p.last() == v);
        assert(is_walk(adj, p));
    }
}

} // verus!
