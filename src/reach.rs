//! Reachability in a directed graph given by adjacency lists.

use vstd::prelude::*;

verus! {

/// The adjacency lists as sequences.
pub open spec fn adj_view(adj: Seq<Vec<usize>>) -> Seq<Seq<usize>> {
    adj.map_values(|r: Vec<usize>| r@)
}

/// Every edge ends at a node of the graph.
pub open spec fn graph_ok(g: Seq<Seq<usize>>) -> bool {
    forall|u: int, i: int| 0 <= u < g.len() && 0 <= i < g[u].len() ==> (#[trigger] g[u][i]) < g.len()
}

/// There is an edge from `u` to `v`.
pub open spec fn edge(g: Seq<Seq<usize>>, u: int, v: int) -> bool {
    0 <= u < g.len() && exists|i: int| 0 <= i < g[u].len() && #[trigger] g[u][i] == v
}

/// The edge relation of adjacency lists.
pub open spec fn edges_of(g: Seq<Seq<usize>>) -> spec_fn(int, int) -> bool {
    |u: int, v: int| edge(g, u, v)
}

/// `p` is a nonempty walk along the relation `e`.
pub open spec fn is_path<A>(e: spec_fn(A, A) -> bool, p: Seq<A>) -> bool {
    &&& p.len() >= 1
    &&& forall|k: int| 0 <= k < p.len() - 1 ==> e(#[trigger] p[k], p[k + 1])
}

/// `v` can be reached from `u` along `e`, in zero or more steps.
pub open spec fn reaches<A>(e: spec_fn(A, A) -> bool, u: A, v: A) -> bool {
    exists|p: Seq<A>| #[trigger] is_path(e, p) && p[0] == u && p[p.len() - 1] == v
}

/// Every node in `seen` has all its successors in `seen`.
pub open spec fn closed_under(g: Seq<Seq<usize>>, seen: Seq<bool>) -> bool {
    forall|u: int, i: int| 0 <= u < g.len() && seen[u] && 0 <= i < g[u].len() ==> seen[(#[trigger] g[u][i]) as int]
}

proof fn lemma_closed_prefix(g: Seq<Seq<usize>>, seen: Seq<bool>, p: Seq<int>, k: int)
    requires
        graph_ok(g),
        seen.len() == g.len(),
        is_path(edges_of(g), p),
        0 <= p[0] < g.len(),
        seen[p[0]],
        closed_under(g, seen),
        0 <= k < p.len(),
    ensures
        0 <= p[k] < g.len() && seen[p[k]],
    decreases k,
{
    if k > 0 {
        lemma_closed_prefix(g, seen, p, k - 1);
        assert(edges_of(g)(p[k - 1], p[k]));
        let w = p[k - 1];
        let i = choose|i: int| 0 <= i < g[w].len() && #[trigger] g[w][i] == p[k];
        assert(seen[g[w][i] as int]);
    }
}

/// Every node reachable from `u` lies in a closed set that holds `u`.
pub proof fn lemma_closed_contains(g: Seq<Seq<usize>>, seen: Seq<bool>, u: int, v: int)
    requires
        graph_ok(g),
        seen.len() == g.len(),
        0 <= u < g.len(),
        seen[u],
        closed_under(g, seen),
        reaches(edges_of(g), u, v),
    ensures
        0 <= v < g.len() && seen[v],
{
    let p = choose|p: Seq<int>| #[trigger] is_path(edges_of(g), p) && p[0] == u && p[p.len() - 1] == v;
    lemma_closed_prefix(g, seen, p, p.len() - 1);
}

/// Every node reaches itself.
pub proof fn lemma_reaches_self<A>(e: spec_fn(A, A) -> bool, u: A)
    ensures
        reaches(e, u, u),
{
    let p = seq![u];
    assert(is_path(e, p));
}

/// A path extended by one edge.
pub proof fn lemma_path_step<A>(e: spec_fn(A, A) -> bool, u: A, w: A, v: A)
    requires
        reaches(e, u, w),
        e(w, v),
    ensures
        reaches(e, u, v),
{
    let p = choose|p: Seq<A>| #[trigger] is_path(e, p) && p[0] == u && p[p.len() - 1] == w;
    let q = p.push(v);
    assert forall|k: int| 0 <= k < q.len() - 1 implies e(#[trigger] q[k], q[k + 1]) by {
        if k < p.len() - 1 {
            assert(q[k] == p[k] && q[k + 1] == p[k + 1]);
        }
    }
    assert(is_path(e, q));
}

/// Marks every node reachable from `start`.
pub fn reachable(adj: &Vec<Vec<usize>>, start: usize) -> (seen: Vec<bool>)
    requires
        start < adj@.len(),
        graph_ok(adj_view(adj@)),
    ensures
        seen@.len() == adj@.len(),
        forall|v: int| 0 <= v < adj@.len() ==> (seen@[v] <==> reaches(edges_of(adj_view(adj@)), start as int, v)),
{
    let ghost g = adj_view(adj@);
    let n = adj.len();
    let mut seen: Vec<bool> = Vec::new();
    let mut k: usize = 0;
    while k < n
        invariant
            n == adj@.len(),
            k <= n,
            seen@.len() == k,
            forall|v: int| 0 <= v < k ==> !seen@[v],
        decreases n - k,
    {
        seen.push(false);
        k += 1;
    }
    seen.set(start, true);
    proof {
        lemma_reaches_self(edges_of(g), start as int);
    }
    let mut order: Vec<usize> = Vec::new();
    order.push(start);
    assert(order@[0] == start);
    assert(forall|v: int| 0 <= v < n && v != start ==> !seen@[v]);
    let mut i: usize = 0;
    while i < order.len()
        invariant
            g == adj_view(adj@),
            graph_ok(g),
            n == g.len(),
            start < n,
            seen@.len() == n,
            seen@[start as int],
            i <= order@.len(),
            forall|k: int| 0 <= k < order@.len() ==> (#[trigger] order@[k]) < n && seen@[order@[k] as int],
            forall|v: int| 0 <= v < n && #[trigger] seen@[v] ==> reaches(edges_of(g), start as int, v),
            forall|v: int| 0 <= v < n && #[trigger] seen@[v] ==> exists|k: int| 0 <= k < order@.len() && order@[k] == v,
            forall|k: int, j: int| 0 <= k < i && 0 <= j < g[order@[k] as int].len() ==>
                seen@[(#[trigger] g[order@[k] as int][j]) as int],
        decreases usize::MAX - i,
    {
        let u = order[i];
        let m = adj[u].len();
        let mut j: usize = 0;
        while j < m
            invariant
                g == adj_view(adj@),
                graph_ok(g),
                n == g.len(),
                start < n,
                seen@.len() == n,
                seen@[start as int],
                i < order@.len(),
                u == order@[i as int],
                m == g[u as int].len(),
                j <= m,
                forall|k: int| 0 <= k < order@.len() ==> (#[trigger] order@[k]) < n && seen@[order@[k] as int],
                forall|v: int| 0 <= v < n && #[trigger] seen@[v] ==> reaches(edges_of(g), start as int, v),
                forall|v: int| 0 <= v < n && #[trigger] seen@[v] ==> exists|k: int| 0 <= k < order@.len() && order@[k] == v,
                forall|k: int, jj: int| 0 <= k < i && 0 <= jj < g[order@[k] as int].len() ==>
                    seen@[(#[trigger] g[order@[k] as int][jj]) as int],
                forall|jj: int| 0 <= jj < j ==> seen@[(#[trigger] g[u as int][jj]) as int],
            decreases m - j,
        {
            let v = adj[u][j];
            assert(g[u as int][j as int] == v);
            if !seen[v] {
                proof {
                    assert(edges_of(g)(u as int, v as int));
                    lemma_path_step(edges_of(g), start as int, u as int, v as int);
                }
                let ghost order0 = order@;
                seen.set(v, true);
                order.push(v);
                proof {
                    assert forall|w: int| 0 <= w < n && #[trigger] seen@[w] implies
                        exists|k: int| 0 <= k < order@.len() && order@[k] == w by {
                        if w == v {
                            assert(order@[order@.len() - 1] == v);
                        } else {
                            let k = choose|k: int| 0 <= k < order0.len() && order0[k] == w;
                            assert(order@[k] == w);
                        }
                    }
                }
            }
            j += 1;
        }
        i += 1;
    }
    proof {
        assert forall|u: int, jj: int| 0 <= u < g.len() && seen@[u] && 0 <= jj < g[u].len()
            implies seen@[(#[trigger] g[u][jj]) as int] by {
            let k = choose|k: int| 0 <= k < order@.len() && order@[k] == u;
            assert(seen@[g[order@[k] as int][jj] as int]);
        }
        assert forall|v: int| 0 <= v < n && reaches(edges_of(g), start as int, v) implies seen@[v] by {
            lemma_closed_contains(g, seen@, start as int, v);
        }
    }
    seen
}

} // verus!

verus! {

/// Adds the edge `u -> v`.
pub fn add_edge(adj: &mut Vec<Vec<usize>>, u: usize, v: usize)
    requires
        u < old(adj)@.len(),
        v < old(adj)@.len(),
        graph_ok(adj_view(old(adj)@)),
    ensures
        final(adj)@.len() == old(adj)@.len(),
        graph_ok(adj_view(final(adj)@)),
        forall|a: int, b: int| #[trigger] edge(adj_view(final(adj)@), a, b) == (edge(adj_view(old(adj)@), a, b) || (a == u && b == v)),
{
    let ghost g0 = adj_view(adj@);
    adj[u].push(v);
    proof {
        let g1 = adj_view(adj@);
        assert(g1 == g0.update(u as int, g0[u as int].push(v)));
        assert forall|a: int, b: int| #[trigger] edge(g1, a, b) == (edge(g0, a, b) || (a == u && b == v)) by {
            if edge(g0, a, b) {
                let i = choose|i: int| 0 <= i < g0[a].len() && #[trigger] g0[a][i] == b;
                assert(g1[a][i] == b);
            }
            if a == u && b == v {
                assert(g1[a][g0[a].len() as int] == b);
            }
            if edge(g1, a, b) {
                let i = choose|i: int| 0 <= i < g1[a].len() && #[trigger] g1[a][i] == b;
                if a != u || i < g0[a].len() {
                    assert(g0[a][i] == b);
                }
            }
        }
        assert forall|x: int, i: int| 0 <= x < g1.len() && 0 <= i < g1[x].len() implies (#[trigger] g1[x][i]) < g1.len() by {
            if x != u || i < g0[x].len() {
                assert(g1[x][i] == g0[x][i]);
            }
        }
    }
}

/// Adjacency lists of `n` nodes and no edges.
pub fn empty_graph(n: usize) -> (adj: Vec<Vec<usize>>)
    ensures
        adj@.len() == n,
        graph_ok(adj_view(adj@)),
        forall|a: int, b: int| !(#[trigger] edge(adj_view(adj@), a, b)),
{
    let mut adj: Vec<Vec<usize>> = Vec::new();
    let mut k: usize = 0;
    while k < n
        invariant
            k <= n,
            adj@.len() == k,
            forall|x: int| 0 <= x < k ==> (#[trigger] adj@[x])@.len() == 0,
        decreases n - k,
    {
        adj.push(Vec::new());
        k += 1;
    }
    adj
}

/// Two edge relations that agree everywhere reach the same nodes.
pub proof fn lemma_reaches_same<A>(e1: spec_fn(A, A) -> bool, e2: spec_fn(A, A) -> bool)
    requires
        forall|a: A, b: A| #[trigger] e1(a, b) == e2(a, b),
    ensures
        e1 == e2,
{
    assert(e1 =~= e2);
}


proof fn lemma_closed_set_prefix<A>(e: spec_fn(A, A) -> bool, s: spec_fn(A) -> bool, p: Seq<A>, k: int)
    requires
        is_path(e, p),
        s(p[0]),
        forall|a: A, b: A| s(a) && #[trigger] e(a, b) ==> s(b),
        0 <= k < p.len(),
    ensures
        s(p[k]),
    decreases k,
{
    if k > 0 {
        lemma_closed_set_prefix(e, s, p, k - 1);
        assert(e(p[k - 1], p[k]));
    }
}

/// A set closed under `e` holds everything reachable from its members.
pub proof fn lemma_closed_set_contains<A>(e: spec_fn(A, A) -> bool, s: spec_fn(A) -> bool, u: A, v: A)
    requires
        s(u),
        forall|a: A, b: A| s(a) && #[trigger] e(a, b) ==> s(b),
        reaches(e, u, v),
    ensures
        s(v),
{
    let p = choose|p: Seq<A>| #[trigger] is_path(e, p) && p[0] == u && p[p.len() - 1] == v;
    lemma_closed_set_prefix(e, s, p, p.len() - 1);
}

/// Reachability is transitive.
pub proof fn lemma_reaches_trans<A>(e: spec_fn(A, A) -> bool, u: A, w: A, v: A)
    requires
        reaches(e, u, w),
        reaches(e, w, v),
    ensures
        reaches(e, u, v),
{
    assert forall|a: A, b: A| reaches(e, u, a) && #[trigger] e(a, b) implies reaches(e, u, b) by {
        lemma_path_step(e, u, a, b);
    }
    lemma_closed_set_contains(e, |x: A| reaches(e, u, x), w, v);
}

} // verus!
