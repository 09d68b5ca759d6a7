//! Grammar analysis: the nullable symbols, and FIRST / FOLLOW sets read off a
//! containment graph.

use vstd::prelude::*;
use crate::grammar::{Grammar, Symbol};
use crate::reach::{add_edge, adj_view, edge, edges_of, empty_graph, graph_ok, lemma_reaches_same, reachable, reaches};

verus! {

/// Symbol `s` is listed before step `k` of `t`.
pub open spec fn listed_before(t: Seq<(int, int)>, k: int, s: int) -> bool {
    exists|j: int| 0 <= j < k && t[j].0 == s
}

/// Step `k` of `t` uses a rule for `t[k].0` whose right side consists of symbols
/// derived empty at earlier steps.
pub open spec fn derivation_step(g: &Grammar, t: Seq<(int, int)>, k: int) -> bool {
    &&& 0 <= t[k].1 < g.num_rules()
    &&& g.lhs(t[k].1) == t[k].0
    &&& forall|i: int| 0 <= i < g.rhs(t[k].1).len() ==> listed_before(t, k, #[trigger] g.rhs(t[k].1)[i] as int)
}

/// `t` lists symbols with the rules by which each derives the empty string.
pub open spec fn empty_derivation(g: &Grammar, t: Seq<(int, int)>) -> bool {
    forall|k: int| 0 <= k < t.len() ==> #[trigger] derivation_step(g, t, k)
}

/// `x` derives the empty string: it is listed in some empty derivation.
pub open spec fn nullable(g: &Grammar, x: int) -> bool {
    exists|t: Seq<(int, int)>| #[trigger] empty_derivation(g, t) && exists|k: int| 0 <= k < t.len() && t[k].0 == x
}

/// Every symbol of `s` in `lo..hi` is nullable.
pub open spec fn all_nullable(g: &Grammar, s: Seq<usize>, lo: int, hi: int) -> bool {
    forall|k: int| lo <= k < hi ==> nullable(g, #[trigger] s[k] as int)
}

/// The number of `true` entries.
pub open spec fn count_true(s: Seq<bool>) -> nat
    decreases s.len(),
{
    if s.len() == 0 {
        0
    } else {
        count_true(s.drop_last()) + (if s.last() { 1nat } else { 0nat })
    }
}

proof fn lemma_count_true_le(s: Seq<bool>)
    ensures
        count_true(s) <= s.len(),
    decreases s.len(),
{
    if s.len() > 0 {
        lemma_count_true_le(s.drop_last());
    }
}

proof fn lemma_count_true_set(s: Seq<bool>, i: int)
    requires
        0 <= i < s.len(),
        !s[i],
    ensures
        count_true(s.update(i, true)) == count_true(s) + 1,
    decreases s.len(),
{
    let u = s.update(i, true);
    if i == s.len() - 1 {
        assert(u.drop_last() =~= s.drop_last());
    } else {
        assert(u.drop_last() =~= s.drop_last().update(i, true));
        lemma_count_true_set(s.drop_last(), i);
    }
}

proof fn lemma_trace_closed(g: &Grammar, nul: Seq<bool>, t: Seq<(int, int)>, k: int)
    requires
        g.wf(),
        nul.len() == g.num_symbols(),
        empty_derivation(g, t),
        0 <= k < t.len(),
        forall|r: int| 0 <= r < g.num_rules() && (forall|i: int| 0 <= i < g.rhs(r).len() ==> nul[#[trigger] g.rhs(r)[i] as int])
            ==> #[trigger] nul[g.lhs(r)],
    ensures
        nul[t[k].0],
    decreases k,
{
    assert(derivation_step(g, t, k));
    let r = t[k].1;
    assert forall|i: int| 0 <= i < g.rhs(r).len() implies nul[#[trigger] g.rhs(r)[i] as int] by {
        assert(listed_before(t, k, g.rhs(r)[i] as int));
        let j = choose|j: int| 0 <= j < k && t[j].0 == g.rhs(r)[i] as int;
        lemma_trace_closed(g, nul, t, j);
    }
}

/// Computes the nullable symbols by repeated passes over the rules.
fn compute_nullable(g: &Grammar) -> (nul: Vec<bool>)
    requires
        g.wf(),
    ensures
        nul@.len() == g.num_symbols(),
        forall|x: int| 0 <= x < g.num_symbols() ==> nul@[x] == nullable(g, x),
{
    let n = g.num_symbols_exec();
    let nr = g.num_rules_exec();
    let mut nul: Vec<bool> = Vec::new();
    let mut k: usize = 0;
    while k < n
        invariant
            k <= n,
            nul@.len() == k,
            forall|x: int| 0 <= x < k ==> !nul@[x],
        decreases n - k,
    {
        nul.push(false);
        k += 1;
    }
    proof {
        assert(count_true(nul@) == 0) by {
            lemma_count_zero(nul@);
        }
    }
    let ghost mut trace: Seq<(int, int)> = Seq::empty();
    loop
        invariant
            g.wf(),
            n == g.num_symbols(),
            nr == g.num_rules(),
            nul@.len() == n,
            empty_derivation(g, trace),
            forall|k: int| 0 <= k < trace.len() ==> 0 <= (#[trigger] trace[k]).0 < n && nul@[trace[k].0],
            forall|x: int| 0 <= x < n && #[trigger] nul@[x] ==> exists|k: int| 0 <= k < trace.len() && trace[k].0 == x,
            count_true(nul@) == trace.len(),
        ensures
            nul@.len() == n,
            empty_derivation(g, trace),
            forall|x: int| 0 <= x < n && #[trigger] nul@[x] ==> exists|k: int| 0 <= k < trace.len() && trace[k].0 == x,
            forall|q: int| 0 <= q < nr ==> #[trigger] nul@[g.lhs(q)]
                || exists|i: int| 0 <= i < g.rhs(q).len() && !nul@[g.rhs(q)[i] as int],
        decreases n - trace.len(),
    {
        proof {
            lemma_count_true_le(nul@);
        }
        let mut dirty = false;
        let ghost start = nul@;
        let ghost start_len = trace.len();
        let mut r: usize = 0;
        while r < nr
            invariant
                g.wf(),
                n == g.num_symbols(),
                nr == g.num_rules(),
                nul@.len() == n,
                r <= nr,
                empty_derivation(g, trace),
                forall|k: int| 0 <= k < trace.len() ==> 0 <= (#[trigger] trace[k]).0 < n && nul@[trace[k].0],
                forall|x: int| 0 <= x < n && #[trigger] nul@[x] ==> exists|k: int| 0 <= k < trace.len() && trace[k].0 == x,
                count_true(nul@) == trace.len(),
                trace.len() >= start_len,
                start.len() == n,
                !dirty ==> nul@ == start && trace.len() == start_len,
                dirty ==> trace.len() > start_len,
                !dirty ==> forall|q: int| 0 <= q < r ==> #[trigger] nul@[g.lhs(q)]
                    || exists|i: int| 0 <= i < g.rhs(q).len() && !nul@[g.rhs(q)[i] as int],
            decreases nr - r,
        {
            let l = g.rule_lhs(r);
            if !nul[l] {
                let len = g.rule_len(r);
                let mut all = true;
                let mut i: usize = 0;
                while i < len
                    invariant
                        g.wf(),
                        r < nr,
                        nr == g.num_rules(),
                        n == g.num_symbols(),
                        nul@.len() == n,
                        len == g.rhs(r as int).len(),
                        i <= len,
                        all == forall|k: int| 0 <= k < i ==> nul@[#[trigger] g.rhs(r as int)[k] as int],
                    decreases len - i,
                {
                    let s = g.rule_rhs_at(r, i);
                    if !nul[s] {
                        all = false;
                    }
                    i += 1;
                }
                if all {
                    let ghost t0 = trace;
                    let ghost nul0 = nul@;
                    proof {
                        lemma_count_true_set(nul@, l as int);
                    }
                    nul.set(l, true);
                    proof {
                        trace = trace.push((l as int, r as int));
                        assert forall|k: int| 0 <= k < trace.len() implies #[trigger] derivation_step(g, trace, k) by {
                            if k < t0.len() {
                                assert(derivation_step(g, t0, k));
                                assert(trace[k] == t0[k]);
                                let q = trace[k].1;
                                assert forall|i: int| 0 <= i < g.rhs(q).len() implies
                                    listed_before(trace, k, #[trigger] g.rhs(q)[i] as int) by {
                                    assert(listed_before(t0, k, g.rhs(q)[i] as int));
                                    let j = choose|j: int| 0 <= j < k && t0[j].0 == g.rhs(q)[i] as int;
                                    assert(trace[j] == t0[j]);
                                }
                                assert(0 <= trace[k].1 < g.num_rules());
                                assert(g.lhs(trace[k].1) == trace[k].0);
                                assert(derivation_step(g, trace, k));
                            } else {
                                assert(trace[k] == (l as int, r as int));
                                let q = trace[k].1;
                                assert forall|i: int| 0 <= i < g.rhs(q).len() implies
                                    listed_before(trace, k, #[trigger] g.rhs(q)[i] as int) by {
                                    let s = g.rhs(q)[i] as int;
                                    assert(nul0[s]);
                                    let j = choose|j: int| 0 <= j < t0.len() && t0[j].0 == s;
                                    assert(trace[j] == t0[j]);
                                }
                                assert(0 <= trace[k].1 < g.num_rules());
                                assert(g.lhs(trace[k].1) == trace[k].0);
                                assert(derivation_step(g, trace, k));
                            }
                        }
                        assert forall|x: int| 0 <= x < n && #[trigger] nul@[x] implies
                            exists|k: int| 0 <= k < trace.len() && trace[k].0 == x by {
                            if x == l {
                                assert(trace[trace.len() - 1].0 == x);
                            } else {
                                let k = choose|k: int| 0 <= k < t0.len() && t0[k].0 == x;
                                assert(trace[k] == t0[k]);
                            }
                        }
                        assert forall|k: int| 0 <= k < trace.len() implies 0 <= (#[trigger] trace[k]).0 < n && nul@[trace[k].0] by {
                            if k < t0.len() {
                                assert(trace[k] == t0[k]);
                            }
                        }
                    }
                    dirty = true;
                }
            }
            r += 1;
        }
        proof {
            lemma_count_true_le(nul@);
        }
        if !dirty {
            break;
        }
    }
    proof {
        assert forall|x: int| 0 <= x < g.num_symbols() implies nul@[x] == nullable(g, x) by {
            if nul@[x] {
                let k = choose|k: int| 0 <= k < trace.len() && trace[k].0 == x;
                assert(empty_derivation(g, trace));
            }
            if nullable(g, x) {
                let t = choose|t: Seq<(int, int)>| #[trigger] empty_derivation(g, t)
                    && exists|k: int| 0 <= k < t.len() && t[k].0 == x;
                let k = choose|k: int| 0 <= k < t.len() && t[k].0 == x;
                assert forall|r: int| 0 <= r < g.num_rules()
                    && (forall|i: int| 0 <= i < g.rhs(r).len() ==> nul@[#[trigger] g.rhs(r)[i] as int])
                    implies #[trigger] nul@[g.lhs(r)] by {
                    if !nul@[g.lhs(r)] {
                        let i = choose|i: int| 0 <= i < g.rhs(r).len() && !nul@[g.rhs(r)[i] as int];
                    }
                }
                lemma_trace_closed(g, nul@, t, k);
            }
        }
    }
    nul
}

proof fn lemma_count_zero(s: Seq<bool>)
    requires
        forall|x: int| 0 <= x < s.len() ==> !s[x],
    ensures
        count_true(s) == 0,
    decreases s.len(),
{
    if s.len() > 0 {
        lemma_count_zero(s.drop_last());
    }
}


/// The node standing for symbol `x` in the containment graph: its FIRST set when `x` is a
/// nonterminal, the singleton `{x}` when it is a terminal.
pub open spec fn sym_node(g: &Grammar, x: int) -> int {
    if g.is_nonterminal(x) {
        x
    } else {
        2 * g.num_symbols() + x
    }
}

/// Node of FOLLOW(x).
pub open spec fn follow_node(g: &Grammar, x: int) -> int {
    g.num_symbols() + x
}

/// Node of the singleton terminal set `{t}`.
pub open spec fn terminal_node(g: &Grammar, t: int) -> int {
    2 * g.num_symbols() + t
}

/// In rule `r`, everything before position `i` is nullable, so FIRST(lhs) contains the set of `rhs[i]`.
pub open spec fn first_link(g: &Grammar, r: int, i: int) -> bool {
    0 <= r < g.num_rules() && 0 <= i < g.rhs(r).len() && all_nullable(g, g.rhs(r), 0, i)
}

/// In rule `r`, everything strictly between `i` and `j` is nullable, so FOLLOW(rhs[i]) contains the set of `rhs[j]`.
pub open spec fn follow_link(g: &Grammar, r: int, i: int, j: int) -> bool {
    0 <= r < g.num_rules() && 0 <= i < j < g.rhs(r).len() && all_nullable(g, g.rhs(r), i + 1, j)
}

/// In rule `r`, nonterminal `rhs[i]` is followed by nullable symbols only, so FOLLOW(rhs[i]) contains FOLLOW(lhs).
pub open spec fn inherit_link(g: &Grammar, r: int, i: int) -> bool {
    &&& 0 <= r < g.num_rules()
    &&& 0 <= i < g.rhs(r).len()
    &&& g.is_nonterminal(g.rhs(r)[i] as int)
    &&& all_nullable(g, g.rhs(r), i + 1, g.rhs(r).len() as int)
}

/// An edge `u -> v` of the containment graph: the set of `u` contains the set of `v`.
pub open spec fn ff_edge(g: &Grammar, u: int, v: int) -> bool {
    ||| exists|r: int, i: int| #[trigger] first_link(g, r, i) && u == g.lhs(r) && v == sym_node(g, g.rhs(r)[i] as int)
    ||| exists|r: int, i: int, j: int| #[trigger] follow_link(g, r, i, j) && u == follow_node(g, g.rhs(r)[i] as int)
        && v == sym_node(g, g.rhs(r)[j] as int)
    ||| exists|r: int, i: int| #[trigger] inherit_link(g, r, i) && u == follow_node(g, g.rhs(r)[i] as int)
        && v == follow_node(g, g.lhs(r))
}

/// The containment graph as a relation.
pub open spec fn ff_edges(g: &Grammar) -> spec_fn(int, int) -> bool {
    |u: int, v: int| ff_edge(g, u, v)
}

/// Terminal `t` is in FIRST(x): reachable from the node of `x` (FIRST(x) for a nonterminal,
/// the singleton `{x}` for a terminal).
pub open spec fn in_first(g: &Grammar, x: int, t: int) -> bool {
    reaches(ff_edges(g), sym_node(g, x), terminal_node(g, t))
}

/// Terminal `t` is in FOLLOW(x).
pub open spec fn in_follow(g: &Grammar, x: int, t: int) -> bool {
    reaches(ff_edges(g), follow_node(g, x), terminal_node(g, t))
}

/// The node of symbol `x`, computed.
fn node_of(g: &Grammar, x: usize, total: usize) -> (v: usize)
    requires
        g.wf(),
        x < g.num_symbols(),
        total == 3 * g.num_symbols(),
    ensures
        v == sym_node(g, x as int),
        v < total,
{
    if g.nonterminal_at(x) {
        x
    } else {
        let n = g.num_symbols_exec();
        2 * n + x
    }
}

/// Builds the containment graph.
fn build_graph(g: &Grammar, nul: &Vec<bool>) -> (adj: Vec<Vec<usize>>)
    requires
        g.wf(),
        nul@.len() == g.num_symbols(),
        forall|x: int| 0 <= x < g.num_symbols() ==> nul@[x] == nullable(g, x),
    ensures
        adj@.len() == 3 * g.num_symbols(),
        graph_ok(adj_view(adj@)),
        forall|u: int, v: int| #[trigger] edge(adj_view(adj@), u, v) == ff_edge(g, u, v),
{
    let n = g.num_symbols_exec();
    let nr = g.num_rules_exec();
    let mut adj = empty_graph(0);
    let mut k: usize = 0;
    while k < n
        invariant
            k <= n,
            adj@.len() == 3 * k,
            forall|x: int| 0 <= x < adj@.len() ==> (#[trigger] adj@[x])@.len() == 0,
        decreases n - k,
    {
        adj.push(Vec::new());
        adj.push(Vec::new());
        adj.push(Vec::new());
        k += 1;
    }
    let total = adj.len();
    proof {
        let gv = adj_view(adj@);
        assert forall|a: int, b: int| !(#[trigger] edge(gv, a, b)) by {
            if 0 <= a < gv.len() {
                assert(gv[a].len() == 0);
            }
        }
    }
    let mut r: usize = 0;
    while r < nr
        invariant
            g.wf(),
            n == g.num_symbols(),
            nr == g.num_rules(),
            total == 3 * n,
            nul@.len() == n,
            forall|x: int| 0 <= x < n ==> nul@[x] == nullable(g, x),
            r <= nr,
            adj@.len() == total,
            graph_ok(adj_view(adj@)),
            forall|u: int, v: int| #[trigger] edge(adj_view(adj@), u, v) ==> ff_edge(g, u, v),
            forall|q: int, i: int| 0 <= q < r && #[trigger] first_link(g, q, i) ==>
                edge(adj_view(adj@), g.lhs(q), sym_node(g, g.rhs(q)[i] as int)),
            forall|q: int, i: int, j: int| 0 <= q < r && #[trigger] follow_link(g, q, i, j) ==>
                edge(adj_view(adj@), follow_node(g, g.rhs(q)[i] as int), sym_node(g, g.rhs(q)[j] as int)),
            forall|q: int, i: int| 0 <= q < r && #[trigger] inherit_link(g, q, i) ==>
                edge(adj_view(adj@), follow_node(g, g.rhs(q)[i] as int), follow_node(g, g.lhs(q))),
        decreases nr - r,
    {
        let lhs = g.rule_lhs(r);
        let len = g.rule_len(r);
        // FIRST(lhs) contains the set of each symbol up to the first non-nullable one.
        let mut i: usize = 0;
        while i < len
            invariant
                g.wf(),
                n == g.num_symbols(),
                nr == g.num_rules(),
                total == 3 * n,
                nul@.len() == n,
                forall|x: int| 0 <= x < n ==> nul@[x] == nullable(g, x),
                r < nr,
                lhs == g.lhs(r as int),
                len == g.rhs(r as int).len(),
                i <= len,
                all_nullable(g, g.rhs(r as int), 0, i as int),
                adj@.len() == total,
                graph_ok(adj_view(adj@)),
                forall|u: int, v: int| #[trigger] edge(adj_view(adj@), u, v) ==> ff_edge(g, u, v),
                forall|q: int, i: int| 0 <= q < r && #[trigger] first_link(g, q, i) ==>
                    edge(adj_view(adj@), g.lhs(q), sym_node(g, g.rhs(q)[i] as int)),
                forall|q: int, i: int, j: int| 0 <= q < r && #[trigger] follow_link(g, q, i, j) ==>
                    edge(adj_view(adj@), follow_node(g, g.rhs(q)[i] as int), sym_node(g, g.rhs(q)[j] as int)),
                forall|q: int, i: int| 0 <= q < r && #[trigger] inherit_link(g, q, i) ==>
                    edge(adj_view(adj@), follow_node(g, g.rhs(q)[i] as int), follow_node(g, g.lhs(q))),
                forall|ii: int| 0 <= ii < i && #[trigger] first_link(g, r as int, ii) ==>
                    edge(adj_view(adj@), g.lhs(r as int), sym_node(g, g.rhs(r as int)[ii] as int)),
            ensures
                forall|ii: int| #[trigger] first_link(g, r as int, ii) ==>
                    edge(adj_view(adj@), g.lhs(r as int), sym_node(g, g.rhs(r as int)[ii] as int)),
            decreases len - i,
        {
            let x = g.rule_rhs_at(r, i);
            let v = node_of(g, x, total);
            proof {
                assert(first_link(g, r as int, i as int));
            }
            add_edge(&mut adj, lhs, v);
            if !nul[x] {
                proof {
                    assert forall|ii: int| #[trigger] first_link(g, r as int, ii) implies
                        edge(adj_view(adj@), g.lhs(r as int), sym_node(g, g.rhs(r as int)[ii] as int)) by {
                        if ii > i {
                            assert(nullable(g, g.rhs(r as int)[i as int] as int));
                        }
                    }
                }
                break;
            }
            i += 1;
        }
        // FOLLOW of each symbol contains the sets of the symbols after it, up to a non-nullable one.
        let mut i: usize = 0;
        while i < len
            invariant
                g.wf(),
                n == g.num_symbols(),
                nr == g.num_rules(),
                total == 3 * n,
                nul@.len() == n,
                forall|x: int| 0 <= x < n ==> nul@[x] == nullable(g, x),
                r < nr,
                lhs == g.lhs(r as int),
                len == g.rhs(r as int).len(),
                i <= len,
                adj@.len() == total,
                graph_ok(adj_view(adj@)),
                forall|u: int, v: int| #[trigger] edge(adj_view(adj@), u, v) ==> ff_edge(g, u, v),
                forall|q: int, i: int| 0 <= q <= r && #[trigger] first_link(g, q, i) ==>
                    edge(adj_view(adj@), g.lhs(q), sym_node(g, g.rhs(q)[i] as int)),
                forall|q: int, i: int, j: int| 0 <= q < r && #[trigger] follow_link(g, q, i, j) ==>
                    edge(adj_view(adj@), follow_node(g, g.rhs(q)[i] as int), sym_node(g, g.rhs(q)[j] as int)),
                forall|q: int, i: int| 0 <= q < r && #[trigger] inherit_link(g, q, i) ==>
                    edge(adj_view(adj@), follow_node(g, g.rhs(q)[i] as int), follow_node(g, g.lhs(q))),
                forall|ii: int, j: int| 0 <= ii < i && #[trigger] follow_link(g, r as int, ii, j) ==>
                    edge(adj_view(adj@), follow_node(g, g.rhs(r as int)[ii] as int), sym_node(g, g.rhs(r as int)[j] as int)),
            decreases len - i,
        {
            let x = g.rule_rhs_at(r, i);
            let from = n + x;
            let mut j: usize = i + 1;
            while j < len
                invariant
                    g.wf(),
                    n == g.num_symbols(),
                    nr == g.num_rules(),
                    total == 3 * n,
                    nul@.len() == n,
                    forall|x: int| 0 <= x < n ==> nul@[x] == nullable(g, x),
                    r < nr,
                    lhs == g.lhs(r as int),
                    len == g.rhs(r as int).len(),
                    i < len,
                    x == g.rhs(r as int)[i as int],
                    from == follow_node(g, x as int),
                    i + 1 <= j <= len,
                    all_nullable(g, g.rhs(r as int), i + 1, j as int),
                    adj@.len() == total,
                    graph_ok(adj_view(adj@)),
                    forall|u: int, v: int| #[trigger] edge(adj_view(adj@), u, v) ==> ff_edge(g, u, v),
                    forall|q: int, i: int| 0 <= q <= r && #[trigger] first_link(g, q, i) ==>
                        edge(adj_view(adj@), g.lhs(q), sym_node(g, g.rhs(q)[i] as int)),
                    forall|q: int, i: int, j: int| 0 <= q < r && #[trigger] follow_link(g, q, i, j) ==>
                        edge(adj_view(adj@), follow_node(g, g.rhs(q)[i] as int), sym_node(g, g.rhs(q)[j] as int)),
                    forall|q: int, i: int| 0 <= q < r && #[trigger] inherit_link(g, q, i) ==>
                        edge(adj_view(adj@), follow_node(g, g.rhs(q)[i] as int), follow_node(g, g.lhs(q))),
                    forall|ii: int, jj: int| 0 <= ii < i && #[trigger] follow_link(g, r as int, ii, jj) ==>
                        edge(adj_view(adj@), follow_node(g, g.rhs(r as int)[ii] as int), sym_node(g, g.rhs(r as int)[jj] as int)),
                    forall|jj: int| i < jj < j && #[trigger] follow_link(g, r as int, i as int, jj) ==>
                        edge(adj_view(adj@), follow_node(g, g.rhs(r as int)[i as int] as int), sym_node(g, g.rhs(r as int)[jj] as int)),
                ensures
                    forall|jj: int| #[trigger] follow_link(g, r as int, i as int, jj) ==>
                        edge(adj_view(adj@), follow_node(g, g.rhs(r as int)[i as int] as int), sym_node(g, g.rhs(r as int)[jj] as int)),
                decreases len - j,
            {
                let y = g.rule_rhs_at(r, j);
                let v = node_of(g, y, total);
                proof {
                    assert(follow_link(g, r as int, i as int, j as int));
                }
                add_edge(&mut adj, from, v);
                if !nul[y] {
                    proof {
                        assert forall|jj: int| #[trigger] follow_link(g, r as int, i as int, jj) implies
                            edge(adj_view(adj@), follow_node(g, g.rhs(r as int)[i as int] as int), sym_node(g, g.rhs(r as int)[jj] as int)) by {
                            if jj > j {
                                assert(nullable(g, g.rhs(r as int)[j as int] as int));
                            }
                        }
                    }
                    break;
                }
                j += 1;
            }
            i += 1;
        }
        // FOLLOW of each nonterminal followed only by nullable symbols contains FOLLOW(lhs).
        let mut k: usize = len;
        while k > 0
            invariant
                g.wf(),
                n == g.num_symbols(),
                nr == g.num_rules(),
                total == 3 * n,
                nul@.len() == n,
                forall|x: int| 0 <= x < n ==> nul@[x] == nullable(g, x),
                r < nr,
                lhs == g.lhs(r as int),
                len == g.rhs(r as int).len(),
                k <= len,
                all_nullable(g, g.rhs(r as int), k as int, len as int),
                adj@.len() == total,
                graph_ok(adj_view(adj@)),
                forall|u: int, v: int| #[trigger] edge(adj_view(adj@), u, v) ==> ff_edge(g, u, v),
                forall|q: int, i: int| 0 <= q <= r && #[trigger] first_link(g, q, i) ==>
                    edge(adj_view(adj@), g.lhs(q), sym_node(g, g.rhs(q)[i] as int)),
                forall|q: int, i: int, j: int| 0 <= q <= r && #[trigger] follow_link(g, q, i, j) ==>
                    edge(adj_view(adj@), follow_node(g, g.rhs(q)[i] as int), sym_node(g, g.rhs(q)[j] as int)),
                forall|q: int, i: int| 0 <= q < r && #[trigger] inherit_link(g, q, i) ==>
                    edge(adj_view(adj@), follow_node(g, g.rhs(q)[i] as int), follow_node(g, g.lhs(q))),
                forall|ii: int| k <= ii < len && #[trigger] inherit_link(g, r as int, ii) ==>
                    edge(adj_view(adj@), follow_node(g, g.rhs(r as int)[ii] as int), follow_node(g, g.lhs(r as int))),
            ensures
                forall|ii: int| #[trigger] inherit_link(g, r as int, ii) ==>
                    edge(adj_view(adj@), follow_node(g, g.rhs(r as int)[ii] as int), follow_node(g, g.lhs(r as int))),
            decreases k,
        {
            let x = g.rule_rhs_at(r, k - 1);
            if g.nonterminal_at(x) {
                proof {
                    assert(inherit_link(g, r as int, k - 1));
                }
                add_edge(&mut adj, n + x, n + lhs);
            }
            if !nul[x] {
                proof {
                    assert forall|ii: int| #[trigger] inherit_link(g, r as int, ii) implies
                        edge(adj_view(adj@), follow_node(g, g.rhs(r as int)[ii] as int), follow_node(g, g.lhs(r as int))) by {
                        if ii < k - 1 {
                            assert(nullable(g, g.rhs(r as int)[k - 1] as int));
                        }
                    }
                }
                break;
            }
            k -= 1;
        }
        r += 1;
    }
    proof {
        assert forall|u: int, v: int| #[trigger] edge(adj_view(adj@), u, v) == ff_edge(g, u, v) by {
            if ff_edge(g, u, v) {
                if exists|q: int, i: int| #[trigger] first_link(g, q, i) && u == g.lhs(q) && v == sym_node(g, g.rhs(q)[i] as int) {
                    let (q, i) = choose|q: int, i: int| #[trigger] first_link(g, q, i) && u == g.lhs(q) && v == sym_node(g, g.rhs(q)[i] as int);
                } else if exists|q: int, i: int, j: int| #[trigger] follow_link(g, q, i, j) && u == follow_node(g, g.rhs(q)[i] as int)
                    && v == sym_node(g, g.rhs(q)[j] as int) {
                    let (q, i, j) = choose|q: int, i: int, j: int| #[trigger] follow_link(g, q, i, j) && u == follow_node(g, g.rhs(q)[i] as int)
                        && v == sym_node(g, g.rhs(q)[j] as int);
                } else {
                    let (q, i) = choose|q: int, i: int| #[trigger] inherit_link(g, q, i) && u == follow_node(g, g.rhs(q)[i] as int)
                        && v == follow_node(g, g.lhs(q));
                }
            }
        }
    }
    adj
}

/// In rule `r`, everything after position `i` is nullable, so `lhs` can end with `rhs[i]`.
pub open spec fn end_link(g: &Grammar, r: int, i: int) -> bool {
    0 <= r < g.num_rules() && 0 <= i < g.rhs(r).len() && all_nullable(g, g.rhs(r), i + 1, g.rhs(r).len() as int)
}

/// An edge `a -> b`: some rule for `a` ends with `b` followed by nullable symbols only.
pub open spec fn end_edge(g: &Grammar, a: int, b: int) -> bool {
    exists|r: int, i: int| #[trigger] end_link(g, r, i) && a == g.lhs(r) && b == g.rhs(r)[i]
}

/// The can-end-with graph as a relation.
pub open spec fn end_edges(g: &Grammar) -> spec_fn(int, int) -> bool {
    |a: int, b: int| end_edge(g, a, b)
}

/// Builds the can-end-with graph over the symbols.
fn build_end_graph(g: &Grammar, nul: &Vec<bool>) -> (adj: Vec<Vec<usize>>)
    requires
        g.wf(),
        nul@.len() == g.num_symbols(),
        forall|x: int| 0 <= x < g.num_symbols() ==> nul@[x] == nullable(g, x),
    ensures
        adj@.len() == g.num_symbols(),
        graph_ok(adj_view(adj@)),
        forall|a: int, b: int| #[trigger] edge(adj_view(adj@), a, b) == end_edge(g, a, b),
{
    let n = g.num_symbols_exec();
    let nr = g.num_rules_exec();
    let mut adj = empty_graph(n);
    let mut r: usize = 0;
    while r < nr
        invariant
            g.wf(),
            n == g.num_symbols(),
            nr == g.num_rules(),
            nul@.len() == n,
            forall|x: int| 0 <= x < n ==> nul@[x] == nullable(g, x),
            r <= nr,
            adj@.len() == n,
            graph_ok(adj_view(adj@)),
            forall|a: int, b: int| #[trigger] edge(adj_view(adj@), a, b) ==> end_edge(g, a, b),
            forall|q: int, i: int| 0 <= q < r && #[trigger] end_link(g, q, i) ==>
                edge(adj_view(adj@), g.lhs(q), g.rhs(q)[i] as int),
        decreases nr - r,
    {
        let lhs = g.rule_lhs(r);
        let len = g.rule_len(r);
        let mut k: usize = len;
        while k > 0
            invariant
                g.wf(),
                n == g.num_symbols(),
                nr == g.num_rules(),
                nul@.len() == n,
                forall|x: int| 0 <= x < n ==> nul@[x] == nullable(g, x),
                r < nr,
                lhs == g.lhs(r as int),
                len == g.rhs(r as int).len(),
                k <= len,
                all_nullable(g, g.rhs(r as int), k as int, len as int),
                adj@.len() == n,
                graph_ok(adj_view(adj@)),
                forall|a: int, b: int| #[trigger] edge(adj_view(adj@), a, b) ==> end_edge(g, a, b),
                forall|q: int, i: int| 0 <= q < r && #[trigger] end_link(g, q, i) ==>
                    edge(adj_view(adj@), g.lhs(q), g.rhs(q)[i] as int),
                forall|ii: int| k <= ii < len && #[trigger] end_link(g, r as int, ii) ==>
                    edge(adj_view(adj@), g.lhs(r as int), g.rhs(r as int)[ii] as int),
            ensures
                forall|ii: int| #[trigger] end_link(g, r as int, ii) ==>
                    edge(adj_view(adj@), g.lhs(r as int), g.rhs(r as int)[ii] as int),
            decreases k,
        {
            let x = g.rule_rhs_at(r, k - 1);
            proof {
                assert(end_link(g, r as int, k - 1));
            }
            add_edge(&mut adj, lhs, x);
            if !nul[x] {
                proof {
                    assert forall|ii: int| #[trigger] end_link(g, r as int, ii) implies
                        edge(adj_view(adj@), g.lhs(r as int), g.rhs(r as int)[ii] as int) by {
                        if ii < k - 1 {
                            assert(nullable(g, g.rhs(r as int)[k - 1] as int));
                        }
                    }
                }
                break;
            }
            k -= 1;
        }
        r += 1;
    }
    proof {
        assert forall|a: int, b: int| #[trigger] edge(adj_view(adj@), a, b) == end_edge(g, a, b) by {
            if end_edge(g, a, b) {
                let (q, i) = choose|q: int, i: int| #[trigger] end_link(g, q, i) && a == g.lhs(q) && b == g.rhs(q)[i];
            }
        }
    }
    adj
}

/// `v` lists, in increasing order, exactly the symbols of `g` that satisfy `p`.
pub open spec fn lists_exactly<'g>(v: Seq<Symbol<'g>>, g: &'g Grammar, p: spec_fn(int) -> bool) -> bool {
    &&& forall|i: int| 0 <= i < v.len() ==> (#[trigger] v[i]).grammar == g && v[i].index < g.num_symbols() && p(v[i].index as int)
    &&& forall|i: int, j: int| 0 <= i < j < v.len() ==> (#[trigger] v[i]).index < (#[trigger] v[j]).index
    &&& forall|x: int| 0 <= x < g.num_symbols() && #[trigger] p(x) ==> exists|i: int| 0 <= i < v.len() && v[i].index == x
}

/// The symbols whose entry in `bits` is set, in increasing order.
fn symbols_where<'g>(g: &'g Grammar, bits: &Vec<bool>, Ghost(p): Ghost<spec_fn(int) -> bool>) -> (v: Vec<Symbol<'g>>)
    requires
        bits@.len() == g.num_symbols(),
        forall|x: int| 0 <= x < g.num_symbols() ==> bits@[x] == p(x),
    ensures
        lists_exactly(v@, g, p),
{
    let n = bits.len();
    let mut v: Vec<Symbol<'g>> = Vec::new();
    let mut x: usize = 0;
    while x < n
        invariant
            n == g.num_symbols(),
            bits@.len() == n,
            forall|y: int| 0 <= y < n ==> bits@[y] == p(y),
            x <= n,
            forall|i: int| 0 <= i < v@.len() ==> (#[trigger] v@[i]).grammar == g && v@[i].index < x && p(v@[i].index as int),
            forall|i: int, j: int| 0 <= i < j < v@.len() ==> (#[trigger] v@[i]).index < (#[trigger] v@[j]).index,
            forall|y: int| 0 <= y < x && #[trigger] p(y) ==> exists|i: int| 0 <= i < v@.len() && v@[i].index == y,
        decreases n - x,
    {
        let ghost v0 = v@;
        if bits[x] {
            v.push(Symbol { grammar: g, index: x });
        }
        proof {
            assert forall|y: int| 0 <= y < x + 1 && #[trigger] p(y) implies exists|i: int| 0 <= i < v@.len() && v@[i].index == y by {
                if y < x {
                    let i = choose|i: int| 0 <= i < v0.len() && v0[i].index == y;
                    assert(v@[i] == v0[i]);
                } else {
                    assert(v@[v@.len() - 1].index == y);
                }
            }
        }
        x += 1;
    }
    v
}

/// Sets every entry of `bits` whose entry in `row` is set.
pub fn union_into(bits: &mut Vec<bool>, row: &Vec<bool>)
    requires
        old(bits)@.len() == row@.len(),
    ensures
        final(bits)@.len() == row@.len(),
        forall|w: int| 0 <= w < row@.len() ==> #[trigger] final(bits)@[w] == (old(bits)@[w] || row@[w]),
{
    let n = row.len();
    let mut u: usize = 0;
    while u < n
        invariant
            n == row@.len(),
            bits@.len() == n,
            old(bits)@.len() == n,
            u <= n,
            forall|w: int| 0 <= w < u ==> #[trigger] bits@[w] == (old(bits)@[w] || row@[w]),
            forall|w: int| u <= w < n ==> #[trigger] bits@[w] == old(bits)@[w],
        decreases n - u,
    {
        if row[u] {
            bits.set(u, true);
        }
        u += 1;
    }
}

/// The indices of a sequence of symbols.
pub open spec fn indices<'g>(s: Seq<Symbol<'g>>) -> Seq<usize> {
    s.map_values(|x: Symbol<'g>| x.index)
}

/// Terminal `t` begins some string derived from the sequence `s`: it is in the set of
/// some `s[i]` all of whose predecessors are nullable.
pub open spec fn in_first_seq(g: &Grammar, s: Seq<usize>, t: int) -> bool {
    exists|i: int| 0 <= i < s.len() && all_nullable(g, s, 0, i)
        && #[trigger] reaches(ff_edges(g), sym_node(g, s[i] as int), terminal_node(g, t))
}

/// No edge of the containment graph leaves a terminal node.
proof fn lemma_terminal_node_sink(g: &Grammar, t: int, v: int)
    requires
        g.wf(),
        0 <= t < g.num_symbols(),
    ensures
        reaches(ff_edges(g), terminal_node(g, t), v) <==> v == terminal_node(g, t),
{
    let e = ff_edges(g);
    let u = terminal_node(g, t);
    if reaches(e, u, v) {
        let p = choose|p: Seq<int>| #[trigger] crate::reach::is_path(e, p) && p[0] == u && p[p.len() - 1] == v;
        if p.len() > 1 {
            assert(e(p[0], p[1]));
            if exists|q: int, i: int| #[trigger] first_link(g, q, i) && u == g.lhs(q) && p[1] == sym_node(g, g.rhs(q)[i] as int) {
                let (q, i) = choose|q: int, i: int| #[trigger] first_link(g, q, i) && u == g.lhs(q) && p[1] == sym_node(g, g.rhs(q)[i] as int);
            } else if exists|q: int, i: int, j: int| #[trigger] follow_link(g, q, i, j) && u == follow_node(g, g.rhs(q)[i] as int)
                && p[1] == sym_node(g, g.rhs(q)[j] as int) {
                let (q, i, j) = choose|q: int, i: int, j: int| #[trigger] follow_link(g, q, i, j) && u == follow_node(g, g.rhs(q)[i] as int)
                    && p[1] == sym_node(g, g.rhs(q)[j] as int);
            } else {
                let (q, i) = choose|q: int, i: int| #[trigger] inherit_link(g, q, i) && u == follow_node(g, g.rhs(q)[i] as int)
                    && p[1] == follow_node(g, g.lhs(q));
            }
        }
    }
    if v == u {
        crate::reach::lemma_reaches_self(e, u);
    }
}

/// Nullable symbols and FIRST / FOLLOW sets of a grammar, computed once.
pub struct GrammarAnalysis<'g> {
    grammar: &'g Grammar,
    nullable: Vec<bool>,
    graph: Vec<Vec<usize>>,
    first_rows: Vec<Vec<bool>>,
    ends: Vec<Vec<usize>>,
}

impl<'g> GrammarAnalysis<'g> {
    /// The analysed grammar.
    pub closed spec fn spec_grammar(&self) -> &'g Grammar {
        self.grammar
    }

    /// The cached tables agree with their definitions.
    pub closed spec fn inv(&self) -> bool {
        let g = self.grammar;
        let n = g.num_symbols();
        &&& self.nullable@.len() == n
        &&& forall|x: int| 0 <= x < n ==> self.nullable@[x] == nullable(g, x)
        &&& self.graph@.len() == 3 * n
        &&& 3 * n <= usize::MAX
        &&& graph_ok(adj_view(self.graph@))
        &&& edges_of(adj_view(self.graph@)) == ff_edges(g)
        &&& self.first_rows@.len() == n
        &&& forall|x: int| 0 <= x < n ==> (#[trigger] self.first_rows@[x])@.len() == n
        &&& forall|x: int, t: int| 0 <= x < n && 0 <= t < n ==> self.first_rows@[x]@[t] == in_first(g, x, t)
        &&& self.ends@.len() == n
        &&& graph_ok(adj_view(self.ends@))
        &&& edges_of(adj_view(self.ends@)) == end_edges(g)
    }

    /// A well-formed analysis of a well-formed grammar.
    pub open spec fn wf(&self) -> bool {
        self.spec_grammar().wf() && self.inv()
    }

    /// `s` is a symbol of the analysed grammar.
    pub open spec fn owns(&self, s: Symbol<'g>) -> bool {
        s.grammar == self.spec_grammar() && s.index < self.spec_grammar().num_symbols()
    }

    /// Computes the nullable set, the containment graph, every FIRST set and the can-end-with graph.
    pub fn build(grammar: &'g Grammar) -> (r: GrammarAnalysis<'g>)
        requires
            grammar.wf(),
        ensures
            r.wf(),
            r.spec_grammar() == grammar,
    {
        let nul = compute_nullable(grammar);
        let graph = build_graph(grammar, &nul);
        let ends = build_end_graph(grammar, &nul);
        proof {
            lemma_reaches_same(edges_of(adj_view(graph@)), ff_edges(grammar));
            lemma_reaches_same(edges_of(adj_view(ends@)), end_edges(grammar));
        }
        let n = grammar.num_symbols_exec();
        let total = graph.len();
        let mut first_rows: Vec<Vec<bool>> = Vec::new();
        let mut x: usize = 0;
        while x < n
            invariant
                grammar.wf(),
                n == grammar.num_symbols(),
                total == 3 * n,
                graph@.len() == total,
                graph_ok(adj_view(graph@)),
                edges_of(adj_view(graph@)) == ff_edges(grammar),
                x <= n,
                first_rows@.len() == x,
                forall|y: int| 0 <= y < x ==> (#[trigger] first_rows@[y])@.len() == n,
                forall|y: int, t: int| 0 <= y < x && 0 <= t < n ==> first_rows@[y]@[t] == in_first(grammar, y, t),
            decreases n - x,
        {
            let start = node_of(grammar, x, total);
            let seen = reachable(&graph, start);
            let mut row: Vec<bool> = Vec::new();
            let mut t: usize = 0;
            while t < n
                invariant
                    n == grammar.num_symbols(),
                    total == 3 * n,
                    x < n,
                    start == sym_node(grammar, x as int),
                    seen@.len() == total,
                    forall|v: int| 0 <= v < total ==> (seen@[v] <==> reaches(edges_of(adj_view(graph@)), start as int, v)),
                    edges_of(adj_view(graph@)) == ff_edges(grammar),
                    t <= n,
                    row@.len() == t,
                    forall|u: int| 0 <= u < t ==> row@[u] == in_first(grammar, x as int, u),
                decreases n - t,
            {
                row.push(seen[2 * n + t]);
                t += 1;
            }
            first_rows.push(row);
            proof {
                assert forall|y: int, t: int| 0 <= y < x + 1 && 0 <= t < n implies first_rows@[y]@[t] == in_first(grammar, y, t) by {
                }
            }
            x += 1;
        }
        GrammarAnalysis { grammar, nullable: nul, graph, first_rows, ends }
    }

    /// The grammar this analysis describes.
    pub fn grammar(&self) -> (g: &'g Grammar)
        ensures
            g == self.spec_grammar(),
    {
        self.grammar
    }

    /// The nullable symbols, in increasing order of index.
    pub fn nullables(&self) -> (v: Vec<Symbol<'g>>)
        requires
            self.wf(),
        ensures
            lists_exactly(v@, self.spec_grammar(), |x: int| nullable(self.spec_grammar(), x)),
    {
        symbols_where(self.grammar, &self.nullable, Ghost(|x: int| nullable(self.grammar, x)))
    }

    /// Whether `symbol` derives the empty string.
    pub fn is_nullable(&self, symbol: Symbol<'g>) -> (b: bool)
        requires
            self.wf(),
            self.owns(symbol),
        ensures
            b == nullable(self.spec_grammar(), symbol.index as int),
    {
        self.nullable[symbol.index]
    }

    /// The graphs fit in memory, so three times the number of symbols fits in a `usize`.
    pub proof fn lemma_size(&self)
        requires
            self.wf(),
        ensures
            3 * self.spec_grammar().num_symbols() <= usize::MAX,
    {
    }

    /// Whether the symbol at index `x` derives the empty string.
    pub fn nullable_at(&self, x: usize) -> (b: bool)
        requires
            self.wf(),
            x < self.spec_grammar().num_symbols(),
        ensures
            b == nullable(self.spec_grammar(), x as int),
    {
        self.nullable[x]
    }

    /// FIRST of a symbol: the terminals that begin some string it derives.
    pub fn first(&self, symbol: Symbol<'g>) -> (v: Vec<Symbol<'g>>)
        requires
            self.wf(),
            self.owns(symbol),
        ensures
            lists_exactly(v@, self.spec_grammar(), |t: int| in_first(self.spec_grammar(), symbol.index as int, t)),
    {
        symbols_where(self.grammar, &self.first_rows[symbol.index], Ghost(|t: int| in_first(self.grammar, symbol.index as int, t)))
    }

    /// FIRST of `symbol` as a table over all symbols.
    pub fn first_row(&self, symbol: usize) -> (row: &Vec<bool>)
        requires
            self.wf(),
            symbol < self.spec_grammar().num_symbols(),
        ensures
            row@.len() == self.spec_grammar().num_symbols(),
            forall|t: int| 0 <= t < row@.len() ==> row@[t] == in_first(self.spec_grammar(), symbol as int, t),
    {
        &self.first_rows[symbol]
    }

    /// FOLLOW of a symbol: the terminals that can come right after it.
    pub fn follow(&self, symbol: Symbol<'g>) -> (v: Vec<Symbol<'g>>)
        requires
            self.wf(),
            self.owns(symbol),
        ensures
            lists_exactly(v@, self.spec_grammar(), |t: int| in_follow(self.spec_grammar(), symbol.index as int, t)),
    {
        let row = self.follow_row(symbol.index);
        symbols_where(self.grammar, &row, Ghost(|t: int| in_follow(self.grammar, symbol.index as int, t)))
    }

    /// FOLLOW of the symbol at index `x`, as a table over all symbols.
    pub fn follow_row(&self, x: usize) -> (row: Vec<bool>)
        requires
            self.wf(),
            x < self.spec_grammar().num_symbols(),
        ensures
            row@.len() == self.spec_grammar().num_symbols(),
            forall|t: int| 0 <= t < row@.len() ==> row@[t] == in_follow(self.spec_grammar(), x as int, t),
    {
        let g = self.grammar;
        let n = g.num_symbols_exec();
        let total = self.graph.len();
        assert(total == 3 * n);
        let seen = reachable(&self.graph, n + x);
        let mut row: Vec<bool> = Vec::new();
        let mut t: usize = 0;
        while t < n
            invariant
                self.wf(),
                g == self.spec_grammar(),
                n == g.num_symbols(),
                seen@.len() == 3 * n,
                total == 3 * n,
                x < n,
                forall|v: int| 0 <= v < 3 * n ==> (seen@[v] <==> reaches(edges_of(adj_view(self.graph@)), n + x, v)),
                t <= n,
                row@.len() == t,
                forall|u: int| 0 <= u < t ==> row@[u] == in_follow(g, x as int, u),
            decreases n - t,
        {
            row.push(seen[2 * n + t]);
            t += 1;
        }
        row
    }

    /// Whether some string derived from the symbol at `a` ends with the symbol at `b`.
    pub fn can_end_with_at(&self, a: usize, b: usize) -> (r: bool)
        requires
            self.wf(),
            a < self.spec_grammar().num_symbols(),
            b < self.spec_grammar().num_symbols(),
        ensures
            r == reaches(end_edges(self.spec_grammar()), a as int, b as int),
    {
        let seen = reachable(&self.ends, a);
        seen[b]
    }

    /// Whether every symbol of `seq` is nullable (true for the empty sequence).
    pub fn is_nullable_seq(&self, seq: &[Symbol<'g>]) -> (b: bool)
        requires
            self.wf(),
            forall|i: int| 0 <= i < seq@.len() ==> self.owns(#[trigger] seq@[i]),
        ensures
            b == all_nullable(self.spec_grammar(), indices(seq@), 0, seq@.len() as int),
    {
        let mut i: usize = 0;
        while i < seq.len()
            invariant
                self.wf(),
                forall|k: int| 0 <= k < seq@.len() ==> self.owns(#[trigger] seq@[k]),
                i <= seq@.len(),
                all_nullable(self.spec_grammar(), indices(seq@), 0, i as int),
            decreases seq@.len() - i,
        {
            if !self.nullable[seq[i].index] {
                proof {
                    assert(indices(seq@)[i as int] == seq@[i as int].index);
                }
                return false;
            }
            assert(indices(seq@)[i as int] == seq@[i as int].index);
            i += 1;
        }
        true
    }

    /// FIRST of a sequence: the union of the sets of its symbols up to and including the
    /// first one that is not nullable.
    pub fn first_seq(&self, seq: &[Symbol<'g>]) -> (v: Vec<Symbol<'g>>)
        requires
            self.wf(),
            forall|i: int| 0 <= i < seq@.len() ==> self.owns(#[trigger] seq@[i]),
        ensures
            lists_exactly(v@, self.spec_grammar(), |t: int| in_first_seq(self.spec_grammar(), indices(seq@), t)),
    {
        let mut s: Vec<usize> = Vec::new();
        let mut i: usize = 0;
        while i < seq.len()
            invariant
                i <= seq@.len(),
                s@.len() == i,
                forall|k: int| 0 <= k < i ==> s@[k] == (#[trigger] seq@[k]).index,
            decreases seq@.len() - i,
        {
            s.push(seq[i].index);
            i += 1;
        }
        assert(s@ =~= indices(seq@));
        let bits = self.first_bits(&s);
        symbols_where(self.grammar, &bits, Ghost(|t: int| in_first_seq(self.grammar, indices(seq@), t)))
    }

    /// FIRST of a sequence of symbol indices, as a table over all symbols.
    pub fn first_bits(&self, seq: &Vec<usize>) -> (bits: Vec<bool>)
        requires
            self.wf(),
            forall|i: int| 0 <= i < seq@.len() ==> (#[trigger] seq@[i]) < self.spec_grammar().num_symbols(),
        ensures
            bits@.len() == self.spec_grammar().num_symbols(),
            forall|u: int| 0 <= u < bits@.len() ==> (bits@[u] <==> in_first_seq(self.spec_grammar(), seq@, u)),
    {
        let g = self.grammar;
        let n = g.num_symbols_exec();
        let ghost s = seq@;
        let mut bits: Vec<bool> = Vec::new();
        let mut t: usize = 0;
        while t < n
            invariant
                t <= n,
                bits@.len() == t,
                forall|u: int| 0 <= u < t ==> !bits@[u],
            decreases n - t,
        {
            bits.push(false);
            t += 1;
        }
        let mut i: usize = 0;
        let mut done = false;
        while i < seq.len() && !done
            invariant
                self.wf(),
                g == self.spec_grammar(),
                n == g.num_symbols(),
                s == seq@,
                forall|k: int| 0 <= k < seq@.len() ==> (#[trigger] seq@[k]) < n,
                i <= seq@.len(),
                !done ==> all_nullable(g, s, 0, i as int),
                done ==> i > 0 && all_nullable(g, s, 0, i - 1) && !nullable(g, s[i - 1] as int),
                bits@.len() == n,
                forall|u: int| 0 <= u < n ==> (bits@[u] <==> exists|k: int| 0 <= k < i && all_nullable(g, s, 0, k)
                    && #[trigger] reaches(ff_edges(g), sym_node(g, s[k] as int), terminal_node(g, u))),
            decreases seq@.len() - i,
        {
            let x = seq[i];
            let ghost bits0 = bits@;
            let ghost cur = |w: int| reaches(ff_edges(g), sym_node(g, x as int), terminal_node(g, w));
            if g.nonterminal_at(x) {
                let row = &self.first_rows[x];
                union_into(&mut bits, row);
                proof {
                    assert(sym_node(g, x as int) == x);
                    assert forall|w: int| 0 <= w < n implies bits@[w] == (bits0[w] || cur(w)) by {
                        assert(row@[w] == in_first(g, x as int, w));
                    }
                }
            } else {
                bits.set(x, true);
                proof {
                    assert forall|w: int| 0 <= w < n implies
                        reaches(ff_edges(g), sym_node(g, x as int), terminal_node(g, w)) == (w == x) by {
                        lemma_terminal_node_sink(g, x as int, terminal_node(g, w));
                    }
                    assert forall|w: int| 0 <= w < n implies bits@[w] == (bits0[w] || cur(w)) by {
                        lemma_terminal_node_sink(g, x as int, terminal_node(g, w));
                    }
                }
            }
            proof {
                assert forall|u: int| 0 <= u < n implies (bits@[u] <==> exists|k: int| 0 <= k < i + 1 && all_nullable(g, s, 0, k)
                    && #[trigger] reaches(ff_edges(g), sym_node(g, s[k] as int), terminal_node(g, u))) by {
                    assert(bits@[u] == (bits0[u] || cur(u)));
                    if cur(u) {
                        assert(reaches(ff_edges(g), sym_node(g, s[i as int] as int), terminal_node(g, u)));
                    }
                }
            }
            done = !self.nullable[x];
            i += 1;
        }
        proof {
            assert forall|u: int| 0 <= u < n implies (bits@[u] <==> in_first_seq(g, s, u)) by {
                if in_first_seq(g, s, u) {
                    let k = choose|k: int| 0 <= k < s.len() && all_nullable(g, s, 0, k)
                        && #[trigger] reaches(ff_edges(g), sym_node(g, s[k] as int), terminal_node(g, u));
                    if k >= i {
                        assert(nullable(g, s[i - 1] as int));
                    }
                }
            }
        }
        bits
    }

    /// Whether some string derived from `a` ends with `b` (every symbol ends with itself).
    pub fn can_end_with(&self, a: Symbol<'g>, b: Symbol<'g>) -> (r: bool)
        requires
            self.wf(),
            self.owns(a),
            self.owns(b),
        ensures
            r == reaches(end_edges(self.spec_grammar()), a.index as int, b.index as int),
    {
        let seen = reachable(&self.ends, a.index);
        seen[b.index]
    }
}

/// FIRST of the empty sequence is empty, and FIRST of a one-terminal sequence is that terminal.
pub proof fn first_seq_empty_and_terminal(g: &Grammar, x: usize)
    requires
        g.wf(),
        0 <= x < g.num_symbols(),
        !g.is_nonterminal(x as int),
    ensures
        forall|t: int| !(#[trigger] in_first_seq(g, Seq::<usize>::empty(), t)),
        forall|t: int| 0 <= t < g.num_symbols() ==> (#[trigger] in_first_seq(g, seq![x as usize], t) <==> t == x),
{
    assert forall|t: int| 0 <= t < g.num_symbols() implies (#[trigger] in_first_seq(g, seq![x as usize], t) <==> t == x) by {
        let s = seq![x];
        lemma_terminal_node_sink(g, x as int, terminal_node(g, t));
        assert(s[0] == x);
        assert(sym_node(g, x as int) == terminal_node(g, x as int));
        if t == x {
            assert(all_nullable(g, s, 0, 0));
            assert(reaches(ff_edges(g), sym_node(g, s[0] as int), terminal_node(g, t)));
        }
    }
}

/// A sequence is nullable exactly when both of its parts are; appending the empty sequence
/// changes nothing.
pub proof fn nullable_seq_concat(g: &Grammar, a: Seq<usize>, b: Seq<usize>)
    ensures
        all_nullable(g, a + b, 0, (a.len() + b.len()) as int)
            == (all_nullable(g, a, 0, a.len() as int) && all_nullable(g, b, 0, b.len() as int)),
        a + Seq::<usize>::empty() == a,
{
    let c = a + b;
    if all_nullable(g, c, 0, (a.len() + b.len()) as int) {
        assert forall|k: int| 0 <= k < a.len() implies nullable(g, #[trigger] a[k] as int) by {
            assert(c[k] == a[k]);
        }
        assert forall|k: int| 0 <= k < b.len() implies nullable(g, #[trigger] b[k] as int) by {
            assert(c[a.len() + k] == b[k]);
        }
    }
    if all_nullable(g, a, 0, a.len() as int) && all_nullable(g, b, 0, b.len() as int) {
        assert forall|k: int| 0 <= k < a.len() + b.len() implies nullable(g, #[trigger] c[k] as int) by {
            if k < a.len() {
                assert(c[k] == a[k]);
            } else {
                assert(c[k] == b[k - a.len()]);
            }
        }
    }
    assert(a + Seq::<usize>::empty() =~= a);
}


/// Link `k` of chain `c` toward terminal `t`: `(A, r, i)` with `r` a rule for `A` whose
/// first `i` symbols are nullable and whose symbol at `i` is the next link's symbol (the
/// terminal `t` at the last link).
pub open spec fn chain_link(g: &Grammar, c: Seq<(int, int, int)>, k: int, t: int) -> bool {
    let (a, r, i) = c[k];
    &&& 0 <= r < g.num_rules()
    &&& g.lhs(r) == a
    &&& 0 <= i < g.rhs(r).len()
    &&& all_nullable(g, g.rhs(r), 0, i)
    &&& if k + 1 < c.len() { g.rhs(r)[i] as int == c[k + 1].0 } else { g.rhs(r)[i] as int == t }
}

/// `c` is a leftmost derivation, from `c[0].0`, of a string that begins with `t`: each link
/// expands the symbol that the previous one exposed after erasing a nullable prefix.
pub open spec fn first_chain(g: &Grammar, c: Seq<(int, int, int)>, t: int) -> bool {
    c.len() >= 1 && forall|k: int| 0 <= k < c.len() ==> #[trigger] chain_link(g, c, k, t)
}

/// Terminal `t` begins some string derived from `x`: `x` is `t` itself (zero steps), or a
/// chain of rules leads from `x` to `t`.
pub open spec fn derives_first(g: &Grammar, x: int, t: int) -> bool {
    &&& 0 <= t < g.num_symbols()
    &&& !g.is_nonterminal(t)
    &&& (x == t || exists|c: Seq<(int, int, int)>| #[trigger] first_chain(g, c, t) && c[0].0 == x)
}

/// Every edge of the containment graph leaves a FIRST or a FOLLOW node, and an edge from a
/// FIRST node comes from a rule position.
proof fn lemma_edge_from_first(g: &Grammar, u: int, v: int)
    requires
        g.wf(),
        ff_edge(g, u, v),
    ensures
        0 <= u < 2 * g.num_symbols(),
        u < g.num_symbols() ==> exists|r: int, i: int| #[trigger] first_link(g, r, i) && u == g.lhs(r)
            && v == sym_node(g, g.rhs(r)[i] as int),
{
    if exists|r: int, i: int| #[trigger] first_link(g, r, i) && u == g.lhs(r) && v == sym_node(g, g.rhs(r)[i] as int) {
    } else if exists|r: int, i: int, j: int| #[trigger] follow_link(g, r, i, j) && u == follow_node(g, g.rhs(r)[i] as int)
        && v == sym_node(g, g.rhs(r)[j] as int) {
        let (r, i, j) = choose|r: int, i: int, j: int| #[trigger] follow_link(g, r, i, j) && u == follow_node(g, g.rhs(r)[i] as int)
            && v == sym_node(g, g.rhs(r)[j] as int);
        assert(g.rhs(r)[i] < g.num_symbols());
    } else {
        let (r, i) = choose|r: int, i: int| #[trigger] inherit_link(g, r, i) && u == follow_node(g, g.rhs(r)[i] as int)
            && v == follow_node(g, g.lhs(r));
        assert(g.rhs(r)[i] < g.num_symbols());
    }
}

proof fn lemma_path_first_nodes(g: &Grammar, p: Seq<int>, k: int)
    requires
        g.wf(),
        crate::reach::is_path(ff_edges(g), p),
        0 <= p[0] < g.num_symbols(),
        0 <= k < p.len() - 1,
    ensures
        0 <= p[k] < g.num_symbols(),
    decreases k,
{
    if k > 0 {
        lemma_path_first_nodes(g, p, k - 1);
        assert(ff_edges(g)(p[k - 1], p[k]));
        assert(ff_edges(g)(p[k], p[k + 1]));
        lemma_edge_from_first(g, p[k - 1], p[k]);
        lemma_edge_from_first(g, p[k], p[k + 1]);
        let (r, i) = choose|r: int, i: int| #[trigger] first_link(g, r, i) && p[k - 1] == g.lhs(r)
            && p[k] == sym_node(g, g.rhs(r)[i] as int);
        assert(g.rhs(r)[i] < g.num_symbols());
    }
}

/// FIRST(x) is exactly the set of terminals that begin a string derived from `x`.
pub proof fn first_is_derived_prefix(g: &Grammar, x: int, t: int)
    requires
        g.wf(),
        0 <= x < g.num_symbols(),
        0 <= t < g.num_symbols(),
    ensures
        in_first(g, x, t) <==> derives_first(g, x, t),
{
    if g.is_nonterminal(x) {
        lemma_first_of_nonterminal(g, x, t);
    } else {
        lemma_terminal_node_sink(g, x, terminal_node(g, t));
        assert(sym_node(g, x) == terminal_node(g, x));
        if exists|c: Seq<(int, int, int)>| #[trigger] first_chain(g, c, t) && c[0].0 == x {
            let c = choose|c: Seq<(int, int, int)>| #[trigger] first_chain(g, c, t) && c[0].0 == x;
            assert(chain_link(g, c, 0, t));
            assert(g.is_nonterminal(x));
        }
    }
}

proof fn lemma_first_of_nonterminal(g: &Grammar, x: int, t: int)
    requires
        g.wf(),
        0 <= x < g.num_symbols(),
        g.is_nonterminal(x),
        0 <= t < g.num_symbols(),
    ensures
        in_first(g, x, t) <==> derives_first(g, x, t),
{
    assert(sym_node(g, x) == x);
    let n = g.num_symbols() as int;
    let e = ff_edges(g);
    if in_first(g, x, t) {
        let p = choose|p: Seq<int>| #[trigger] crate::reach::is_path(e, p) && p[0] == x && p[p.len() - 1] == terminal_node(g, t);
        let m = p.len() - 1;
        assert(m >= 1);
        let c = Seq::new(m as nat, |k: int| {
            let (r, i) = choose|r: int, i: int| #[trigger] first_link(g, r, i) && p[k] == g.lhs(r)
                && p[k + 1] == sym_node(g, g.rhs(r)[i] as int);
            (p[k], r, i)
        });
        assert forall|k: int| 0 <= k < c.len() implies #[trigger] chain_link(g, c, k, t) by {
            lemma_path_first_nodes(g, p, k);
            assert(e(p[k], p[k + 1]));
            lemma_edge_from_first(g, p[k], p[k + 1]);
            let (r, i) = choose|r: int, i: int| #[trigger] first_link(g, r, i) && p[k] == g.lhs(r)
                && p[k + 1] == sym_node(g, g.rhs(r)[i] as int);
            assert(c[k] == (p[k], r, i));
            assert(g.rhs(r)[i] < n);
            if k + 1 < c.len() {
                lemma_path_first_nodes(g, p, k + 1);
                assert(c[k + 1].0 == p[k + 1]);
            }
        }
        assert(first_chain(g, c, t));
        let (r, i) = choose|r: int, i: int| #[trigger] first_link(g, r, i) && p[m - 1] == g.lhs(r)
            && p[m] == sym_node(g, g.rhs(r)[i] as int);
        assert(chain_link(g, c, m - 1, t));
        assert(c[m - 1] == (p[m - 1], r, i));
        assert(g.rhs(r)[i] as int == t);
        assert(g.rhs(r)[i] < n);
        if g.is_nonterminal(t) {
            assert(sym_node(g, t) == t);
        }
    }
    if derives_first(g, x, t) {
        let c = choose|c: Seq<(int, int, int)>| #[trigger] first_chain(g, c, t) && c[0].0 == x;
        let p = Seq::new((c.len() + 1) as nat, |k: int| if k < c.len() { c[k].0 } else { terminal_node(g, t) });
        assert forall|k: int| 0 <= k < p.len() - 1 implies e(#[trigger] p[k], p[k + 1]) by {
            assert(chain_link(g, c, k, t));
            let (a, r, i) = c[k];
            assert(first_link(g, r, i));
            assert(g.rhs(r)[i] < n);
            if k + 1 < c.len() {
                assert(chain_link(g, c, k + 1, t));
                assert(g.is_nonterminal(g.rhs(r)[i] as int));
            }
            assert(ff_edge(g, p[k], p[k + 1]));
        }
        assert(crate::reach::is_path(e, p));
    }
}

} // verus!
