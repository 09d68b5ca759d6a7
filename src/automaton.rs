//! The LR automaton shared by the LR(0) and LR(1) tables: items with lookahead sets,
//! closure, GOTO and the canonical collection of states.
//!
//! An item is a rule, a dot position and a lookahead set over the tokens `0..=n`, where
//! `n` (the number of symbols) stands for the end of input. Each state holds at most one
//! item per rule and position. For LR(0) every item carries exactly the end-of-input
//! token, so the lookahead carries no information and closure reduces to plain LR(0)
//! closure.

use vstd::prelude::*;
use crate::analysis::{all_nullable, in_first_seq, nullable, GrammarAnalysis};
use crate::grammar::Grammar;
use crate::reach::{lemma_closed_set_contains, lemma_path_step, lemma_reaches_self, reaches};

verus! {

/// An item `rule`, dot at `pos`, with the tokens of `la` that are set as its lookahead.
pub struct CoreItem {
    pub rule: usize,
    pub pos: usize,
    pub la: Vec<bool>,
}

/// A triple `(rule, pos, token)`: one item with one lookahead token.
pub type Triple = (int, int, int);

/// A set of triples.
pub type ItemPred = spec_fn(Triple) -> bool;

/// Item `it` carries triple `t`.
pub open spec fn item_has(it: CoreItem, t: Triple) -> bool {
    &&& it.rule == t.0
    &&& it.pos == t.1
    &&& 0 <= t.2 < it.la@.len()
    &&& it.la@[t.2]
}

/// Some item of `items` carries triple `t`.
pub open spec fn carries(items: Seq<CoreItem>, t: Triple) -> bool {
    exists|k: int| 0 <= k < items.len() && item_has(#[trigger] items[k], t)
}

/// The triples carried by `items`.
pub open spec fn view_of(items: Seq<CoreItem>) -> ItemPred {
    |t: Triple| carries(items, t)
}

/// Items refer to rules and positions of `g`, carry a table over all tokens,
/// and no two share a rule and position.
pub open spec fn wf_items(g: &Grammar, items: Seq<CoreItem>) -> bool {
    &&& forall|k: int| 0 <= k < items.len() ==> {
        &&& (#[trigger] items[k]).rule < g.num_rules()
        &&& items[k].pos <= g.rhs(items[k].rule as int).len()
        &&& items[k].la@.len() == g.num_symbols() + 1
    }
    &&& forall|k1: int, k2: int| 0 <= k1 < items.len() && 0 <= k2 < items.len() && k1 != k2
        ==> (#[trigger] items[k1]).rule != (#[trigger] items[k2]).rule || items[k1].pos != items[k2].pos
}

/// Token `b` is a lookahead of the items started from triple `(r, p, a)`: in LR(1) mode,
/// `b` begins what follows the symbol after the dot, or that rest is nullable and `b` is `a`;
/// in LR(0) mode, `b` is `a`.
pub open spec fn lookahead_ok(g: &Grammar, lr1: bool, r: int, p: int, a: int, b: int) -> bool {
    let beta = g.rhs(r).subrange(p + 1, g.rhs(r).len() as int);
    if lr1 {
        (0 <= b < g.num_symbols() && in_first_seq(g, beta, b)) || (b == a && all_nullable(g, beta, 0, beta.len() as int))
    } else {
        b == a
    }
}

/// Closure step: the dot of `t` stands before nonterminal `B` and `u` starts a rule for `B`
/// with a lookahead allowed by `t`.
pub open spec fn expands(g: &Grammar, lr1: bool, t: Triple, u: Triple) -> bool {
    &&& 0 <= t.0 < g.num_rules()
    &&& 0 <= t.1 < g.rhs(t.0).len()
    &&& g.is_nonterminal(g.rhs(t.0)[t.1] as int)
    &&& 0 <= u.0 < g.num_rules()
    &&& g.lhs(u.0) == g.rhs(t.0)[t.1] as int
    &&& u.1 == 0
    &&& lookahead_ok(g, lr1, t.0, t.1, t.2, u.2)
}

/// The closure step as a relation.
pub open spec fn expand_rel(g: &Grammar, lr1: bool) -> spec_fn(Triple, Triple) -> bool {
    |t: Triple, u: Triple| expands(g, lr1, t, u)
}

/// The closure of a set of triples: everything reachable from it by closure steps.
pub open spec fn closure_of(g: &Grammar, lr1: bool, kernel: ItemPred) -> ItemPred {
    |t: Triple| exists|t0: Triple| #[trigger] kernel(t0) && reaches(expand_rel(g, lr1), t0, t)
}

/// The items of `i` with the dot moved over `x`.
pub open spec fn goto_kernel(g: &Grammar, i: ItemPred, x: int) -> ItemPred {
    |t: Triple| 0 <= t.0 < g.num_rules() && 1 <= t.1 <= g.rhs(t.0).len() && g.rhs(t.0)[t.1 - 1] == x
        && i((t.0, t.1 - 1, t.2))
}

/// GOTO(i, x): the closure of the kernel of `i` over `x`.
pub open spec fn goto_of(g: &Grammar, lr1: bool, i: ItemPred, x: int) -> ItemPred {
    closure_of(g, lr1, goto_kernel(g, i, x))
}

/// A copy of a table of flags.
pub fn copy_bits(v: &Vec<bool>) -> (r: Vec<bool>)
    ensures
        r@ == v@,
{
    let mut r: Vec<bool> = Vec::new();
    let mut i: usize = 0;
    while i < v.len()
        invariant
            i <= v@.len(),
            r@ == v@.subrange(0, i as int),
        decreases v@.len() - i,
    {
        r.push(v[i]);
        i += 1;
    }
    assert(r@ =~= v@);
    r
}

/// A table of `len` flags with only `at` set.
pub fn single_bit(len: usize, at: usize) -> (r: Vec<bool>)
    ensures
        r@.len() == len,
        forall|b: int| 0 <= b < len ==> r@[b] == (b == at),
{
    let mut r: Vec<bool> = Vec::new();
    let mut i: usize = 0;
    while i < len
        invariant
            i <= len,
            r@.len() == i,
            forall|b: int| 0 <= b < i ==> r@[b] == (b == at),
        decreases len - i,
    {
        r.push(i == at);
        i += 1;
    }
    r
}

/// The lookaheads of the items started from triple `(r, p, a)`.
fn lookahead_bits(an: &GrammarAnalysis, lr1: bool, r: usize, p: usize, a: usize) -> (bits: Vec<bool>)
    requires
        an.wf(),
        r < an.spec_grammar().num_rules(),
        p < an.spec_grammar().rhs(r as int).len(),
        a <= an.spec_grammar().num_symbols(),
    ensures
        bits@.len() == an.spec_grammar().num_symbols() + 1,
        forall|b: int| 0 <= b <= an.spec_grammar().num_symbols() ==> bits@[b] == lookahead_ok(an.spec_grammar(), lr1, r as int, p as int, a as int, b),
{
    let g = an.grammar();
    let n = g.num_symbols_exec();
    proof {
        an.lemma_size();
    }
    if !lr1 {
        return single_bit(n + 1, a);
    }
    let len = g.rule_len(r);
    let ghost beta = g.rhs(r as int).subrange(p + 1, len as int);
    let mut suffix: Vec<usize> = Vec::new();
    let mut all = true;
    let mut i: usize = p + 1;
    while i < len
        invariant
            an.wf(),
            g == an.spec_grammar(),
            r < g.num_rules(),
            len == g.rhs(r as int).len(),
            p + 1 <= i <= len,
            beta == g.rhs(r as int).subrange(p + 1, len as int),
            suffix@ == g.rhs(r as int).subrange(p + 1, i as int),
            all == all_nullable(g, suffix@, 0, suffix@.len() as int),
        decreases len - i,
    {
        let x = g.rule_rhs_at(r, i);
        let nx = an.nullable_at(x);
        suffix.push(x);
        proof {
            assert(suffix@ =~= g.rhs(r as int).subrange(p + 1, i + 1));
            if all && nx {
                assert forall|k: int| 0 <= k < suffix@.len() implies nullable(g, #[trigger] suffix@[k] as int) by {
                    if k < suffix@.len() - 1 {
                        assert(suffix@[k] == g.rhs(r as int)[p + 1 + k]);
                    }
                }
            }
            if !nx {
                assert(suffix@[suffix@.len() - 1] == x);
            }
            if !all {
                let k = choose|k: int| 0 <= k < suffix@.len() - 1 && !nullable(g, #[trigger] suffix@[k] as int);
            }
        }
        all = all && nx;
        i += 1;
    }
    proof {
        assert(suffix@ =~= beta);
        assert forall|k: int| 0 <= k < suffix@.len() implies (#[trigger] suffix@[k]) < g.num_symbols() by {
            assert(suffix@[k] == g.rhs(r as int)[p + 1 + k]);
        }
    }
    let first = an.first_bits(&suffix);
    let mut bits = copy_bits(&first);
    bits.push(false);
    if all {
        bits.set(a, true);
    }
    bits
}


/// Work entry `(q, c)` has been queued.
pub open spec fn queued(work: Seq<(usize, usize)>, q: int, c: int) -> bool {
    exists|j: int| 0 <= j < work.len() && work[j].0 == q && work[j].1 == c
}

proof fn lemma_queued_push(work: Seq<(usize, usize)>, x: (usize, usize))
    ensures
        forall|q: int, c: int| #[trigger] queued(work, q, c) ==> queued(work.push(x), q, c),
        queued(work.push(x), x.0 as int, x.1 as int),
{
    assert forall|q: int, c: int| #[trigger] queued(work, q, c) implies queued(work.push(x), q, c) by {
        let j = choose|j: int| 0 <= j < work.len() && work[j].0 == q && work[j].1 == c;
        assert(work.push(x)[j] == work[j]);
    }
    assert(work.push(x)[work.len() as int] == x);
}

/// The triple that work entry `w` stands for.
pub open spec fn work_triple(items: Seq<CoreItem>, w: (usize, usize)) -> Triple {
    (items[w.0 as int].rule as int, items[w.0 as int].pos as int, w.1 as int)
}

/// A closure step from a member of a closure stays in it.
pub proof fn lemma_closure_step(g: &Grammar, lr1: bool, kernel: ItemPred, t: Triple, u: Triple)
    requires
        closure_of(g, lr1, kernel)(t),
        expands(g, lr1, t, u),
    ensures
        closure_of(g, lr1, kernel)(u),
{
    let t0 = choose|t0: Triple| #[trigger] kernel(t0) && reaches(expand_rel(g, lr1), t0, t);
    lemma_path_step(expand_rel(g, lr1), t0, t, u);
}

/// The index of the item with rule `r` and position `p`, added with an empty lookahead if missing.
fn find_or_add(items: &mut Vec<CoreItem>, r: usize, p: usize, Ghost(g): Ghost<&Grammar>, width: usize) -> (k: usize)
    requires
        wf_items(g, old(items)@),
        r < g.num_rules(),
        p <= g.rhs(r as int).len(),
        width == g.num_symbols() + 1,
    ensures
        wf_items(g, final(items)@),
        k < final(items)@.len(),
        final(items)@[k as int].rule == r,
        final(items)@[k as int].pos == p,
        final(items)@.len() == old(items)@.len() || final(items)@.len() == old(items)@.len() + 1,
        forall|j: int| 0 <= j < old(items)@.len() ==> #[trigger] final(items)@[j] == old(items)@[j],
        final(items)@.len() == old(items)@.len() + 1 ==> k == old(items)@.len()
            && forall|b: int| 0 <= b < width ==> !(#[trigger] final(items)@[k as int].la@[b]),
        forall|t: Triple| #[trigger] carries(final(items)@, t) == carries(old(items)@, t),
{
    let mut k: usize = 0;
    while k < items.len()
        invariant
            items@ == old(items)@,
            wf_items(g, items@),
            k <= items@.len(),
            forall|j: int| 0 <= j < k ==> (#[trigger] items@[j]).rule != r || items@[j].pos != p,
        decreases items@.len() - k,
    {
        if items[k].rule == r && items[k].pos == p {
            return k;
        }
        k += 1;
    }
    let ghost old_items = items@;
    let la = single_bit(width, width);
    items.push(CoreItem { rule: r, pos: p, la });
    proof {
        assert(items@ == old_items.push(items@[k as int]));
        assert forall|t: Triple| #[trigger] carries(items@, t) == carries(old_items, t) by {
            if carries(items@, t) {
                let j = choose|j: int| 0 <= j < items@.len() && item_has(#[trigger] items@[j], t);
                if j < old_items.len() {
                    assert(old_items[j] == items@[j]);
                }
            }
            if carries(old_items, t) {
                let j = choose|j: int| 0 <= j < old_items.len() && item_has(#[trigger] old_items[j], t);
                assert(old_items[j] == items@[j]);
            }
        }
    }
    k
}

/// Sets lookahead token `b` of item `k`.
fn set_bit(items: &mut Vec<CoreItem>, k: usize, b: usize, Ghost(g): Ghost<&Grammar>)
    requires
        wf_items(g, old(items)@),
        k < old(items)@.len(),
        b < old(items)@[k as int].la@.len(),
    ensures
        wf_items(g, final(items)@),
        final(items)@.len() == old(items)@.len(),
        forall|j: int| 0 <= j < old(items)@.len() ==> (#[trigger] final(items)@[j]).rule == old(items)@[j].rule
            && final(items)@[j].pos == old(items)@[j].pos,
        final(items)@[k as int].la@ == old(items)@[k as int].la@.update(b as int, true),
        forall|j: int| 0 <= j < old(items)@.len() && j != k ==> #[trigger] final(items)@[j] == old(items)@[j],
        forall|t: Triple| #[trigger] carries(final(items)@, t) == (carries(old(items)@, t)
            || t == (old(items)@[k as int].rule as int, old(items)@[k as int].pos as int, b as int)),
{
    let ghost old_items = items@;
    items[k].la.set(b, true);
    proof {
        let nt = (old_items[k as int].rule as int, old_items[k as int].pos as int, b as int);
        assert forall|t: Triple| #[trigger] carries(items@, t) == (carries(old_items, t) || t == nt) by {
            if carries(items@, t) {
                let j = choose|j: int| 0 <= j < items@.len() && item_has(#[trigger] items@[j], t);
                if j != k || t.2 != b {
                    assert(item_has(old_items[j], t));
                }
            }
            if carries(old_items, t) {
                let j = choose|j: int| 0 <= j < old_items.len() && item_has(#[trigger] old_items[j], t);
                assert(item_has(items@[j], t));
            }
            if t == nt {
                assert(item_has(items@[k as int], t));
            }
        }
    }
}

/// The closure of `kernel`: every item reachable from it by closure steps, one item per
/// rule and position, with the lookaheads of all the ways it is reached.
pub fn closure(an: &GrammarAnalysis, lr1: bool, kernel: Vec<CoreItem>) -> (items: Vec<CoreItem>)
    requires
        an.wf(),
        wf_items(an.spec_grammar(), kernel@),
    ensures
        wf_items(an.spec_grammar(), items@),
        forall|t: Triple| #[trigger] carries(items@, t) == closure_of(an.spec_grammar(), lr1, view_of(kernel@))(t),
{
    let g = an.grammar();
    let n = g.num_symbols_exec();
    let nr = g.num_rules_exec();
    proof {
        an.lemma_size();
    }
    let width = n + 1;
    let ghost kp = view_of(kernel@);
    let ghost e = expand_rel(g, lr1);
    let mut items = kernel;
    let mut work: Vec<(usize, usize)> = Vec::new();
    let mut k: usize = 0;
    while k < items.len()
        invariant
            g == an.spec_grammar(),
            width == g.num_symbols() + 1,
            wf_items(g, items@),
            kp == view_of(items@),
            k <= items@.len(),
            forall|j: int| 0 <= j < work@.len() ==> (#[trigger] work@[j]).0 < items@.len() && work@[j].1 < width
                && items@[work@[j].0 as int].la@[work@[j].1 as int],
            forall|q: int, b: int| 0 <= q < k && 0 <= b < width && #[trigger] items@[q].la@[b] ==>
                queued(work@, q, b),
        decreases items@.len() - k,
    {
        let mut b: usize = 0;
        while b < width
            invariant
                g == an.spec_grammar(),
                width == g.num_symbols() + 1,
                wf_items(g, items@),
                k < items@.len(),
                b <= width,
                forall|j: int| 0 <= j < work@.len() ==> (#[trigger] work@[j]).0 < items@.len() && work@[j].1 < width
                    && items@[work@[j].0 as int].la@[work@[j].1 as int],
                forall|q: int, c: int| 0 <= q < k && 0 <= c < width && #[trigger] items@[q].la@[c] ==>
                    queued(work@, q, c),
                forall|c: int| 0 <= c < b && #[trigger] items@[k as int].la@[c] ==> queued(work@, k as int, c),
            decreases width - b,
        {
            if items[k].la[b] {
                proof {
                    lemma_queued_push(work@, (k, b));
                }
                work.push((k, b));
            }
            b += 1;
        }
        k += 1;
    }
    proof {
        assert forall|t: Triple| kp(t) implies #[trigger] closure_of(g, lr1, kp)(t) by {
            lemma_reaches_self(e, t);
        }
    }
    let mut i: usize = 0;
    while i < work.len()
        invariant
            an.wf(),
            g == an.spec_grammar(),
            n == g.num_symbols(),
            nr == g.num_rules(),
            width == n + 1,
            e == expand_rel(g, lr1),
            wf_items(g, items@),
            forall|t: Triple| #[trigger] carries(items@, t) ==> closure_of(g, lr1, kp)(t),
            forall|t: Triple| kp(t) ==> #[trigger] carries(items@, t),
            i <= work@.len(),
            forall|j: int| 0 <= j < work@.len() ==> (#[trigger] work@[j]).0 < items@.len() && work@[j].1 < width
                && items@[work@[j].0 as int].la@[work@[j].1 as int],
            forall|q: int, b: int| 0 <= q < items@.len() && 0 <= b < width && #[trigger] items@[q].la@[b] ==>
                queued(work@, q, b),
            forall|j: int, u: Triple| 0 <= j < i && #[trigger] expands(g, lr1, work_triple(items@, work@[j]), u)
                ==> carries(items@, u),
        decreases usize::MAX - i,
    {
        let (k, a) = work[i];
        let r = items[k].rule;
        let p = items[k].pos;
        let ghost ti = (r as int, p as int, a as int);
        assert(item_has(items@[k as int], ti));
        let len = g.rule_len(r);
        if p < len && g.nonterminal_at(g.rule_rhs_at(r, p)) {
            let target = g.rule_rhs_at(r, p);
            let la = lookahead_bits(an, lr1, r, p, a);
            let mut r2: usize = 0;
            while r2 < nr
                invariant
                    an.wf(),
                    g == an.spec_grammar(),
                    n == g.num_symbols(),
                    nr == g.num_rules(),
                    width == n + 1,
                    e == expand_rel(g, lr1),
                    wf_items(g, items@),
                    forall|t: Triple| #[trigger] carries(items@, t) ==> closure_of(g, lr1, kp)(t),
                    forall|t: Triple| kp(t) ==> #[trigger] carries(items@, t),
                    i < work@.len(),
                    forall|j: int| 0 <= j < work@.len() ==> (#[trigger] work@[j]).0 < items@.len() && work@[j].1 < width
                        && items@[work@[j].0 as int].la@[work@[j].1 as int],
                    forall|q: int, b: int| 0 <= q < items@.len() && 0 <= b < width && #[trigger] items@[q].la@[b] ==>
                        queued(work@, q, b),
                    forall|j: int, u: Triple| 0 <= j < i && #[trigger] expands(g, lr1, work_triple(items@, work@[j]), u)
                        ==> carries(items@, u),
                    work@[i as int] == (k, a),
                    k < items@.len(),
                    items@[k as int].rule == r,
                    items@[k as int].pos == p,
                    ti == (r as int, p as int, a as int),
                    carries(items@, ti),
                    r < nr,
                    p < g.rhs(r as int).len(),
                    target == g.rhs(r as int)[p as int],
                    g.is_nonterminal(target as int),
                    la@.len() == width,
                    forall|b: int| 0 <= b < width ==> la@[b] == lookahead_ok(g, lr1, r as int, p as int, a as int, b),
                    r2 <= nr,
                    forall|u: Triple| 0 <= u.0 < r2 && #[trigger] expands(g, lr1, ti, u) ==> carries(items@, u),
                decreases nr - r2,
            {
                if g.rule_lhs(r2) == target {
                    let ghost items0 = items@;
                    let k2 = find_or_add(&mut items, r2, 0, Ghost(g), width);
                    proof {
                        assert forall|j: int| 0 <= j < work@.len() implies work_triple(items@, #[trigger] work@[j])
                            == work_triple(items0, work@[j]) by {
                            assert(items@[work@[j].0 as int] == items0[work@[j].0 as int]);
                        }
                        assert forall|q: int, c: int| 0 <= q < items@.len() && 0 <= c < width && #[trigger] items@[q].la@[c]
                            implies queued(work@, q, c) by {
                            if q < items0.len() {
                                assert(items@[q] == items0[q]);
                            }
                        }
                        assert forall|jj: int| 0 <= jj < work@.len() implies (#[trigger] work@[jj]).0 < items@.len() && work@[jj].1 < width
                            && items@[work@[jj].0 as int].la@[work@[jj].1 as int] by {
                            assert(items@[work@[jj].0 as int] == items0[work@[jj].0 as int]);
                        }
                        assert(items@[k as int] == items0[k as int]);
                    }
                    let mut b: usize = 0;
                    while b < width
                        invariant
                            an.wf(),
                            g == an.spec_grammar(),
                            n == g.num_symbols(),
                            nr == g.num_rules(),
                            width == n + 1,
                            e == expand_rel(g, lr1),
                            wf_items(g, items@),
                            forall|t: Triple| #[trigger] carries(items@, t) ==> closure_of(g, lr1, kp)(t),
                            forall|t: Triple| kp(t) ==> #[trigger] carries(items@, t),
                            i < work@.len(),
                            forall|j: int| 0 <= j < work@.len() ==> (#[trigger] work@[j]).0 < items@.len() && work@[j].1 < width
                                && items@[work@[j].0 as int].la@[work@[j].1 as int],
                            forall|q: int, c: int| 0 <= q < items@.len() && 0 <= c < width && #[trigger] items@[q].la@[c] ==>
                                queued(work@, q, c),
                            forall|j: int, u: Triple| 0 <= j < i && #[trigger] expands(g, lr1, work_triple(items@, work@[j]), u)
                                ==> carries(items@, u),
                            work@[i as int] == (k, a),
                            k < items@.len(),
                            items@[k as int].rule == r,
                            items@[k as int].pos == p,
                            ti == (r as int, p as int, a as int),
                            carries(items@, ti),
                            r < nr,
                            p < g.rhs(r as int).len(),
                            target == g.rhs(r as int)[p as int],
                            g.is_nonterminal(target as int),
                            la@.len() == width,
                            forall|c: int| 0 <= c < width ==> la@[c] == lookahead_ok(g, lr1, r as int, p as int, a as int, c),
                            r2 < nr,
                            g.lhs(r2 as int) == target,
                            forall|u: Triple| 0 <= u.0 < r2 && #[trigger] expands(g, lr1, ti, u) ==> carries(items@, u),
                            k2 < items@.len(),
                            items@[k2 as int].rule == r2,
                            items@[k2 as int].pos == 0,
                            b <= width,
                            forall|c: int| 0 <= c < b && la@[c] ==> carries(items@, (r2 as int, 0, c)),
                        decreases width - b,
                    {
                        if la[b] && !items[k2].la[b] {
                            let ghost items0 = items@;
                            let ghost w0 = work@;
                            proof {
                                assert(expands(g, lr1, ti, (r2 as int, 0, b as int)));
                                lemma_closure_step(g, lr1, kp, ti, (r2 as int, 0, b as int));
                            }
                            set_bit(&mut items, k2, b, Ghost(g));
                            proof {
                                lemma_queued_push(work@, (k2, b));
                            }
                            work.push((k2, b));
                            proof {
                                assert forall|j: int| 0 <= j < w0.len() implies #[trigger] work@[j] == w0[j] by {}
                                assert forall|j: int| 0 <= j < work@.len() implies work_triple(items@, #[trigger] work@[j])
                                    == work_triple(items0, work@[j]) by {
                                    if j < w0.len() {
                                        assert(work@[j] == w0[j]);
                                    }
                                }
                                assert forall|q: int, c: int| 0 <= q < items@.len() && 0 <= c < width && #[trigger] items@[q].la@[c]
                                    implies queued(work@, q, c) by {
                                    if q != k2 || c != b {
                                        assert(items0[q].la@[c]);
                                    }
                                }
                                assert forall|j: int, u: Triple| 0 <= j < i && #[trigger] expands(g, lr1, work_triple(items@, work@[j]), u)
                                    implies carries(items@, u) by {
                                    assert(work_triple(items@, work@[j]) == work_triple(items0, w0[j]));
                                    assert(carries(items0, u));
                                }
                                assert forall|jj: int| 0 <= jj < work@.len() implies (#[trigger] work@[jj]).0 < items@.len() && work@[jj].1 < width
                                    && items@[work@[jj].0 as int].la@[work@[jj].1 as int] by {
                                    if jj < w0.len() {
                                        assert(work@[jj] == w0[jj]);
                                        assert(items0[w0[jj].0 as int].la@[w0[jj].1 as int]);
                                    }
                                }
                            }
                        } else if la[b] {
                            proof {
                                assert(item_has(items@[k2 as int], (r2 as int, 0, b as int)));
                            }
                        }
                        b += 1;
                    }
                    proof {
                        assert forall|u: Triple| 0 <= u.0 < r2 + 1 && #[trigger] expands(g, lr1, ti, u) implies carries(items@, u) by {
                            if u.0 == r2 {
                                assert(la@[u.2]);
                            }
                        }
                    }
                }
                r2 += 1;
            }
        }
        proof {
            assert(work_triple(items@, work@[i as int]) == ti);
            assert forall|j: int, u: Triple| 0 <= j < i + 1 && #[trigger] expands(g, lr1, work_triple(items@, work@[j]), u)
                implies carries(items@, u) by {
                if j == i {
                    assert(expands(g, lr1, ti, u));
                }
            }
        }
        i += 1;
    }
    proof {
        let s = view_of(items@);
        assert forall|a: Triple, b: Triple| s(a) && #[trigger] e(a, b) implies s(b) by {
            let q = choose|q: int| 0 <= q < items@.len() && item_has(#[trigger] items@[q], a);
            assert(items@[q].la@[a.2]);
            let j = choose|j: int| 0 <= j < work@.len() && work@[j].0 == q && work@[j].1 == a.2;
            assert(work_triple(items@, work@[j]) == a);
            assert(expands(g, lr1, a, b));
        }
        assert forall|t: Triple| #[trigger] carries(items@, t) == closure_of(g, lr1, kp)(t) by {
            if closure_of(g, lr1, kp)(t) {
                let t0 = choose|t0: Triple| #[trigger] kp(t0) && reaches(e, t0, t);
                lemma_closed_set_contains(e, s, t0, t);
            }
        }
    }
    items
}

/// GOTO(items, x): the closure of the items of `items` with the dot moved over `x`.
pub fn goto(an: &GrammarAnalysis, lr1: bool, items: &Vec<CoreItem>, x: usize) -> (r: Vec<CoreItem>)
    requires
        an.wf(),
        wf_items(an.spec_grammar(), items@),
    ensures
        wf_items(an.spec_grammar(), r@),
        forall|t: Triple| #[trigger] carries(r@, t) == goto_of(an.spec_grammar(), lr1, view_of(items@), x as int)(t),
{
    let g = an.grammar();
    let ghost gk = goto_kernel(g, view_of(items@), x as int);
    let mut kernel: Vec<CoreItem> = Vec::new();
    let ghost mut src: Seq<int> = Seq::empty();
    let mut k: usize = 0;
    while k < items.len()
        invariant
            g == an.spec_grammar(),
            g.wf(),
            wf_items(g, items@),
            wf_items(g, kernel@),
            k <= items@.len(),
            src.len() == kernel@.len(),
            forall|j: int| 0 <= j < src.len() ==> 0 <= #[trigger] src[j] < k,
            forall|j1: int, j2: int| 0 <= j1 < j2 < src.len() ==> #[trigger] src[j1] < #[trigger] src[j2],
            forall|j: int| 0 <= j < src.len() ==> (#[trigger] kernel@[j]).rule == items@[src[j]].rule
                && kernel@[j].pos == items@[src[j]].pos + 1 && kernel@[j].la@ == items@[src[j]].la@,
            forall|t: Triple| #[trigger] carries(kernel@, t) <==> (exists|q: int| 0 <= q < k && item_has(#[trigger] items@[q], (t.0, t.1 - 1, t.2))
                && items@[q].pos < g.rhs(t.0).len() && g.rhs(t.0)[t.1 - 1] == x),
        decreases items@.len() - k,
    {
        let r = items[k].rule;
        let p = items[k].pos;
        let len = g.rule_len(r);
        if p < len && g.rule_rhs_at(r, p) == x {
            let la = copy_bits(&items[k].la);
            let ghost kernel0 = kernel@;
            kernel.push(CoreItem { rule: r, pos: p + 1, la });
            proof {
                src = src.push(k as int);
                assert forall|j1: int, j2: int| 0 <= j1 < kernel@.len() && 0 <= j2 < kernel@.len() && j1 != j2
                    implies (#[trigger] kernel@[j1]).rule != (#[trigger] kernel@[j2]).rule || kernel@[j1].pos != kernel@[j2].pos by {
                    assert(src[j1] != src[j2]);
                }
                assert forall|t: Triple| #[trigger] carries(kernel@, t) <==> (exists|q: int| 0 <= q < k + 1 && item_has(#[trigger] items@[q], (t.0, t.1 - 1, t.2))
                    && items@[q].pos < g.rhs(t.0).len() && g.rhs(t.0)[t.1 - 1] == x) by {
                    if carries(kernel@, t) {
                        let j = choose|j: int| 0 <= j < kernel@.len() && item_has(#[trigger] kernel@[j], t);
                        if j < kernel0.len() {
                            assert(kernel0[j] == kernel@[j]);
                            assert(carries(kernel0, t));
                        } else {
                            assert(item_has(items@[k as int], (t.0, t.1 - 1, t.2)));
                        }
                    }
                    if exists|q: int| 0 <= q < k + 1 && item_has(#[trigger] items@[q], (t.0, t.1 - 1, t.2))
                        && items@[q].pos < g.rhs(t.0).len() && g.rhs(t.0)[t.1 - 1] == x {
                        let q = choose|q: int| 0 <= q < k + 1 && item_has(#[trigger] items@[q], (t.0, t.1 - 1, t.2))
                            && items@[q].pos < g.rhs(t.0).len() && g.rhs(t.0)[t.1 - 1] == x;
                        if q < k {
                            assert(carries(kernel0, t));
                            let j = choose|j: int| 0 <= j < kernel0.len() && item_has(#[trigger] kernel0[j], t);
                            assert(kernel@[j] == kernel0[j]);
                        } else {
                            assert(item_has(kernel@[kernel0.len() as int], t));
                        }
                    }
                }
            }
        }
        k += 1;
    }
    proof {
        assert forall|t: Triple| #[trigger] view_of(kernel@)(t) == gk(t) by {
            if gk(t) {
                assert(carries(items@, (t.0, t.1 - 1, t.2)));
                let q = choose|q: int| 0 <= q < items@.len() && item_has(#[trigger] items@[q], (t.0, t.1 - 1, t.2));
            }
            if carries(kernel@, t) {
                let q = choose|q: int| 0 <= q < k && item_has(#[trigger] items@[q], (t.0, t.1 - 1, t.2))
                    && items@[q].pos < g.rhs(t.0).len() && g.rhs(t.0)[t.1 - 1] == x;
                assert(carries(items@, (t.0, t.1 - 1, t.2)));
            }
        }
        assert(view_of(kernel@) =~= gk);
    }
    closure(an, lr1, kernel)
}

/// `items` carries no triple at all.
pub open spec fn carries_none(items: Seq<CoreItem>) -> bool {
    forall|t: Triple| !(#[trigger] carries(items, t))
}

/// Whether `a` carries no triple at all.
pub fn carries_nothing(a: &Vec<CoreItem>) -> (r: bool)
    ensures
        r == carries_none(a@),
{
    let mut k: usize = 0;
    while k < a.len()
        invariant
            k <= a@.len(),
            forall|q: int, c: int| 0 <= q < k && 0 <= c < a@[q].la@.len() ==> !(#[trigger] a@[q].la@[c]),
        decreases a@.len() - k,
    {
        let mut c: usize = 0;
        while c < a[k].la.len()
            invariant
                k < a@.len(),
                c <= a@[k as int].la@.len(),
                forall|q: int, d: int| 0 <= q < k && 0 <= d < a@[q].la@.len() ==> !(#[trigger] a@[q].la@[d]),
                forall|d: int| 0 <= d < c ==> !(#[trigger] a@[k as int].la@[d]),
            decreases a@[k as int].la@.len() - c,
        {
            if a[k].la[c] {
                proof {
                    let t = (a@[k as int].rule as int, a@[k as int].pos as int, c as int);
                    assert(item_has(a@[k as int], t));
                    assert(carries(a@, t));
                }
                return false;
            }
            c += 1;
        }
        k += 1;
    }
    proof {
        assert forall|t: Triple| !(#[trigger] carries(a@, t)) by {
            if carries(a@, t) {
                let q = choose|q: int| 0 <= q < a@.len() && item_has(#[trigger] a@[q], t);
                assert(a@[q].la@[t.2]);
            }
        }
    }
    true
}

/// Whether every triple of `a` is carried by `b`.
pub fn carried_by(a: &Vec<CoreItem>, b: &Vec<CoreItem>, Ghost(g): Ghost<&Grammar>) -> (r: bool)
    requires
        wf_items(g, a@),
        wf_items(g, b@),
    ensures
        r == forall|t: Triple| #[trigger] carries(a@, t) ==> carries(b@, t),
{
    let mut k: usize = 0;
    while k < a.len()
        invariant
            wf_items(g, a@),
            wf_items(g, b@),
            k <= a@.len(),
            forall|t: Triple| (exists|q: int| 0 <= q < k && item_has(#[trigger] a@[q], t)) ==> #[trigger] carries(b@, t),
        decreases a@.len() - k,
    {
        let r = a[k].rule;
        let p = a[k].pos;
        let mut m: usize = 0;
        let mut found = false;
        while m < b.len() && !found
            invariant
                wf_items(g, b@),
                m <= b@.len(),
                !found ==> forall|q: int| 0 <= q < m ==> (#[trigger] b@[q]).rule != r || b@[q].pos != p,
                found ==> 0 < m && b@[m - 1].rule == r && b@[m - 1].pos == p,
            decreases b@.len() - m,
        {
            if b[m].rule == r && b[m].pos == p {
                found = true;
            }
            m += 1;
        }
        let width = a[k].la.len();
        let mut c: usize = 0;
        while c < width
            invariant
                wf_items(g, a@),
                wf_items(g, b@),
                k < a@.len(),
                r == a@[k as int].rule,
                p == a@[k as int].pos,
                width == a@[k as int].la@.len(),
                c <= width,
                !found ==> forall|q: int| 0 <= q < b@.len() ==> (#[trigger] b@[q]).rule != r || b@[q].pos != p,
                found ==> 0 < m <= b@.len() && b@[m - 1].rule == r && b@[m - 1].pos == p,
                forall|d: int| 0 <= d < c && #[trigger] a@[k as int].la@[d] ==> carries(b@, (r as int, p as int, d)),
            decreases width - c,
        {
            if a[k].la[c] {
                let ok = found && c < b[m - 1].la.len() && b[m - 1].la[c];
                if !ok {
                    proof {
                        let t = (r as int, p as int, c as int);
                        assert(item_has(a@[k as int], t));
                        if carries(b@, t) {
                            let q = choose|q: int| 0 <= q < b@.len() && item_has(#[trigger] b@[q], t);
                            if found {
                                assert(q == m - 1);
                            }
                        }
                        assert(carries(a@, t));
                        assert(!carries(b@, t));
                    }
                    return false;
                }
                proof {
                    assert(item_has(b@[m - 1], (r as int, p as int, c as int)));
                }
            }
            c += 1;
        }
        proof {
            assert forall|t: Triple| (exists|q: int| 0 <= q < k + 1 && item_has(#[trigger] a@[q], t)) implies #[trigger] carries(b@, t) by {
                let q = choose|q: int| 0 <= q < k + 1 && item_has(#[trigger] a@[q], t);
                if q == k {
                    assert(a@[k as int].la@[t.2]);
                }
            }
        }
        k += 1;
    }
    true
}

/// Whether `a` and `b` carry the same triples.
pub fn same_state(a: &Vec<CoreItem>, b: &Vec<CoreItem>, Ghost(g): Ghost<&Grammar>) -> (r: bool)
    requires
        wf_items(g, a@),
        wf_items(g, b@),
    ensures
        r == (view_of(a@) == view_of(b@)),
{
    let ab = carried_by(a, b, Ghost(g));
    let ba = carried_by(b, a, Ghost(g));
    proof {
        if ab && ba {
            assert(view_of(a@) =~= view_of(b@));
        }
        if !ab {
            let t = choose|t: Triple| !(#[trigger] carries(a@, t) ==> carries(b@, t));
            assert(view_of(a@)(t) != view_of(b@)(t));
        }
        if !ba {
            let t = choose|t: Triple| !(#[trigger] carries(b@, t) ==> carries(a@, t));
            assert(view_of(a@)(t) != view_of(b@)(t));
        }
    }
    ab && ba
}

/// The start item `rule -> . rhs` with the end-of-input lookahead.
pub open spec fn start_kernel(g: &Grammar, rule: int) -> ItemPred {
    |t: Triple| t == (rule, 0int, g.num_symbols() as int)
}

/// GOTO from state `i` over `x` leads to a state with at least one item.
pub open spec fn goto_nonempty(g: &Grammar, lr1: bool, i: ItemPred, x: int) -> bool {
    exists|t: Triple| #[trigger] goto_of(g, lr1, i, x)(t)
}

/// The canonical collection: `states[0]` is the closure of the start item, the states are
/// pairwise distinct, and `trans[i][x]` is the state reached from `states[i]` over `x`
/// exactly when that GOTO is not empty.
pub open spec fn canonical(g: &Grammar, lr1: bool, start: int, states: Seq<Vec<CoreItem>>, trans: Seq<Vec<Option<usize>>>) -> bool {
    &&& states.len() >= 1
    &&& view_of(states[0]@) == closure_of(g, lr1, start_kernel(g, start))
    &&& forall|i: int| 0 <= i < states.len() ==> wf_items(g, (#[trigger] states[i])@)
    &&& forall|i: int, j: int| 0 <= i < j < states.len() ==> view_of((#[trigger] states[i])@) != view_of((#[trigger] states[j])@)
    &&& forall|j: int| 0 < j < states.len() ==> #[trigger] reached_from(g, lr1, states, j)
    &&& trans.len() == states.len()
    &&& forall|i: int| 0 <= i < trans.len() ==> (#[trigger] trans[i])@.len() == g.num_symbols()
    &&& forall|i: int, x: int| 0 <= i < trans.len() && 0 <= x < g.num_symbols() ==> transition_ok(g, lr1, states, i, x, #[trigger] trans[i]@[x])
}

/// State `j` is the GOTO of an earlier state over some symbol, and that GOTO is not empty.
pub open spec fn reached_from(g: &Grammar, lr1: bool, states: Seq<Vec<CoreItem>>, j: int) -> bool {
    exists|i: int, x: int| 0 <= i < j && 0 <= x < g.num_symbols() && #[trigger] goto_nonempty(g, lr1, view_of(states[i]@), x)
        && view_of(states[j]@) == goto_of(g, lr1, view_of(states[i]@), x)
}

/// Entry `e` of the transition table for state `i` and symbol `x` is right.
pub open spec fn transition_ok(g: &Grammar, lr1: bool, states: Seq<Vec<CoreItem>>, i: int, x: int, e: Option<usize>) -> bool {
    match e {
        Some(j) => j < states.len() && goto_nonempty(g, lr1, view_of(states[i]@), x)
            && view_of(states[j as int]@) == goto_of(g, lr1, view_of(states[i]@), x),
        None => !goto_nonempty(g, lr1, view_of(states[i]@), x),
    }
}

/// Enumerates the canonical collection of states reachable from the start item of
/// `start_rule`, with its transitions. States are numbered in order of discovery.
pub fn build_states(an: &GrammarAnalysis, lr1: bool, start_rule: usize) -> (r: (Vec<Vec<CoreItem>>, Vec<Vec<Option<usize>>>))
    requires
        an.wf(),
        start_rule < an.spec_grammar().num_rules(),
    ensures
        canonical(an.spec_grammar(), lr1, start_rule as int, r.0@, r.1@),
{
    let g = an.grammar();
    let n = g.num_symbols_exec();
    proof {
        an.lemma_size();
    }
    let la = single_bit(n + 1, n);
    let mut kernel: Vec<CoreItem> = Vec::new();
    kernel.push(CoreItem { rule: start_rule, pos: 0, la });
    proof {
        assert forall|t: Triple| #[trigger] view_of(kernel@)(t) == start_kernel(g, start_rule as int)(t) by {
            if t == (start_rule as int, 0int, n as int) {
                assert(item_has(kernel@[0], t));
            }
        }
        assert(view_of(kernel@) =~= start_kernel(g, start_rule as int));
    }
    let first = closure(an, lr1, kernel);
    proof {
        assert(view_of(first@) =~= closure_of(g, lr1, start_kernel(g, start_rule as int)));
    }
    let mut states: Vec<Vec<CoreItem>> = Vec::new();
    states.push(first);
    let mut trans: Vec<Vec<Option<usize>>> = Vec::new();
    let mut i: usize = 0;
    while i < states.len()
        invariant
            an.wf(),
            g == an.spec_grammar(),
            n == g.num_symbols(),
            states@.len() >= 1,
            view_of(states@[0]@) == closure_of(g, lr1, start_kernel(g, start_rule as int)),
            forall|k: int| 0 <= k < states@.len() ==> wf_items(g, (#[trigger] states@[k])@),
            forall|k: int, j: int| 0 <= k < j < states@.len() ==> view_of((#[trigger] states@[k])@) != view_of((#[trigger] states@[j])@),
            forall|j: int| 0 < j < states@.len() ==> #[trigger] reached_from(g, lr1, states@, j),
            i <= states@.len(),
            trans@.len() == i,
            forall|k: int| 0 <= k < trans@.len() ==> (#[trigger] trans@[k])@.len() == n,
            forall|k: int, x: int| 0 <= k < trans@.len() && 0 <= x < n ==> transition_ok(g, lr1, states@, k, x, #[trigger] trans@[k]@[x]),
        decreases usize::MAX - i,
    {
        let mut row: Vec<Option<usize>> = Vec::new();
        let mut x: usize = 0;
        while x < n
            invariant
                an.wf(),
                g == an.spec_grammar(),
                n == g.num_symbols(),
                states@.len() >= 1,
                view_of(states@[0]@) == closure_of(g, lr1, start_kernel(g, start_rule as int)),
                forall|k: int| 0 <= k < states@.len() ==> wf_items(g, (#[trigger] states@[k])@),
                forall|k: int, j: int| 0 <= k < j < states@.len() ==> view_of((#[trigger] states@[k])@) != view_of((#[trigger] states@[j])@),
                forall|j: int| 0 < j < states@.len() ==> #[trigger] reached_from(g, lr1, states@, j),
                i < states@.len(),
                trans@.len() == i,
                forall|k: int| 0 <= k < trans@.len() ==> (#[trigger] trans@[k])@.len() == n,
                forall|k: int, y: int| 0 <= k < trans@.len() && 0 <= y < n ==> transition_ok(g, lr1, states@, k, y, #[trigger] trans@[k]@[y]),
                x <= n,
                row@.len() == x,
                forall|y: int| 0 <= y < x ==> transition_ok(g, lr1, states@, i as int, y, #[trigger] row@[y]),
            decreases n - x,
        {
            let next = goto(an, lr1, &states[i], x);
            let ghost target = goto_of(g, lr1, view_of(states@[i as int]@), x as int);
            proof {
                assert(view_of(next@) =~= target);
            }
            if carries_nothing(&next) {
                proof {
                    assert forall|t: Triple| !(#[trigger] target(t)) by {
                        assert(!carries(next@, t));
                    }
                }
                row.push(None);
            } else {
                proof {
                    let t = choose|t: Triple| #[trigger] carries(next@, t);
                    assert(target(t));
                }
                let mut j: usize = 0;
                let mut found = false;
                while j < states.len() && !found
                    invariant
                        g == an.spec_grammar(),
                        forall|k: int| 0 <= k < states@.len() ==> wf_items(g, (#[trigger] states@[k])@),
                        wf_items(g, next@),
                        j <= states@.len(),
                        !found ==> forall|k: int| 0 <= k < j ==> view_of((#[trigger] states@[k])@) != view_of(next@),
                        found ==> 0 < j && view_of(states@[j - 1]@) == view_of(next@),
                    decreases states@.len() - j,
                {
                    if same_state(&states[j], &next, Ghost(g)) {
                        found = true;
                    }
                    j += 1;
                }
                if found {
                    row.push(Some(j - 1));
                } else {
                    let ghost states0 = states@;
                    let idx = states.len();
                    states.push(next);
                    proof {
                        assert forall|k: int, y: int| 0 <= k < trans@.len() && 0 <= y < n implies
                            transition_ok(g, lr1, states@, k, y, #[trigger] trans@[k]@[y]) by {
                            assert(transition_ok(g, lr1, states0, k, y, trans@[k]@[y]));
                            assert(states@[k] == states0[k]);
                            if let Some(jj) = trans@[k]@[y] {
                                assert(states@[jj as int] == states0[jj as int]);
                            }
                        }
                        assert forall|y: int| 0 <= y < x implies transition_ok(g, lr1, states@, i as int, y, #[trigger] row@[y]) by {
                            assert(transition_ok(g, lr1, states0, i as int, y, row@[y]));
                            assert(states@[i as int] == states0[i as int]);
                            if let Some(jj) = row@[y] {
                                assert(states@[jj as int] == states0[jj as int]);
                            }
                        }
                        assert forall|k: int, jj: int| 0 <= k < jj < states@.len() implies
                            view_of((#[trigger] states@[k])@) != view_of((#[trigger] states@[jj])@) by {
                            if jj < states0.len() {
                                assert(states@[k] == states0[k] && states@[jj] == states0[jj]);
                            } else {
                                assert(states@[k] == states0[k]);
                            }
                        }
                        assert(states@[i as int] == states0[i as int]);
                        assert forall|j: int| 0 < j < states@.len() implies #[trigger] reached_from(g, lr1, states@, j) by {
                            if j < states0.len() {
                                assert(reached_from(g, lr1, states0, j));
                                let (a, y) = choose|a: int, y: int| 0 <= a < j && 0 <= y < g.num_symbols()
                                    && #[trigger] goto_nonempty(g, lr1, view_of(states0[a]@), y)
                                    && view_of(states0[j]@) == goto_of(g, lr1, view_of(states0[a]@), y);
                                assert(states@[a] == states0[a] && states@[j] == states0[j]);
                            } else {
                                assert(states@[j] == next);
                                assert(goto_nonempty(g, lr1, view_of(states@[i as int]@), x as int));
                            }
                        }
                    }
                    row.push(Some(idx));
                }
            }
            x += 1;
        }
        trans.push(row);
        proof {
            assert forall|k: int, y: int| 0 <= k < trans@.len() && 0 <= y < n implies
                transition_ok(g, lr1, states@, k, y, #[trigger] trans@[k]@[y]) by {
                if k < i {
                } else {
                    assert(trans@[k] == row);
                }
            }
        }
        i += 1;
    }
    (states, trans)
}

/// Closure is idempotent: closing a closed set of items adds nothing.
pub proof fn closure_idempotent(g: &Grammar, lr1: bool, i: ItemPred)
    ensures
        closure_of(g, lr1, closure_of(g, lr1, i)) == closure_of(g, lr1, i),
{
    let c = closure_of(g, lr1, i);
    let cc = closure_of(g, lr1, c);
    let e = expand_rel(g, lr1);
    assert forall|t: Triple| #[trigger] cc(t) == c(t) by {
        if cc(t) {
            let t1 = choose|t1: Triple| #[trigger] c(t1) && reaches(e, t1, t);
            let t0 = choose|t0: Triple| #[trigger] i(t0) && reaches(e, t0, t1);
            crate::reach::lemma_reaches_trans(e, t0, t1, t);
        }
        if c(t) {
            lemma_reaches_self(e, t);
        }
    }
    assert(cc =~= c);
}

/// GOTO is monotone: a state with more items reaches a state with more items.
pub proof fn goto_monotone(g: &Grammar, lr1: bool, i: ItemPred, j: ItemPred, x: int)
    requires
        forall|t: Triple| #[trigger] i(t) ==> j(t),
    ensures
        forall|t: Triple| #[trigger] goto_of(g, lr1, i, x)(t) ==> goto_of(g, lr1, j, x)(t),
{
    let e = expand_rel(g, lr1);
    assert forall|t: Triple| #[trigger] goto_of(g, lr1, i, x)(t) implies goto_of(g, lr1, j, x)(t) by {
        let ki = goto_kernel(g, i, x);
        let kj = goto_kernel(g, j, x);
        let t0 = choose|t0: Triple| #[trigger] ki(t0) && reaches(e, t0, t);
        assert(i((t0.0, t0.1 - 1, t0.2)));
        assert(kj(t0));
    }
}

/// Every triple of `i1` has its rule and dot, as an LR(0) item, in `i0`.
pub open spec fn covered(g: &Grammar, i1: ItemPred, i0: ItemPred) -> bool {
    forall|t: Triple| #[trigger] i1(t) ==> i0((t.0, t.1, g.num_symbols() as int))
}

/// Every lookahead token of `i` is a terminal or the end of input.
pub open spec fn tokens_ok(g: &Grammar, i: ItemPred) -> bool {
    forall|t: Triple| #[trigger] i(t) ==> t.2 == g.num_symbols() || (0 <= t.2 < g.num_symbols() && !g.is_nonterminal(t.2))
}

/// The LR(1) closure of a covered kernel is covered by the LR(0) closure.
proof fn lemma_closure_covered(g: &Grammar, k1: ItemPred, k0: ItemPred)
    requires
        covered(g, k1, k0),
    ensures
        covered(g, closure_of(g, true, k1), closure_of(g, false, k0)),
{
    let n = g.num_symbols() as int;
    let c0 = closure_of(g, false, k0);
    let s = |t: Triple| c0((t.0, t.1, n));
    let e = expand_rel(g, true);
    assert forall|a: Triple, b: Triple| s(a) && #[trigger] e(a, b) implies s(b) by {
        assert(expands(g, false, (a.0, a.1, n), (b.0, b.1, n)));
        lemma_closure_step(g, false, k0, (a.0, a.1, n), (b.0, b.1, n));
    }
    assert forall|t: Triple| #[trigger] closure_of(g, true, k1)(t) implies c0((t.0, t.1, n)) by {
        let t0 = choose|t0: Triple| #[trigger] k1(t0) && reaches(e, t0, t);
        assert(k0((t0.0, t0.1, n)));
        lemma_reaches_self(expand_rel(g, false), (t0.0, t0.1, n));
        assert(s(t0));
        lemma_closed_set_contains(e, s, t0, t);
    }
}

/// A sequence FIRST only holds terminals.
proof fn lemma_first_seq_terminal(g: &Grammar, beta: Seq<usize>, b: int)
    requires
        g.wf(),
        forall|k: int| 0 <= k < beta.len() ==> (#[trigger] beta[k]) < g.num_symbols(),
        0 <= b < g.num_symbols(),
        in_first_seq(g, beta, b),
    ensures
        !g.is_nonterminal(b),
{
    let n = g.num_symbols() as int;
    let e = crate::analysis::ff_edges(g);
    let k = choose|k: int| 0 <= k < beta.len() && all_nullable(g, beta, 0, k)
        && #[trigger] reaches(e, crate::analysis::sym_node(g, beta[k] as int), crate::analysis::terminal_node(g, b));
    let u = crate::analysis::sym_node(g, beta[k] as int);
    let v = crate::analysis::terminal_node(g, b);
    let p = choose|p: Seq<int>| #[trigger] crate::reach::is_path(e, p) && p[0] == u && p[p.len() - 1] == v;
    if p.len() == 1 {
        assert(beta[k] < n);
    } else {
        let m = p.len() - 1;
        assert(e(p[m - 1], p[m]));
        let w = p[m - 1];
        if exists|r: int, i: int| #[trigger] crate::analysis::first_link(g, r, i) && w == g.lhs(r)
            && v == crate::analysis::sym_node(g, g.rhs(r)[i] as int) {
            let (r, i) = choose|r: int, i: int| #[trigger] crate::analysis::first_link(g, r, i) && w == g.lhs(r)
                && v == crate::analysis::sym_node(g, g.rhs(r)[i] as int);
            assert(g.rhs(r)[i] < n);
        } else if exists|r: int, i: int, j: int| #[trigger] crate::analysis::follow_link(g, r, i, j)
            && w == crate::analysis::follow_node(g, g.rhs(r)[i] as int) && v == crate::analysis::sym_node(g, g.rhs(r)[j] as int) {
            let (r, i, j) = choose|r: int, i: int, j: int| #[trigger] crate::analysis::follow_link(g, r, i, j)
                && w == crate::analysis::follow_node(g, g.rhs(r)[i] as int) && v == crate::analysis::sym_node(g, g.rhs(r)[j] as int);
            assert(g.rhs(r)[j] < n);
        } else {
            let (r, i) = choose|r: int, i: int| #[trigger] crate::analysis::inherit_link(g, r, i)
                && w == crate::analysis::follow_node(g, g.rhs(r)[i] as int) && v == crate::analysis::follow_node(g, g.lhs(r));
            assert(g.lhs(r) < n);
        }
    }
}

/// LR(1) closure keeps lookahead tokens terminal or end of input.
proof fn lemma_closure_tokens(g: &Grammar, k1: ItemPred)
    requires
        g.wf(),
        tokens_ok(g, k1),
    ensures
        tokens_ok(g, closure_of(g, true, k1)),
{
    let n = g.num_symbols() as int;
    let e = expand_rel(g, true);
    let s = |t: Triple| t.2 == n || (0 <= t.2 < n && !g.is_nonterminal(t.2));
    assert forall|a: Triple, b: Triple| s(a) && #[trigger] e(a, b) implies s(b) by {
        let beta = g.rhs(a.0).subrange(a.1 + 1, g.rhs(a.0).len() as int);
        if b.2 != a.2 {
            assert forall|k: int| 0 <= k < beta.len() implies (#[trigger] beta[k]) < g.num_symbols() by {
                assert(beta[k] == g.rhs(a.0)[a.1 + 1 + k]);
            }
            lemma_first_seq_terminal(g, beta, b.2);
        }
    }
    assert forall|t: Triple| #[trigger] closure_of(g, true, k1)(t) implies s(t) by {
        let t0 = choose|t0: Triple| #[trigger] k1(t0) && reaches(e, t0, t);
        lemma_closed_set_contains(e, s, t0, t);
    }
}

/// Each state of the LR(1) collection is covered by a state of the LR(0) collection (the
/// start state by the start state), and carries only terminal or end-of-input lookaheads.
pub proof fn lemma_lr1_state_covered(
    g: &Grammar,
    start: int,
    s1: Seq<Vec<CoreItem>>,
    t1: Seq<Vec<Option<usize>>>,
    s0: Seq<Vec<CoreItem>>,
    t0: Seq<Vec<Option<usize>>>,
    j: int,
) -> (j0: int)
    requires
        g.wf(),
        canonical(g, true, start, s1, t1),
        canonical(g, false, start, s0, t0),
        0 <= j < s1.len(),
    ensures
        0 <= j0 < s0.len(),
        j == 0 ==> j0 == 0,
        covered(g, view_of(s1[j]@), view_of(s0[j0]@)),
        tokens_ok(g, view_of(s1[j]@)),
    decreases j,
{
    let n = g.num_symbols() as int;
    if j == 0 {
        let k = start_kernel(g, start);
        assert(covered(g, k, k));
        lemma_closure_covered(g, k, k);
        assert(tokens_ok(g, k));
        lemma_closure_tokens(g, k);
        0
    } else {
        assert(reached_from(g, true, s1, j));
        let (i, x) = choose|i: int, x: int| 0 <= i < j && 0 <= x < g.num_symbols()
            && #[trigger] goto_nonempty(g, true, view_of(s1[i]@), x)
            && view_of(s1[j]@) == goto_of(g, true, view_of(s1[i]@), x);
        let i0 = lemma_lr1_state_covered(g, start, s1, t1, s0, t0, i);
        let v1 = view_of(s1[i]@);
        let v0 = view_of(s0[i0]@);
        let gk1 = goto_kernel(g, v1, x);
        let gk0 = goto_kernel(g, v0, x);
        assert forall|t: Triple| #[trigger] gk1(t) implies gk0((t.0, t.1, n)) by {
            assert(v1((t.0, t.1 - 1, t.2)));
        }
        assert forall|t: Triple| #[trigger] gk1(t) implies token_ok(g, t) by {
            assert(v1((t.0, t.1 - 1, t.2)));
        }
        lemma_closure_covered(g, gk1, gk0);
        lemma_closure_tokens(g, gk1);
        let t = choose|t: Triple| #[trigger] goto_of(g, true, v1, x)(t);
        assert(goto_of(g, false, v0, x)((t.0, t.1, n)));
        assert(goto_nonempty(g, false, v0, x));
        assert(transition_ok(g, false, s0, i0, x, t0[i0]@[x]));
        let j0 = t0[i0]@[x].unwrap() as int;
        j0
    }
}

/// GOTO of a covered LR(1) state is covered by GOTO of the LR(0) state.
pub proof fn lemma_goto_covered(g: &Grammar, v1: ItemPred, v0: ItemPred, x: int)
    requires
        covered(g, v1, v0),
    ensures
        covered(g, goto_of(g, true, v1, x), goto_of(g, false, v0, x)),
{
    let n = g.num_symbols() as int;
    let gk1 = goto_kernel(g, v1, x);
    let gk0 = goto_kernel(g, v0, x);
    assert forall|t: Triple| #[trigger] gk1(t) implies gk0((t.0, t.1, n)) by {
        assert(v1((t.0, t.1 - 1, t.2)));
    }
    lemma_closure_covered(g, gk1, gk0);
}

/// Every triple of `i` carries the end-of-input token: a set of LR(0) items.
pub open spec fn end_tokens(g: &Grammar, i: ItemPred) -> bool {
    forall|t: Triple| #[trigger] i(t) ==> t.2 == g.num_symbols()
}

/// LR(0) closure adds only end-of-input triples to a set of them.
pub proof fn lemma_closure_end_tokens(g: &Grammar, k: ItemPred)
    requires
        end_tokens(g, k),
    ensures
        end_tokens(g, closure_of(g, false, k)),
{
    let n = g.num_symbols() as int;
    let e = expand_rel(g, false);
    let s = |t: Triple| t.2 == n;
    assert forall|a: Triple, b: Triple| s(a) && #[trigger] e(a, b) implies s(b) by {}
    assert forall|t: Triple| #[trigger] closure_of(g, false, k)(t) implies t.2 == n by {
        let t0 = choose|t0: Triple| #[trigger] k(t0) && reaches(e, t0, t);
        lemma_closed_set_contains(e, s, t0, t);
    }
}

/// LR(0) GOTO of a set of end-of-input triples holds only such triples.
pub proof fn lemma_goto_end_tokens(g: &Grammar, i: ItemPred, x: int)
    requires
        end_tokens(g, i),
    ensures
        end_tokens(g, goto_of(g, false, i, x)),
{
    let gk = goto_kernel(g, i, x);
    assert forall|t: Triple| #[trigger] gk(t) implies t.2 == g.num_symbols() by {
        assert(i((t.0, t.1 - 1, t.2)));
    }
    lemma_closure_end_tokens(g, gk);
}

/// Every state of the LR(0) collection holds only end-of-input triples.
pub proof fn lemma_lr0_state_tokens(g: &Grammar, start: int, s0: Seq<Vec<CoreItem>>, t0: Seq<Vec<Option<usize>>>, j: int)
    requires
        canonical(g, false, start, s0, t0),
        0 <= j < s0.len(),
    ensures
        end_tokens(g, view_of(s0[j]@)),
    decreases j,
{
    if j == 0 {
        lemma_closure_end_tokens(g, start_kernel(g, start));
    } else {
        assert(reached_from(g, false, s0, j));
        let (i, x) = choose|i: int, x: int| 0 <= i < j && 0 <= x < g.num_symbols()
            && #[trigger] goto_nonempty(g, false, view_of(s0[i]@), x)
            && view_of(s0[j]@) == goto_of(g, false, view_of(s0[i]@), x);
        lemma_lr0_state_tokens(g, start, s0, t0, i);
        lemma_goto_end_tokens(g, view_of(s0[i]@), x);
    }
}

/// The token of `t` is a terminal or the end of input.
spec fn token_ok(g: &Grammar, t: Triple) -> bool {
    t.2 == g.num_symbols() || (0 <= t.2 < g.num_symbols() && !g.is_nonterminal(t.2))
}
} // verus!
