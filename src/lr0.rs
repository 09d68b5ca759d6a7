//! LR(0): items without lookahead, item sets, the canonical LR(0) table and its driver.
//!
//! Item sets share the representation of the LR(1) automaton; every item carries exactly
//! the end-of-input token, which stands for "no lookahead".

use vstd::prelude::*;
use crate::analysis::GrammarAnalysis;
use crate::automaton::{carries, carries_nothing, closure, closure_of, end_tokens, goto, goto_of, goto_monotone, lemma_closure_end_tokens, lemma_goto_end_tokens, lemma_lr0_state_tokens, single_bit, view_of, wf_items, CoreItem};
use crate::driver::{LrDriver, ParseError};
use crate::grammar::{Grammar, Rule, Symbol};
use crate::lr1::{copy_items, lemma_copied_items, symbol_after};
use crate::table::{conflicts_listed, Action, ActionTable, Conflict, StateIndex};

verus! {

/// An LR(0) item: a rule with a dot position.
#[derive(Clone, Copy)]
pub struct Item<'g> {
    pub rule: Rule<'g>,
    pub pos: usize,
}

impl<'g> Item<'g> {
    /// The item refers to a rule of a well-formed grammar, with the dot inside it.
    pub open spec fn wf(&self) -> bool {
        self.rule.wf() && self.pos <= self.rule.grammar.rhs(self.rule.index as int).len()
    }

    /// The item `rule` with the dot at `pos`.
    pub fn new(rule: Rule<'g>, pos: usize) -> (it: Item<'g>)
        requires
            rule.wf(),
            pos <= rule.grammar.rhs(rule.index as int).len(),
        ensures
            it.wf(),
            it.rule == rule,
            it.pos == pos,
    {
        Item { rule, pos }
    }

    /// The item's rule.
    pub fn rule(&self) -> (r: Rule<'g>)
        ensures
            r == self.rule,
    {
        self.rule
    }

    /// The dot position.
    pub fn pos(&self) -> (p: usize)
        ensures
            p == self.pos,
    {
        self.pos
    }

    /// The grammar of the item.
    pub fn grammar(&self) -> (g: &'g Grammar)
        ensures
            g == self.rule.grammar,
    {
        self.rule.grammar
    }

    /// The left-hand side of the item's rule.
    pub fn lhs(&self) -> (s: Symbol<'g>)
        requires
            self.wf(),
        ensures
            s.grammar == self.rule.grammar,
            s.index == self.rule.grammar.lhs(self.rule.index as int),
    {
        self.rule.lhs()
    }

    /// The right-hand side of the item's rule.
    pub fn rhs(&self) -> (v: Vec<Symbol<'g>>)
        requires
            self.wf(),
        ensures
            v@.len() == self.rule.grammar.rhs(self.rule.index as int).len(),
            forall|i: int| 0 <= i < v@.len() ==> (#[trigger] v@[i]).grammar == self.rule.grammar
                && v@[i].index == self.rule.grammar.rhs(self.rule.index as int)[i],
    {
        self.rule.rhs()
    }

    /// The symbol right after the dot, if any.
    pub fn next_symbol(&self) -> (s: Option<Symbol<'g>>)
        requires
            self.wf(),
        ensures
            s.is_some() == (self.pos < self.rule.grammar.rhs(self.rule.index as int).len()),
            s matches Some(x) ==> x.grammar == self.rule.grammar
                && x.index == self.rule.grammar.rhs(self.rule.index as int)[self.pos as int],
    {
        symbol_after(self.rule, self.pos)
    }

    /// The item with the dot moved one place right, if it is not at the end.
    pub fn step(&self) -> (r: Option<Item<'g>>)
        requires
            self.wf(),
        ensures
            r.is_some() == (self.pos < self.rule.grammar.rhs(self.rule.index as int).len()),
            r matches Some(it) ==> it.wf() && it.rule == self.rule && it.pos == self.pos + 1,
    {
        if self.pos < self.rule.grammar.rule_len(self.rule.index) {
            Some(Item { rule: self.rule, pos: self.pos + 1 })
        } else {
            None
        }
    }

    /// Whether the dot is at the end.
    pub fn is_finished(&self) -> (b: bool)
        requires
            self.wf(),
        ensures
            b == (self.pos == self.rule.grammar.rhs(self.rule.index as int).len()),
    {
        self.pos == self.rule.grammar.rule_len(self.rule.index)
    }
}

impl<'g> Rule<'g> {
    /// The LR(0) item of this rule with the dot at `pos`.
    pub fn item(&self, pos: usize) -> (it: Item<'g>)
        requires
            self.wf(),
            pos <= self.grammar.rhs(self.index as int).len(),
        ensures
            it.wf(),
            it.rule == *self,
            it.pos == pos,
    {
        Item::new(*self, pos)
    }
}

/// The item `(r, p)` is in a set of LR(0) items kept as triples with the end-of-input token.
pub open spec fn holds(g: &Grammar, items: Seq<CoreItem>, r: int, p: int) -> bool {
    carries(items, (r, p, g.num_symbols() as int))
}

/// A set of LR(0) items.
pub struct ItemSet<'g> {
    grammar: &'g Grammar,
    items: Vec<CoreItem>,
}

impl<'g> ItemSet<'g> {
    /// The grammar of the set.
    pub closed spec fn spec_grammar(&self) -> &'g Grammar {
        self.grammar
    }

    /// The items, as triples with the end-of-input token.
    pub closed spec fn spec_items(&self) -> Seq<CoreItem> {
        self.items@
    }

    /// The set's items belong to its well-formed grammar and carry no lookahead but the
    /// end-of-input token.
    pub open spec fn wf(&self) -> bool {
        &&& self.spec_grammar().wf()
        &&& wf_items(self.spec_grammar(), self.spec_items())
        &&& end_tokens(self.spec_grammar(), view_of(self.spec_items()))
    }

    /// The grammar of the set.
    pub fn grammar(&self) -> (g: &'g Grammar)
        ensures
            g == self.spec_grammar(),
    {
        self.grammar
    }

    /// The empty set.
    pub fn empty(grammar: &'g Grammar) -> (s: ItemSet<'g>)
        requires
            grammar.wf(),
        ensures
            s.wf(),
            s.spec_grammar() == grammar,
            s.spec_items().len() == 0,
            forall|r: int, p: int| !holds(grammar, s.spec_items(), r, p),
    {
        ItemSet { grammar, items: Vec::new() }
    }

    /// The closure of a single item.
    pub fn singleton(item: Item<'g>) -> (s: ItemSet<'g>)
        requires
            item.wf(),
        ensures
            s.wf(),
            s.spec_grammar() == item.rule.grammar,
            view_of(s.spec_items()) == closure_of(item.rule.grammar, false, item_kernel(item.rule.grammar, item.rule.index as int, item.pos as int)),
    {
        let g = item.rule.grammar;
        let n = g.num_symbols_exec();
        let an = GrammarAnalysis::build(g);
        proof {
            an.lemma_size();
        }
        let la = single_bit(n + 1, n);
        let mut kernel: Vec<CoreItem> = Vec::new();
        kernel.push(CoreItem { rule: item.rule.index, pos: item.pos, la });
        proof {
            let k = item_kernel(g, item.rule.index as int, item.pos as int);
            assert forall|t: crate::automaton::Triple| #[trigger] view_of(kernel@)(t) == k(t) by {
                if k(t) {
                    assert(crate::automaton::item_has(kernel@[0], t));
                }
            }
            assert(view_of(kernel@) =~= k);
        }
        let items = closure(&an, false, kernel);
        proof {
            assert(view_of(items@) =~= closure_of(g, false, item_kernel(g, item.rule.index as int, item.pos as int)));
            lemma_closure_end_tokens(g, item_kernel(g, item.rule.index as int, item.pos as int));
        }
        ItemSet { grammar: g, items }
    }

    /// Whether the set has no item.
    pub fn is_empty(&self) -> (b: bool)
        ensures
            b == crate::automaton::carries_none(self.spec_items()),
    {
        carries_nothing(&self.items)
    }

    /// The items, in order.
    pub fn items(&self) -> (v: Vec<Item<'g>>)
        requires
            self.wf(),
        ensures
            forall|k: int| 0 <= k < v@.len() ==> (#[trigger] v@[k]).wf() && v@[k].rule.grammar == self.spec_grammar()
                && holds(self.spec_grammar(), self.spec_items(), v@[k].rule.index as int, v@[k].pos as int),
            forall|r: int, p: int| #[trigger] holds(self.spec_grammar(), self.spec_items(), r, p) ==>
                exists|k: int| 0 <= k < v@.len() && v@[k].rule.index == r && v@[k].pos == p,
    {
        let g = self.grammar;
        let n = g.num_symbols_exec();
        let mut v: Vec<Item<'g>> = Vec::new();
        let mut k: usize = 0;
        while k < self.items.len()
            invariant
                self.wf(),
                g == self.spec_grammar(),
                n == g.num_symbols(),
                k <= self.items@.len(),
                forall|j: int| 0 <= j < v@.len() ==> (#[trigger] v@[j]).wf() && v@[j].rule.grammar == g
                    && holds(g, self.items@, v@[j].rule.index as int, v@[j].pos as int),
                forall|q: int| 0 <= q < k && (#[trigger] self.items@[q]).la@[n as int] ==>
                    exists|j: int| 0 <= j < v@.len() && v@[j].rule.index == self.items@[q].rule && v@[j].pos == self.items@[q].pos,
            decreases self.items@.len() - k,
        {
            let it = &self.items[k];
            let ghost v0 = v@;
            if it.la[n] {
                proof {
                    assert(crate::automaton::item_has(self.items@[k as int], (it.rule as int, it.pos as int, n as int)));
                }
                v.push(Item { rule: Rule { grammar: g, index: it.rule }, pos: it.pos });
                proof {
                    assert forall|q: int| 0 <= q < k + 1 && (#[trigger] self.items@[q]).la@[n as int] implies
                        exists|j: int| 0 <= j < v@.len() && v@[j].rule.index == self.items@[q].rule && v@[j].pos == self.items@[q].pos by {
                        if q < k {
                            let j = choose|j: int| 0 <= j < v0.len() && v0[j].rule.index == self.items@[q].rule && v0[j].pos == self.items@[q].pos;
                            assert(v@[j] == v0[j]);
                        } else {
                            assert(v@[v@.len() - 1].rule.index == self.items@[q].rule);
                        }
                    }
                }
            }
            k += 1;
        }
        proof {
            assert forall|r: int, p: int| #[trigger] holds(g, self.items@, r, p) implies
                exists|j: int| 0 <= j < v@.len() && v@[j].rule.index == r && v@[j].pos == p by {
                let q = choose|q: int| 0 <= q < self.items@.len() && crate::automaton::item_has(#[trigger] self.items@[q], (r, p, n as int));
                assert(self.items@[q].la@[n as int]);
            }
        }
        v
    }

    /// The closure of the set.
    pub fn closure(&self) -> (s: ItemSet<'g>)
        requires
            self.wf(),
        ensures
            s.wf(),
            s.spec_grammar() == self.spec_grammar(),
            view_of(s.spec_items()) == closure_of(self.spec_grammar(), false, view_of(self.spec_items())),
    {
        let an = GrammarAnalysis::build(self.grammar);
        let kernel = copy_items(&self.items);
        proof {
            lemma_copied_items(self.grammar, kernel@, self.items@);
        }
        let items = closure(&an, false, kernel);
        proof {
            assert(view_of(items@) =~= closure_of(self.grammar, false, view_of(self.items@)));
            lemma_closure_end_tokens(self.grammar, view_of(self.items@));
        }
        ItemSet { grammar: self.grammar, items }
    }

    /// GOTO over `symbol`: the closure of the items with the dot moved over it.
    pub fn follow(&self, symbol: Symbol<'g>) -> (s: ItemSet<'g>)
        requires
            self.wf(),
        ensures
            s.wf(),
            s.spec_grammar() == self.spec_grammar(),
            view_of(s.spec_items()) == goto_of(self.spec_grammar(), false, view_of(self.spec_items()), symbol.index as int),
    {
        let an = GrammarAnalysis::build(self.grammar);
        let items = goto(&an, false, &self.items, symbol.index);
        proof {
            assert(view_of(items@) =~= goto_of(self.grammar, false, view_of(self.items@), symbol.index as int));
            lemma_goto_end_tokens(self.grammar, view_of(self.items@), symbol.index as int);
        }
        ItemSet { grammar: self.grammar, items }
    }
}

/// The single triple of item `(r, p)` with the end-of-input token.
pub open spec fn item_kernel(g: &Grammar, r: int, p: int) -> crate::automaton::ItemPred {
    |t: crate::automaton::Triple| t == (r, p, g.num_symbols() as int)
}

/// An LR(0) state: a closed item set.
pub struct State<'g> {
    itemset: ItemSet<'g>,
}

impl<'g> State<'g> {
    /// The state's item set.
    pub closed spec fn spec_itemset(&self) -> ItemSet<'g> {
        self.itemset
    }

    /// The state holding `itemset`.
    pub fn new(itemset: ItemSet<'g>) -> (s: State<'g>)
        ensures
            s.spec_itemset() == itemset,
    {
        State { itemset }
    }

    /// The state's item set.
    pub fn itemset(&self) -> (s: &ItemSet<'g>)
        ensures
            *s == self.spec_itemset(),
    {
        &self.itemset
    }
}

/// A canonical LR(0) parse table.
pub struct ParseTable<'g> {
    table: ActionTable<'g>,
}

impl<'g> ParseTable<'g> {
    /// The underlying action table.
    pub closed spec fn spec_table(&self) -> ActionTable<'g> {
        self.table
    }

    /// A well-formed LR(0) table.
    pub open spec fn wf(&self) -> bool {
        self.spec_table().wf() && !self.spec_table().spec_lr1()
    }

    /// Builds the LR(0) table of `grammar` from the start item of `start_rule`.
    pub fn new(grammar: &'g Grammar, start_rule: Rule<'g>) -> (t: ParseTable<'g>)
        requires
            start_rule.wf(),
            start_rule.grammar == grammar,
        ensures
            t.wf(),
            t.spec_table().spec_grammar() == grammar,
            t.spec_table().spec_start() == start_rule.index,
    {
        ParseTable { table: ActionTable::build(grammar, start_rule, false) }
    }

    /// Builds the LR(0) table of `grammar` from the start item of `start_rule`.
    pub fn build(grammar: &'g Grammar, start_rule: Rule<'g>) -> (t: ParseTable<'g>)
        requires
            start_rule.wf(),
            start_rule.grammar == grammar,
        ensures
            t.wf(),
            t.spec_table().spec_grammar() == grammar,
            t.spec_table().spec_start() == start_rule.index,
    {
        Self::new(grammar, start_rule)
    }

    /// The grammar of the table.
    pub fn grammar(&self) -> (g: &'g Grammar)
        ensures
            g == self.spec_table().spec_grammar(),
    {
        self.table.grammar()
    }

    /// The underlying action table.
    pub fn actions(&self) -> (t: &ActionTable<'g>)
        ensures
            *t == self.spec_table(),
    {
        &self.table
    }

    /// The states, by index.
    pub fn states(&self) -> (v: Vec<State<'g>>)
        requires
            self.wf(),
        ensures
            v@.len() == self.spec_table().num_states(),
            forall|i: int| 0 <= i < v@.len() ==> (#[trigger] v@[i]).spec_itemset().wf()
                && v@[i].spec_itemset().spec_grammar() == self.spec_table().spec_grammar()
                && view_of(v@[i].spec_itemset().spec_items()) == view_of(self.spec_table().spec_states()[i]@),
    {
        let g = self.table.grammar();
        let count = self.table.state_count();
        let mut v: Vec<State<'g>> = Vec::new();
        let mut i: usize = 0;
        while i < count
            invariant
                self.wf(),
                g == self.spec_table().spec_grammar(),
                count == self.spec_table().num_states(),
                i <= count,
                v@.len() == i,
                forall|k: int| 0 <= k < i ==> (#[trigger] v@[k]).spec_itemset().wf() && v@[k].spec_itemset().spec_grammar() == g
                    && view_of(v@[k].spec_itemset().spec_items()) == view_of(self.spec_table().spec_states()[k]@),
            decreases count - i,
        {
            let items = copy_items(self.table.state_items(i));
            proof {
                lemma_copied_items(g, items@, self.spec_table().spec_states()[i as int]@);
                lemma_lr0_state_tokens(g, self.spec_table().spec_start(), self.spec_table().spec_states(),
                    self.spec_table().spec_trans(), i as int);
            }
            v.push(State { itemset: ItemSet { grammar: g, items } });
            i += 1;
        }
        v
    }

    /// Every cell with more than one action.
    pub fn conflicts(&self) -> (v: Vec<Conflict<'g>>)
        requires
            self.wf(),
        ensures
            conflicts_listed(&self.spec_table(), v@),
    {
        self.table.conflicts()
    }

    /// The actions for `state` on `symbol` (`None`: end of input); none for a key outside the table.
    pub fn get(&self, state: StateIndex, symbol: Option<Symbol<'g>>) -> (v: Vec<Action<'g>>)
        requires
            self.wf(),
        ensures
            self.spec_table().has_key(state, symbol) ==>
                v@ == self.spec_table().cell(state.0 as int, crate::table::column(self.spec_table().spec_grammar(), symbol)),
            !self.spec_table().has_key(state, symbol) ==> v@.len() == 0,
    {
        self.table.get(state, symbol)
    }
}

/// The LR(0) driver over a token sequence.
pub struct Machine<'g, 't> {
    pub driver: LrDriver<'g, 't>,
}

impl<'g, 't> Machine<'g, 't> {
    /// Starts a run of `table` over `input`.
    pub fn new(table: &'t ParseTable<'g>, input: Vec<Symbol<'g>>) -> (m: Machine<'g, 't>)
        requires
            table.wf(),
            forall|i: int| 0 <= i < input@.len() ==> (#[trigger] input@[i]).grammar == table.spec_table().spec_grammar()
                && input@[i].index < table.spec_table().spec_grammar().num_symbols(),
        ensures
            m.driver.wf(),
            *m.driver.table == table.spec_table(),
            m.driver.input == input,
            m.driver.pos == 0,
            m.driver.stack@.len() == 0,
            !m.driver.halted,
    {
        Machine { driver: LrDriver::new(&table.table, input) }
    }

    /// One step of the driver; returns whether it has halted.
    pub fn step(&mut self) -> (r: Result<bool, ParseError<'g>>)
        requires
            old(self).driver.wf(),
        ensures
            final(self).driver.wf(),
            crate::driver::step_ok(old(self).driver, final(self).driver, r),
    {
        self.driver.step()
    }

    /// Runs to the end: `Ok` when the input is accepted.
    pub fn run(&mut self) -> (r: Result<(), ParseError<'g>>)
        requires
            old(self).driver.wf(),
        ensures
            final(self).driver.wf(),
            final(self).driver.table == old(self).driver.table,
            final(self).driver.input == old(self).driver.input,
            r.is_ok() <==> final(self).driver.halted,
            crate::driver::run_ok(old(self).driver, final(self).driver, r),
    {
        self.driver.run()
    }
}

/// GOTO is monotone: when every item of `a` is in `b`, every item of `a.follow(x)` is in
/// `b.follow(x)`.
pub proof fn follow_monotone<'g>(a: ItemSet<'g>, b: ItemSet<'g>, x: int)
    requires
        a.wf(),
        b.wf(),
        a.spec_grammar() == b.spec_grammar(),
        forall|r: int, p: int| #[trigger] holds(a.spec_grammar(), a.spec_items(), r, p) ==> holds(b.spec_grammar(), b.spec_items(), r, p),
    ensures
        forall|r: int, p: int| #[trigger] goto_of(a.spec_grammar(), false, view_of(a.spec_items()), x)((r, p, a.spec_grammar().num_symbols() as int))
            ==> goto_of(a.spec_grammar(), false, view_of(b.spec_items()), x)((r, p, a.spec_grammar().num_symbols() as int)),
{
    let g = a.spec_grammar();
    let va = view_of(a.spec_items());
    let vb = view_of(b.spec_items());
    assert forall|t: crate::automaton::Triple| #[trigger] va(t) implies vb(t) by {
        assert(t.2 == g.num_symbols());
        assert(holds(g, a.spec_items(), t.0, t.1));
    }
    goto_monotone(g, false, va, vb, x);
}

} // verus!
