//! LR(1): items with lookahead sets, states, the canonical LR(1) table and its driver.

use vstd::prelude::*;
use crate::analysis::GrammarAnalysis;
use crate::automaton::{carries, goto, goto_of, view_of, wf_items, CoreItem};
use crate::driver::{LrDriver, ParseError};
use crate::grammar::{Grammar, Rule, Symbol};
use crate::table::{conflicts_listed, Action, ActionTable, Conflict, StateIndex};

verus! {

/// An LR(1) item: a rule, a dot position and a lookahead set (`None` is end of input).
#[derive(Clone)]
pub struct Item<'g> {
    pub rule: Rule<'g>,
    pub pos: usize,
    pub lookahead: Vec<Option<Symbol<'g>>>,
}

/// The token that a lookahead entry stands for: its symbol's index, or `n` for end of input.
pub open spec fn token_of<'g>(g: &Grammar, o: Option<Symbol<'g>>) -> int {
    match o {
        Some(s) => s.index as int,
        None => g.num_symbols() as int,
    }
}

/// Sort key of a lookahead entry: end of input first, then symbols by index.
pub open spec fn la_key<'g>(o: Option<Symbol<'g>>) -> int {
    match o {
        Some(s) => s.index as int,
        None => -1,
    }
}

/// `v` lists, sorted and without repetition, the tokens set in `la`.
pub open spec fn lists_tokens<'g>(g: &'g Grammar, v: Seq<Option<Symbol<'g>>>, la: Seq<bool>) -> bool {
    &&& forall|k: int| 0 <= k < v.len() ==> (#[trigger] v[k] matches Some(s) ==> s.grammar == g && s.index < g.num_symbols())
    &&& forall|k: int| 0 <= k < v.len() ==> la[token_of(g, #[trigger] v[k])]
    &&& forall|k1: int, k2: int| 0 <= k1 < k2 < v.len() ==> la_key(#[trigger] v[k1]) < la_key(#[trigger] v[k2])
    &&& la[g.num_symbols() as int] ==> v.contains(None)
    &&& forall|t: int| 0 <= t < g.num_symbols() && #[trigger] la[t] ==> v.contains(Some(Symbol { grammar: g, index: t as usize }))
}

/// The lookahead table `la` as a sorted list.
fn lookahead_list<'g>(g: &'g Grammar, la: &Vec<bool>) -> (v: Vec<Option<Symbol<'g>>>)
    requires
        la@.len() == g.num_symbols() + 1,
    ensures
        lists_tokens(g, v@, la@),
{
    let n = la.len() - 1;
    let mut v: Vec<Option<Symbol<'g>>> = Vec::new();
    if la[n] {
        v.push(None);
        assert(v@[0] == None::<Symbol<'g>>);
    }
    let mut t: usize = 0;
    while t < n
        invariant
            n == g.num_symbols(),
            la@.len() == n + 1,
            t <= n,
            forall|k: int| 0 <= k < v@.len() ==> (#[trigger] v@[k] matches Some(s) ==> s.grammar == g && s.index < t),
            forall|k: int| 0 <= k < v@.len() ==> la@[token_of(g, #[trigger] v@[k])],
            forall|k1: int, k2: int| 0 <= k1 < k2 < v@.len() ==> la_key(#[trigger] v@[k1]) < la_key(#[trigger] v@[k2]),
            forall|k: int| 0 <= k < v@.len() ==> la_key(#[trigger] v@[k]) < t,
            la@[n as int] ==> v@.contains(None),
            forall|u: int| 0 <= u < t && #[trigger] la@[u] ==> v@.contains(Some(Symbol { grammar: g, index: u as usize })),
        decreases n - t,
    {
        let ghost v0 = v@;
        if la[t] {
            v.push(Some(Symbol { grammar: g, index: t }));
            proof {
                assert(v@[v@.len() - 1] == Some(Symbol { grammar: g, index: t }));
                assert forall|u: int| 0 <= u < t + 1 && #[trigger] la@[u] implies v@.contains(Some(Symbol { grammar: g, index: u as usize })) by {
                    if u < t {
                        let k = choose|k: int| 0 <= k < v0.len() && v0[k] == Some(Symbol { grammar: g, index: u as usize });
                        assert(v@[k] == v0[k]);
                    }
                }
                if la@[n as int] {
                    let k = choose|k: int| 0 <= k < v0.len() && v0[k] == None::<Symbol<'g>>;
                    assert(v@[k] == v0[k]);
                }
            }
        }
        t += 1;
    }
    v
}

impl<'g> Item<'g> {
    /// The item refers to a rule of a well-formed grammar, with the dot inside it.
    pub open spec fn wf(&self) -> bool {
        self.rule.wf() && self.pos <= self.rule.grammar.rhs(self.rule.index as int).len()
    }

    /// The item `rule` with the dot at `pos` and the given lookahead.
    pub fn new(rule: Rule<'g>, pos: usize, lookahead: Vec<Option<Symbol<'g>>>) -> (it: Item<'g>)
        requires
            rule.wf(),
            pos <= rule.grammar.rhs(rule.index as int).len(),
        ensures
            it.wf(),
            it.rule == rule,
            it.pos == pos,
            it.lookahead == lookahead,
    {
        Item { rule, pos, lookahead }
    }

    /// The item's rule.
    pub fn rule(&self) -> (r: Rule<'g>)
        ensures
            r == self.rule,
    {
        self.rule
    }

    /// The dot position.
    pub fn pos(&self) -> (p: usize)
        ensures
            p == self.pos,
    {
        self.pos
    }

    /// The lookahead set.
    pub fn lookahead(&self) -> (l: &Vec<Option<Symbol<'g>>>)
        ensures
            l == self.lookahead,
    {
        &self.lookahead
    }

    /// The grammar of the item.
    pub fn grammar(&self) -> (g: &'g Grammar)
        ensures
            g == self.rule.grammar,
    {
        self.rule.grammar
    }

    /// The left-hand side of the item's rule.
    pub fn lhs(&self) -> (s: Symbol<'g>)
        requires
            self.wf(),
        ensures
            s.grammar == self.rule.grammar,
            s.index == self.rule.grammar.lhs(self.rule.index as int),
    {
        self.rule.lhs()
    }

    /// The right-hand side of the item's rule.
    pub fn rhs(&self) -> (v: Vec<Symbol<'g>>)
        requires
            self.wf(),
        ensures
            v@.len() == self.rule.grammar.rhs(self.rule.index as int).len(),
            forall|i: int| 0 <= i < v@.len() ==> (#[trigger] v@[i]).grammar == self.rule.grammar
                && v@[i].index == self.rule.grammar.rhs(self.rule.index as int)[i],
    {
        self.rule.rhs()
    }

    /// The symbol right after the dot, if any.
    pub fn next_symbol(&self) -> (s: Option<Symbol<'g>>)
        requires
            self.wf(),
        ensures
            s.is_some() == (self.pos < self.rule.grammar.rhs(self.rule.index as int).len()),
            s matches Some(x) ==> x.grammar == self.rule.grammar
                && x.index == self.rule.grammar.rhs(self.rule.index as int)[self.pos as int],
    {
        symbol_after(self.rule, self.pos)
    }

    /// The symbol two places after the dot, if any.
    pub fn next_next_symbol(&self) -> (s: Option<Symbol<'g>>)
        requires
            self.wf(),
        ensures
            s.is_some() == (self.pos + 1 < self.rule.grammar.rhs(self.rule.index as int).len()),
            s matches Some(x) ==> x.grammar == self.rule.grammar
                && x.index == self.rule.grammar.rhs(self.rule.index as int)[self.pos + 1],
    {
        let len = self.rule.grammar.rule_len(self.rule.index);
        if self.pos < len && self.pos + 1 < len {
            symbol_after(self.rule, self.pos + 1)
        } else {
            None
        }
    }

    /// The item with the dot moved one place right, if it is not at the end.
    pub fn step(&self) -> (r: Option<Item<'g>>)
        requires
            self.wf(),
        ensures
            r.is_some() == (self.pos < self.rule.grammar.rhs(self.rule.index as int).len()),
            r matches Some(it) ==> it.wf() && it.rule == self.rule && it.pos == self.pos + 1
                && it.lookahead@ == self.lookahead@,
    {
        let len = self.rule.grammar.rule_len(self.rule.index);
        if self.pos < len {
            let mut la: Vec<Option<Symbol<'g>>> = Vec::new();
            let mut i: usize = 0;
            while i < self.lookahead.len()
                invariant
                    i <= self.lookahead@.len(),
                    la@ == self.lookahead@.subrange(0, i as int),
                decreases self.lookahead@.len() - i,
            {
                la.push(self.lookahead[i]);
                i += 1;
            }
            assert(la@ =~= self.lookahead@);
            Some(Item { rule: self.rule, pos: self.pos + 1, lookahead: la })
        } else {
            None
        }
    }

    /// Whether the dot is at the end.
    pub fn is_finished(&self) -> (b: bool)
        requires
            self.wf(),
        ensures
            b == (self.pos == self.rule.grammar.rhs(self.rule.index as int).len()),
    {
        self.pos == self.rule.grammar.rule_len(self.rule.index)
    }
}

/// The symbol at position `pos` of `rule`'s right-hand side, if there is one.
pub fn symbol_after<'g>(rule: Rule<'g>, pos: usize) -> (s: Option<Symbol<'g>>)
    requires
        rule.wf(),
    ensures
        s.is_some() == (pos < rule.grammar.rhs(rule.index as int).len()),
        s matches Some(x) ==> x.grammar == rule.grammar && x.index == rule.grammar.rhs(rule.index as int)[pos as int]
            && x.wf(),
{
    let g = rule.grammar;
    if pos < g.rule_len(rule.index) {
        let x = g.rule_rhs_at(rule.index, pos);
        Some(Symbol { grammar: g, index: x })
    } else {
        None
    }
}

/// An LR(1) state: a closed set of items, one per rule and dot position.
pub struct State<'g> {
    grammar: &'g Grammar,
    items: Vec<CoreItem>,
}

impl<'g> State<'g> {
    /// The grammar of the state.
    pub closed spec fn spec_grammar(&self) -> &'g Grammar {
        self.grammar
    }

    /// The items of the state as `(rule, dot, token)` triples.
    pub closed spec fn spec_items(&self) -> Seq<CoreItem> {
        self.items@
    }

    /// The state's items belong to its well-formed grammar.
    pub open spec fn wf(&self) -> bool {
        self.spec_grammar().wf() && wf_items(self.spec_grammar(), self.spec_items())
    }

    /// The grammar of the state.
    pub fn grammar(&self) -> (g: &'g Grammar)
        ensures
            g == self.spec_grammar(),
    {
        self.grammar
    }

    /// The items, each with its lookahead set in order.
    pub fn items(&self) -> (v: Vec<Item<'g>>)
        requires
            self.wf(),
        ensures
            v@.len() == self.spec_items().len(),
            forall|k: int| 0 <= k < v@.len() ==> (#[trigger] v@[k]).wf() && v@[k].rule.grammar == self.spec_grammar()
                && v@[k].rule.index == self.spec_items()[k].rule && v@[k].pos == self.spec_items()[k].pos
                && lists_tokens(self.spec_grammar(), v@[k].lookahead@, self.spec_items()[k].la@),
    {
        let mut v: Vec<Item<'g>> = Vec::new();
        let mut k: usize = 0;
        while k < self.items.len()
            invariant
                self.wf(),
                k <= self.items@.len(),
                v@.len() == k,
                forall|j: int| 0 <= j < k ==> (#[trigger] v@[j]).wf() && v@[j].rule.grammar == self.grammar
                    && v@[j].rule.index == self.items@[j].rule && v@[j].pos == self.items@[j].pos
                    && lists_tokens(self.grammar, v@[j].lookahead@, self.items@[j].la@),
            decreases self.items@.len() - k,
        {
            let it = &self.items[k];
            let lookahead = lookahead_list(self.grammar, &it.la);
            v.push(Item { rule: Rule { grammar: self.grammar, index: it.rule }, pos: it.pos, lookahead });
            k += 1;
        }
        v
    }

    /// GOTO over `symbol`: the closure of the items with the dot moved over it.
    pub fn follow(&self, analysis: &GrammarAnalysis<'g>, symbol: Symbol<'g>) -> (s: State<'g>)
        requires
            self.wf(),
            analysis.wf(),
            analysis.spec_grammar() == self.spec_grammar(),
        ensures
            s.wf(),
            s.spec_grammar() == self.spec_grammar(),
            view_of(s.spec_items()) == goto_of(self.spec_grammar(), true, view_of(self.spec_items()), symbol.index as int),
    {
        let items = goto(analysis, true, &self.items, symbol.index);
        proof {
            assert(view_of(items@) =~= goto_of(self.grammar, true, view_of(self.items@), symbol.index as int));
        }
        State { grammar: self.grammar, items }
    }
}

/// A canonical LR(1) parse table.
pub struct ParseTable<'g> {
    table: ActionTable<'g>,
}

impl<'g> ParseTable<'g> {
    /// The underlying action table.
    pub closed spec fn spec_table(&self) -> ActionTable<'g> {
        self.table
    }

    /// A well-formed LR(1) table.
    pub open spec fn wf(&self) -> bool {
        self.spec_table().wf() && self.spec_table().spec_lr1()
    }

    /// Builds the LR(1) table of `grammar` from the start item of `start_rule`.
    pub fn build(grammar: &'g Grammar, start_rule: Rule<'g>) -> (t: ParseTable<'g>)
        requires
            start_rule.wf(),
            start_rule.grammar == grammar,
        ensures
            t.wf(),
            t.spec_table().spec_grammar() == grammar,
            t.spec_table().spec_start() == start_rule.index,
    {
        ParseTable { table: ActionTable::build(grammar, start_rule, true) }
    }

    /// The grammar of the table.
    pub fn grammar(&self) -> (g: &'g Grammar)
        ensures
            g == self.spec_table().spec_grammar(),
    {
        self.table.grammar()
    }

    /// The underlying action table.
    pub fn actions(&self) -> (t: &ActionTable<'g>)
        ensures
            *t == self.spec_table(),
    {
        &self.table
    }

    /// The states, by index.
    pub fn states(&self) -> (v: Vec<State<'g>>)
        requires
            self.wf(),
        ensures
            v@.len() == self.spec_table().num_states(),
            forall|i: int| 0 <= i < v@.len() ==> (#[trigger] v@[i]).wf()
                && v@[i].spec_grammar() == self.spec_table().spec_grammar()
                && view_of(v@[i].spec_items()) == view_of(self.spec_table().spec_states()[i]@),
    {
        let g = self.table.grammar();
        let count = self.table.state_count();
        let mut v: Vec<State<'g>> = Vec::new();
        let mut i: usize = 0;
        while i < count
            invariant
                self.wf(),
                g == self.spec_table().spec_grammar(),
                count == self.spec_table().num_states(),
                i <= count,
                v@.len() == i,
                forall|k: int| 0 <= k < i ==> (#[trigger] v@[k]).wf() && v@[k].spec_grammar() == g
                    && view_of(v@[k].spec_items()) == view_of(self.spec_table().spec_states()[k]@),
            decreases count - i,
        {
            let items = copy_items(self.table.state_items(i));
            proof {
                lemma_copied_items(g, items@, self.spec_table().spec_states()[i as int]@);
            }
            v.push(State { grammar: g, items });
            i += 1;
        }
        v
    }

    /// The state at `index`.
    pub fn state(&self, index: StateIndex) -> (s: State<'g>)
        requires
            self.wf(),
            index.0 < self.spec_table().num_states(),
        ensures
            s.wf(),
            s.spec_grammar() == self.spec_table().spec_grammar(),
            view_of(s.spec_items()) == view_of(self.spec_table().spec_states()[index.0 as int]@),
    {
        let items = copy_items(self.table.state_items(index.0));
        proof {
            lemma_copied_items(self.table.spec_grammar(), items@, self.spec_table().spec_states()[index.0 as int]@);
        }
        State { grammar: self.table.grammar(), items }
    }

    /// Every cell with more than one action.
    pub fn conflicts(&self) -> (v: Vec<Conflict<'g>>)
        requires
            self.wf(),
        ensures
            conflicts_listed(&self.spec_table(), v@),
    {
        self.table.conflicts()
    }

    /// The actions for `state` on `symbol` (`None`: end of input); none for a key outside the table.
    pub fn get(&self, state: StateIndex, symbol: Option<Symbol<'g>>) -> (v: Vec<Action<'g>>)
        requires
            self.wf(),
        ensures
            self.spec_table().has_key(state, symbol) ==>
                v@ == self.spec_table().cell(state.0 as int, crate::table::column(self.spec_table().spec_grammar(), symbol)),
            !self.spec_table().has_key(state, symbol) ==> v@.len() == 0,
    {
        self.table.get(state, symbol)
    }
}

/// Item lists that agree item by item carry the same triples.
pub proof fn lemma_copied_items(g: &Grammar, a: Seq<CoreItem>, b: Seq<CoreItem>)
    requires
        a.len() == b.len(),
        forall|k: int| 0 <= k < a.len() ==> (#[trigger] a[k]).rule == b[k].rule && a[k].pos == b[k].pos && a[k].la@ == b[k].la@,
    ensures
        view_of(a) == view_of(b),
        wf_items(g, b) ==> wf_items(g, a),
{
    if wf_items(g, b) {
        assert forall|k: int| 0 <= k < a.len() implies {
            &&& (#[trigger] a[k]).rule < g.num_rules()
            &&& a[k].pos <= g.rhs(a[k].rule as int).len()
            &&& a[k].la@.len() == g.num_symbols() + 1
        } by {
            assert(b[k].rule < g.num_rules());
        }
        assert forall|k1: int, k2: int| 0 <= k1 < a.len() && 0 <= k2 < a.len() && k1 != k2
            implies (#[trigger] a[k1]).rule != (#[trigger] a[k2]).rule || a[k1].pos != a[k2].pos by {
            assert(b[k1].rule != b[k2].rule || b[k1].pos != b[k2].pos);
        }
    }

    assert forall|t: crate::automaton::Triple| #[trigger] carries(a, t) == carries(b, t) by {
        if carries(a, t) {
            let k = choose|k: int| 0 <= k < a.len() && crate::automaton::item_has(#[trigger] a[k], t);
            assert(crate::automaton::item_has(b[k], t));
        }
        if carries(b, t) {
            let k = choose|k: int| 0 <= k < b.len() && crate::automaton::item_has(#[trigger] b[k], t);
            assert(crate::automaton::item_has(a[k], t));
        }
    }
    assert(view_of(a) =~= view_of(b));
}

/// A copy of a list of items.
pub fn copy_items(v: &Vec<CoreItem>) -> (r: Vec<CoreItem>)
    ensures
        r@.len() == v@.len(),
        forall|k: int| 0 <= k < v@.len() ==> (#[trigger] r@[k]).rule == v@[k].rule && r@[k].pos == v@[k].pos
            && r@[k].la@ == v@[k].la@,
{
    let mut r: Vec<CoreItem> = Vec::new();
    let mut k: usize = 0;
    while k < v.len()
        invariant
            k <= v@.len(),
            r@.len() == k,
            forall|j: int| 0 <= j < k ==> (#[trigger] r@[j]).rule == v@[j].rule && r@[j].pos == v@[j].pos
                && r@[j].la@ == v@[j].la@,
        decreases v@.len() - k,
    {
        let la = crate::automaton::copy_bits(&v[k].la);
        r.push(CoreItem { rule: v[k].rule, pos: v[k].pos, la });
        k += 1;
    }
    r
}

/// The LR(1) driver over a token sequence.
pub struct Machine<'g, 't> {
    pub driver: LrDriver<'g, 't>,
}

impl<'g, 't> Machine<'g, 't> {
    /// Starts a run of `table` over `input`.
    pub fn new(table: &'t ParseTable<'g>, input: Vec<Symbol<'g>>) -> (m: Machine<'g, 't>)
        requires
            table.wf(),
            forall|i: int| 0 <= i < input@.len() ==> (#[trigger] input@[i]).grammar == table.spec_table().spec_grammar()
                && input@[i].index < table.spec_table().spec_grammar().num_symbols(),
        ensures
            m.driver.wf(),
            *m.driver.table == table.spec_table(),
            m.driver.input == input,
            m.driver.pos == 0,
            m.driver.stack@.len() == 0,
            !m.driver.halted,
    {
        Machine { driver: LrDriver::new(&table.table, input) }
    }

    /// One step of the driver; returns whether it has halted.
    pub fn step(&mut self) -> (r: Result<bool, ParseError<'g>>)
        requires
            old(self).driver.wf(),
        ensures
            final(self).driver.wf(),
            crate::driver::step_ok(old(self).driver, final(self).driver, r),
    {
        self.driver.step()
    }

    /// Runs to the end: `Ok` when the input is accepted.
    pub fn run(&mut self) -> (r: Result<(), ParseError<'g>>)
        requires
            old(self).driver.wf(),
        ensures
            final(self).driver.wf(),
            final(self).driver.table == old(self).driver.table,
            final(self).driver.input == old(self).driver.input,
            r.is_ok() <==> final(self).driver.halted,
            crate::driver::run_ok(old(self).driver, final(self).driver, r),
    {
        self.driver.run()
    }
}

/// When the LR(0) table of a grammar reports no conflict, neither does its LR(1) table
/// built from the same start rule.
pub proof fn lr1_conflict_free_when_lr0_conflict_free<'g>(
    t0: &crate::lr0::ParseTable<'g>,
    t1: &ParseTable<'g>,
    c0: Seq<Conflict<'g>>,
    c1: Seq<Conflict<'g>>,
)
    requires
        t0.wf(),
        t1.wf(),
        t0.spec_table().spec_grammar() == t1.spec_table().spec_grammar(),
        t0.spec_table().spec_start() == t1.spec_table().spec_start(),
        conflicts_listed(&t0.spec_table(), c0),
        c0.len() == 0,
        conflicts_listed(&t1.spec_table(), c1),
    ensures
        c1.len() == 0,
{
    let a0 = t0.spec_table();
    let a1 = t1.spec_table();
    assert forall|i: int, col: int| 0 <= i < a0.num_states() && 0 <= col <= a0.spec_grammar().num_symbols()
        implies #[trigger] a0.cell(i, col).len() <= 1 by {
        if a0.cell(i, col).len() > 1 {
            let k = choose|k: int| 0 <= k < c0.len() && c0[k].state.0 == i && crate::table::column(a0.spec_grammar(), c0[k].symbol) == col;
        }
    }
    crate::table::lr1_conflict_free_when_lr0_is(&a0, &a1);
    if c1.len() > 0 {
        assert(crate::table::conflict_ok(&a1, c1[0]));
        let col = crate::table::column(a1.spec_grammar(), c1[0].symbol);
        assert(a1.cell(c1[0].state.0 as int, col).len() <= 1);
    }
}

} // verus!
