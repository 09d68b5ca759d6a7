//! LR action tables: one cell of actions per state and per symbol or end of input.

use vstd::prelude::*;
use crate::analysis::GrammarAnalysis;
use crate::automaton::{build_states, canonical, carries, covered, item_has, lemma_lr1_state_covered, tokens_ok, view_of, wf_items, CoreItem};
use crate::grammar::{Grammar, Rule, Symbol};

verus! {

/// The index of a state in a table.
#[derive(Clone, Copy, Debug, PartialEq, Eq, Hash, Structural)]
pub struct StateIndex(pub usize);

/// An LR action.
#[derive(Clone, Copy)]
pub enum Action<'g> {
    /// Consume the next symbol and enter the given state; after a reduction, the GOTO move.
    Shift(StateIndex),
    /// Reduce by the given rule.
    Reduce(Rule<'g>),
    /// The start symbol has been recognised.
    Halt,
}

impl<'g> PartialEq for Action<'g> {
    fn eq(&self, other: &Action<'g>) -> (r: bool) {
        match (self, other) {
            (Action::Shift(a), Action::Shift(b)) => a.0 == b.0,
            (Action::Reduce(a), Action::Reduce(b)) => a.index == b.index,
            (Action::Halt, Action::Halt) => true,
            _ => false,
        }
    }
}

impl<'g> vstd::std_specs::cmp::PartialEqSpecImpl for Action<'g> {
    open spec fn obeys_eq_spec() -> bool {
        true
    }

    open spec fn eq_spec(&self, other: &Action<'g>) -> bool {
        match (*self, *other) {
            (Action::Shift(a), Action::Shift(b)) => a.0 == b.0,
            (Action::Reduce(a), Action::Reduce(b)) => a.index == b.index,
            (Action::Halt, Action::Halt) => true,
            _ => false,
        }
    }
}

/// Column `col` of a table over `g`: a symbol index, or `num_symbols` for end of input.
pub open spec fn end_col(g: &Grammar) -> int {
    g.num_symbols() as int
}

/// State `state` reduces by rule `r` on column `col`: in LR(1) mode when the completed
/// item of `r` carries `col` as lookahead, in LR(0) mode on every terminal and at end of input.
pub open spec fn reduces_on(g: &Grammar, lr1: bool, state: Seq<CoreItem>, r: int, col: int) -> bool {
    let len = g.rhs(r).len() as int;
    if lr1 {
        carries(state, (r, len, col))
    } else {
        carries(state, (r, len, end_col(g))) && (col == end_col(g) || (0 <= col < g.num_symbols() && !g.is_nonterminal(col)))
    }
}

/// `act` belongs in cell `(i, col)`.
pub open spec fn action_ok<'g>(
    g: &'g Grammar,
    lr1: bool,
    start: int,
    states: Seq<Vec<CoreItem>>,
    trans: Seq<Vec<Option<usize>>>,
    i: int,
    col: int,
    act: Action<'g>,
) -> bool {
    match act {
        Action::Shift(j) => 0 <= col < g.num_symbols() && trans[i]@[col] == Some(j.0),
        Action::Reduce(rule) => rule.grammar == g && 0 <= rule.index < g.num_rules() && reduces_on(g, lr1, states[i]@, rule.index as int, col),
        Action::Halt => i == 0 && col == g.lhs(start),
    }
}

/// Cell `cell` holds exactly the actions that belong in `(i, col)`, each once, `Halt` first.
pub open spec fn cell_ok<'g>(
    g: &'g Grammar,
    lr1: bool,
    start: int,
    states: Seq<Vec<CoreItem>>,
    trans: Seq<Vec<Option<usize>>>,
    i: int,
    col: int,
    cell: Seq<Action<'g>>,
) -> bool {
    &&& forall|k: int| 0 <= k < cell.len() ==> action_ok(g, lr1, start, states, trans, i, col, #[trigger] cell[k])
    &&& forall|act: Action<'g>| #[trigger] action_ok(g, lr1, start, states, trans, i, col, act) ==> cell.contains(act)
    &&& forall|k1: int, k2: int| 0 <= k1 < k2 < cell.len() ==> #[trigger] cell[k1] != #[trigger] cell[k2]
    &&& cell.contains(Action::Halt) ==> cell[0] == Action::<'g>::Halt
}

/// An LR(0) or LR(1) parse table: the canonical states, their transitions, and one cell of
/// actions per state and per column (each symbol, then end of input).
pub struct ActionTable<'g> {
    grammar: &'g Grammar,
    lr1: bool,
    start: usize,
    states: Vec<Vec<CoreItem>>,
    trans: Vec<Vec<Option<usize>>>,
    cells: Vec<Vec<Vec<Action<'g>>>>,
}

impl<'g> ActionTable<'g> {
    /// The grammar of the table.
    pub closed spec fn spec_grammar(&self) -> &'g Grammar {
        self.grammar
    }

    /// Whether the table uses LR(1) lookaheads.
    pub closed spec fn spec_lr1(&self) -> bool {
        self.lr1
    }

    /// The start rule the table was built from.
    pub closed spec fn spec_start(&self) -> int {
        self.start as int
    }

    /// The states, by index.
    pub closed spec fn spec_states(&self) -> Seq<Vec<CoreItem>> {
        self.states@
    }

    /// The transitions, by state and symbol.
    pub closed spec fn spec_trans(&self) -> Seq<Vec<Option<usize>>> {
        self.trans@
    }

    /// The actions of cell `(i, col)`.
    pub closed spec fn cell(&self, i: int, col: int) -> Seq<Action<'g>> {
        self.cells@[i]@[col]@
    }

    /// The number of states.
    pub open spec fn num_states(&self) -> nat {
        self.spec_states().len()
    }

    /// The table is the canonical collection of its grammar with every cell right.
    pub open spec fn wf(&self) -> bool {
        &&& self.spec_grammar().wf()
        &&& 0 <= self.spec_start() < self.spec_grammar().num_rules()
        &&& canonical(self.spec_grammar(), self.spec_lr1(), self.spec_start(), self.spec_states(), self.spec_trans())
        &&& self.shape_ok()
        &&& forall|i: int, col: int| 0 <= i < self.num_states() && 0 <= col <= self.spec_grammar().num_symbols() ==>
            cell_ok(self.spec_grammar(), self.spec_lr1(), self.spec_start(), self.spec_states(), self.spec_trans(), i, col,
                #[trigger] self.cell(i, col))
    }

    /// There is a cell for every state and column.
    pub closed spec fn shape_ok(&self) -> bool {
        &&& self.cells@.len() == self.states@.len()
        &&& self.grammar.num_symbols() < usize::MAX
        &&& forall|i: int| 0 <= i < self.cells@.len() ==> (#[trigger] self.cells@[i])@.len() == self.grammar.num_symbols() + 1
    }

    /// Builds the canonical collection (LR(1) when `lr1`, else LR(0)) from the start item
    /// of `start_rule`, then fills every cell.
    pub fn build(grammar: &'g Grammar, start_rule: Rule<'g>, lr1: bool) -> (t: ActionTable<'g>)
        requires
            start_rule.wf(),
            start_rule.grammar == grammar,
        ensures
            t.wf(),
            t.spec_grammar() == grammar,
            t.spec_lr1() == lr1,
            t.spec_start() == start_rule.index,
    {
        let an = GrammarAnalysis::build(grammar);
        let (states, trans) = build_states(&an, lr1, start_rule.index);
        let start_lhs = grammar.rule_lhs(start_rule.index);
        let n = grammar.num_symbols_exec();
        proof {
            an.lemma_size();
            assert(grammar.lhs(0) < grammar.num_symbols());
        }
        let mut cells: Vec<Vec<Vec<Action<'g>>>> = Vec::new();
        let mut i: usize = 0;
        while i < states.len()
            invariant
                grammar.wf(),
                n == grammar.num_symbols(),
                3 * n <= usize::MAX,
                1 <= n,
                start_rule.index < grammar.num_rules(),
                start_lhs == grammar.lhs(start_rule.index as int),
                canonical(grammar, lr1, start_rule.index as int, states@, trans@),
                i <= states@.len(),
                cells@.len() == i,
                forall|k: int| 0 <= k < i ==> (#[trigger] cells@[k])@.len() == n + 1,
                forall|k: int, col: int| 0 <= k < i && 0 <= col <= n ==>
                    cell_ok(grammar, lr1, start_rule.index as int, states@, trans@, k, col, #[trigger] cells@[k]@[col]@),
            decreases states@.len() - i,
        {
            let mut row: Vec<Vec<Action<'g>>> = Vec::new();
            let mut col: usize = 0;
            while col <= n
                invariant
                    grammar.wf(),
                    n == grammar.num_symbols(),
                    3 * n <= usize::MAX,
                    1 <= n,
                    start_rule.index < grammar.num_rules(),
                    start_lhs == grammar.lhs(start_rule.index as int),
                    canonical(grammar, lr1, start_rule.index as int, states@, trans@),
                    i < states@.len(),
                    col <= n + 1,
                    row@.len() == col,
                    forall|c: int| 0 <= c < col ==>
                        cell_ok(grammar, lr1, start_rule.index as int, states@, trans@, i as int, c, #[trigger] row@[c]@),
                decreases n + 1 - col,
            {
                let cell = build_cell(grammar, lr1, start_rule.index, start_lhs, &states, &trans, i, col);
                row.push(cell);
                col += 1;
            }
            cells.push(row);
            i += 1;
        }
        ActionTable { grammar, lr1, start: start_rule.index, states, trans, cells }
    }

    /// The grammar of the table.
    pub fn grammar(&self) -> (g: &'g Grammar)
        ensures
            g == self.spec_grammar(),
    {
        self.grammar
    }

    /// The index of the start rule.
    pub fn start_index(&self) -> (r: usize)
        ensures
            r == self.spec_start(),
    {
        self.start
    }

    /// The number of states.
    pub fn state_count(&self) -> (n: usize)
        requires
            self.wf(),
        ensures
            n == self.num_states(),
    {
        self.states.len()
    }

    /// The items of state `i`.
    pub fn state_items(&self, i: usize) -> (items: &Vec<CoreItem>)
        requires
            self.wf(),
            i < self.num_states(),
        ensures
            items == self.spec_states()[i as int],
    {
        &self.states[i]
    }

    /// The actions of cell `(state, col)`.
    pub fn cell_at(&self, state: usize, col: usize) -> (v: Vec<Action<'g>>)
        requires
            self.wf(),
            state < self.num_states(),
            col <= self.spec_grammar().num_symbols(),
        ensures
            v@ == self.cell(state as int, col as int),
    {
        copy_actions(&self.cells[state][col])
    }

    /// The actions for `state` on `symbol`, or on end of input when `symbol` is `None`.
    /// A key outside the table has no action.
    pub fn get(&self, state: StateIndex, symbol: Option<Symbol<'g>>) -> (v: Vec<Action<'g>>)
        requires
            self.wf(),
        ensures
            self.has_key(state, symbol) ==> v@ == self.cell(state.0 as int, column(self.spec_grammar(), symbol)),
            !self.has_key(state, symbol) ==> v@.len() == 0,
    {
        if state.0 >= self.states.len() {
            return Vec::new();
        }
        let col = match symbol {
            Some(s) => s.index,
            None => self.grammar.num_symbols_exec(),
        };
        if col > self.grammar.num_symbols_exec() || (symbol.is_some() && col == self.grammar.num_symbols_exec()) {
            return Vec::new();
        }
        self.cell_at(state.0, col)
    }

    /// `(state, symbol)` names a cell of the table.
    pub open spec fn has_key(&self, state: StateIndex, symbol: Option<Symbol<'g>>) -> bool {
        &&& state.0 < self.num_states()
        &&& symbol matches Some(s) ==> s.index < self.spec_grammar().num_symbols()
    }

    /// Every cell with more than one action, in order of state and then of column.
    pub fn conflicts(&self) -> (v: Vec<Conflict<'g>>)
        requires
            self.wf(),
        ensures
            conflicts_listed(self, v@),
    {
        let n = self.grammar.num_symbols_exec();
        let mut v: Vec<Conflict<'g>> = Vec::new();
        let mut i: usize = 0;
        while i < self.states.len()
            invariant
                self.wf(),
                n == self.spec_grammar().num_symbols(),
                n < usize::MAX,
                i <= self.num_states(),
                forall|k: int| 0 <= k < v@.len() ==> conflict_ok(self, #[trigger] v@[k]) && v@[k].state.0 < i,
                forall|a: int, b: int| 0 <= a < b < v@.len() ==> conflict_before(self, #[trigger] v@[a], #[trigger] v@[b]),
                forall|s: int, col: int| 0 <= s < i && 0 <= col <= n && #[trigger] self.cell(s, col).len() > 1 ==>
                    exists|k: int| 0 <= k < v@.len() && v@[k].state.0 == s && column(self.spec_grammar(), v@[k].symbol) == col,
            decreases self.num_states() - i,
        {
            let mut col: usize = 0;
            while col <= n
                invariant
                    self.wf(),
                    n == self.spec_grammar().num_symbols(),
                    n < usize::MAX,
                    i < self.num_states(),
                    col <= n + 1,
                    forall|k: int| 0 <= k < v@.len() ==> conflict_ok(self, #[trigger] v@[k]) && v@[k].state.0 <= i
                        && (v@[k].state.0 == i ==> column(self.spec_grammar(), v@[k].symbol) < col),
                    forall|a: int, b: int| 0 <= a < b < v@.len() ==> conflict_before(self, #[trigger] v@[a], #[trigger] v@[b]),
                    forall|s: int, c: int| 0 <= s <= i && 0 <= c <= n && (s < i || c < col) && #[trigger] self.cell(s, c).len() > 1 ==>
                        exists|k: int| 0 <= k < v@.len() && v@[k].state.0 == s && column(self.spec_grammar(), v@[k].symbol) == c,
                decreases n + 1 - col,
            {
                let actions = self.cell_at(i, col);
                if actions.len() > 1 {
                    let symbol = if col < n {
                        Some(Symbol { grammar: self.grammar, index: col })
                    } else {
                        None
                    };
                    let c = Conflict { state: StateIndex(i), symbol, actions };
                    let ghost v0 = v@;
                    v.push(c);
                    proof {
                        assert(column(self.spec_grammar(), c.symbol) == col);
                        assert forall|s: int, cc: int| 0 <= s <= i && 0 <= cc <= n && (s < i || cc < col + 1) && #[trigger] self.cell(s, cc).len() > 1
                            implies exists|k: int| 0 <= k < v@.len() && v@[k].state.0 == s && column(self.spec_grammar(), v@[k].symbol) == cc by {
                            if s == i && cc == col {
                                assert(v@[v@.len() - 1] == c);
                            } else {
                                let k = choose|k: int| 0 <= k < v0.len() && v0[k].state.0 == s && column(self.spec_grammar(), v0[k].symbol) == cc;
                                assert(v@[k] == v0[k]);
                            }
                        }
                    }
                }
                col += 1;
            }
            i += 1;
        }
        v
    }
}

/// The column of `symbol`, with `None` for end of input.
pub open spec fn column<'g>(g: &Grammar, symbol: Option<Symbol<'g>>) -> int {
    match symbol {
        Some(s) => s.index as int,
        None => g.num_symbols() as int,
    }
}

/// A copy of a list of actions.
pub fn copy_actions<'g>(v: &Vec<Action<'g>>) -> (r: Vec<Action<'g>>)
    ensures
        r@ == v@,
{
    let mut r: Vec<Action<'g>> = Vec::new();
    let mut i: usize = 0;
    while i < v.len()
        invariant
            i <= v@.len(),
            r@ == v@.subrange(0, i as int),
        decreases v@.len() - i,
    {
        r.push(v[i]);
        i += 1;
    }
    assert(r@ =~= v@);
    r
}

/// Fills cell `(i, col)`: `Halt` at the start symbol's column of state 0, the shift to the
/// GOTO state, then a reduction for each completed item that applies.
fn build_cell<'g>(
    grammar: &'g Grammar,
    lr1: bool,
    start: usize,
    start_lhs: usize,
    states: &Vec<Vec<CoreItem>>,
    trans: &Vec<Vec<Option<usize>>>,
    i: usize,
    col: usize,
) -> (cell: Vec<Action<'g>>)
    requires
        grammar.wf(),
        start < grammar.num_rules(),
        start_lhs == grammar.lhs(start as int),
        canonical(grammar, lr1, start as int, states@, trans@),
        i < states@.len(),
        col <= grammar.num_symbols(),
    ensures
        cell_ok(grammar, lr1, start as int, states@, trans@, i as int, col as int, cell@),
{
    let n = grammar.num_symbols_exec();
    let mut cell: Vec<Action<'g>> = Vec::new();
    if i == 0 && col == start_lhs {
        cell.push(Action::Halt);
    }
    if col < n {
        if let Some(j) = trans[i][col] {
            cell.push(Action::Shift(StateIndex(j)));
        }
    }
    let ghost fixed = cell@;
    proof {
        assert forall|act: Action<'g>| #[trigger] action_ok(grammar, lr1, start as int, states@, trans@, i as int, col as int, act)
            && !(act is Reduce) implies cell@.contains(act) by {
            if act is Halt {
                assert(cell@[0] == act);
            } else {
                assert(cell@[cell@.len() - 1] == act);
            }
        }
    }
    let items = &states[i];
    let mut k: usize = 0;
    while k < items.len()
        invariant
            grammar.wf(),
            n == grammar.num_symbols(),
            start < grammar.num_rules(),
            canonical(grammar, lr1, start as int, states@, trans@),
            i < states@.len(),
            col <= n,
            items == states@[i as int],
            wf_items(grammar, items@),
            k <= items@.len(),
            fixed.len() <= cell@.len(),
            forall|m: int| 0 <= m < fixed.len() ==> #[trigger] cell@[m] == fixed[m],
            forall|m: int| 0 <= m < fixed.len() ==> !(#[trigger] fixed[m] is Reduce),
            fixed.len() > 0 && fixed.contains(Action::Halt) ==> fixed[0] == Action::<'g>::Halt,
            forall|act: Action<'g>| #[trigger] action_ok(grammar, lr1, start as int, states@, trans@, i as int, col as int, act)
                && !(act is Reduce) ==> fixed.contains(act),
            forall|m: int| fixed.len() <= m < cell@.len() ==> reduce_from(grammar, #[trigger] cell@[m], items@, k as int),
            forall|m: int| 0 <= m < cell@.len() ==> action_ok(grammar, lr1, start as int, states@, trans@, i as int, col as int, #[trigger] cell@[m]),
            forall|m1: int, m2: int| 0 <= m1 < m2 < cell@.len() ==> #[trigger] cell@[m1] != #[trigger] cell@[m2],
            forall|q: int| 0 <= q < k && (#[trigger] items@[q]).pos == grammar.rhs(items@[q].rule as int).len()
                && reduces_on(grammar, lr1, items@, items@[q].rule as int, col as int)
                ==> cell@.contains(Action::Reduce(Rule { grammar, index: items@[q].rule })),
        decreases items@.len() - k,
    {
        let r = items[k].rule;
        let p = items[k].pos;
        let len = grammar.rule_len(r);
        if p == len {
            let applies = if lr1 {
                items[k].la[col]
            } else {
                items[k].la[n] && (col == n || !grammar.nonterminal_at(col))
            };
            let ghost c0 = cell@;
            proof {
                let rr = r as int;
                if applies {
                    if lr1 {
                        assert(item_has(items@[k as int], (rr, len as int, col as int)));
                    } else {
                        assert(item_has(items@[k as int], (rr, len as int, n as int)));
                    }
                } else {
                    if reduces_on(grammar, lr1, items@, rr, col as int) {
                        let t = if lr1 { (rr, len as int, col as int) } else { (rr, len as int, n as int) };
                        let q = choose|q: int| 0 <= q < items@.len() && item_has(#[trigger] items@[q], t);
                        assert(q == k);
                    }
                }
            }
            if applies {
                let act = Action::Reduce(Rule { grammar, index: r });
                cell.push(act);
                proof {
                    assert forall|m1: int, m2: int| 0 <= m1 < m2 < cell@.len() implies #[trigger] cell@[m1] != #[trigger] cell@[m2] by {
                        if m2 == cell@.len() - 1 && m1 >= fixed.len() {
                            assert(reduce_from(grammar, c0[m1], items@, k as int));
                            let rule = c0[m1]->Reduce_0;
                            let q = choose|q: int| 0 <= q < k && items@[q].rule == rule.index && items@[q].pos == grammar.rhs(rule.index as int).len();
                            if rule.index == r {
                                assert(items@[q].pos == items@[k as int].pos);
                            }
                        }
                        if m2 == cell@.len() - 1 && m1 < fixed.len() {
                            assert(!(fixed[m1] is Reduce));
                        }
                    }
                    assert(cell@[cell@.len() - 1] == act);
                    assert forall|q: int| 0 <= q < k + 1 && (#[trigger] items@[q]).pos == grammar.rhs(items@[q].rule as int).len()
                        && reduces_on(grammar, lr1, items@, items@[q].rule as int, col as int)
                        implies cell@.contains(Action::Reduce(Rule { grammar, index: items@[q].rule })) by {
                        if q < k {
                            let m = choose|m: int| 0 <= m < c0.len() && c0[m] == Action::Reduce(Rule { grammar, index: items@[q].rule });
                            assert(cell@[m] == c0[m]);
                        }
                    }
                    assert forall|m: int| fixed.len() <= m < cell@.len() implies reduce_from(grammar, #[trigger] cell@[m], items@, k + 1) by {
                        if m < cell@.len() - 1 {
                            assert(reduce_from(grammar, c0[m], items@, k as int));
                        } else {
                            assert(items@[k as int].rule == r);
                        }
                    }
                }
            } else {
                proof {
                    assert forall|m: int| fixed.len() <= m < cell@.len() implies reduce_from(grammar, #[trigger] cell@[m], items@, k + 1) by {
                        assert(reduce_from(grammar, c0[m], items@, k as int));
                    }
                }
            }
        } else {
            proof {
                assert forall|m: int| fixed.len() <= m < cell@.len() implies reduce_from(grammar, #[trigger] cell@[m], items@, k + 1) by {
                    assert(reduce_from(grammar, cell@[m], items@, k as int));
                }
            }
        }
        k += 1;
    }
    proof {
        assert forall|act: Action<'g>| #[trigger] action_ok(grammar, lr1, start as int, states@, trans@, i as int, col as int, act)
            implies cell@.contains(act) by {
            if act is Reduce {
                let rule = act->Reduce_0;
                let rr = rule.index as int;
                let len = grammar.rhs(rr).len() as int;
                let t = if lr1 { (rr, len, col as int) } else { (rr, len, n as int) };
                let q = choose|q: int| 0 <= q < items@.len() && item_has(#[trigger] items@[q], t);
                assert(items@[q].rule == rule.index);
                assert(act == Action::Reduce(Rule { grammar, index: items@[q].rule }));
            } else {
                let m = choose|m: int| 0 <= m < fixed.len() && fixed[m] == act;
                assert(cell@[m] == act);
            }
        }
        if cell@.contains(Action::Halt) {
            let m = choose|m: int| 0 <= m < cell@.len() && cell@[m] == Action::<'g>::Halt;
            if m >= fixed.len() {
                assert(reduce_from(grammar, cell@[m], items@, items@.len() as int));
            }
            assert(fixed[m] == Action::<'g>::Halt);
            assert(fixed.contains(Action::Halt));
        }
    }
    cell
}

/// `act` reduces by the rule of a completed item among the first `k` of `items`.
pub open spec fn reduce_from<'g>(g: &Grammar, act: Action<'g>, items: Seq<CoreItem>, k: int) -> bool {
    match act {
        Action::Reduce(rule) => exists|q: int| 0 <= q < k && items[q].rule == rule.index
            && items[q].pos == g.rhs(rule.index as int).len(),
        _ => false,
    }
}

/// A table cell with more than one action.
pub struct Conflict<'g> {
    pub state: StateIndex,
    pub symbol: Option<Symbol<'g>>,
    pub actions: Vec<Action<'g>>,
}

/// `c` reports a cell of `t` with more than one action, and its actions.
pub open spec fn conflict_ok<'g>(t: &ActionTable<'g>, c: Conflict<'g>) -> bool {
    &&& c.state.0 < t.num_states()
    &&& (c.symbol matches Some(s) ==> s.grammar == t.spec_grammar() && s.index < t.spec_grammar().num_symbols())
    &&& c.actions@ == t.cell(c.state.0 as int, column(t.spec_grammar(), c.symbol))
    &&& c.actions@.len() > 1
}

/// `a` comes before `b` in order of state, then of column.
pub open spec fn conflict_before<'g>(t: &ActionTable<'g>, a: Conflict<'g>, b: Conflict<'g>) -> bool {
    a.state.0 < b.state.0 || (a.state.0 == b.state.0 && column(t.spec_grammar(), a.symbol) < column(t.spec_grammar(), b.symbol))
}

/// `v` lists every conflicting cell of `t` once, in order.
pub open spec fn conflicts_listed<'g>(t: &ActionTable<'g>, v: Seq<Conflict<'g>>) -> bool {
    &&& forall|k: int| 0 <= k < v.len() ==> conflict_ok(t, #[trigger] v[k])
    &&& forall|a: int, b: int| 0 <= a < b < v.len() ==> conflict_before(t, #[trigger] v[a], #[trigger] v[b])
    &&& forall|s: int, col: int| 0 <= s < t.num_states() && 0 <= col <= t.spec_grammar().num_symbols()
        && #[trigger] t.cell(s, col).len() > 1 ==>
        exists|k: int| 0 <= k < v.len() && v[k].state.0 == s && column(t.spec_grammar(), v[k].symbol) == col
}

impl<'g> Conflict<'g> {
    /// The state of the conflicting cell.
    pub fn state(&self) -> (s: StateIndex)
        ensures
            s == self.state,
    {
        self.state
    }

    /// The symbol of the conflicting cell, `None` for end of input.
    pub fn symbol(&self) -> (s: Option<Symbol<'g>>)
        ensures
            s == self.symbol,
    {
        self.symbol
    }

    /// The actions in the conflicting cell.
    pub fn actions(&self) -> (a: &Vec<Action<'g>>)
        ensures
            a == self.actions,
    {
        &self.actions
    }
}


/// The actions of a cell refer to states, rules and symbols of the table, and a shift only
/// ever appears in a symbol's column.
pub proof fn lemma_cell_actions<'g>(t: &ActionTable<'g>, i: int, col: int)
    requires
        t.wf(),
        0 <= i < t.num_states(),
        0 <= col <= t.spec_grammar().num_symbols(),
    ensures
        forall|k: int| 0 <= k < t.cell(i, col).len() ==> match #[trigger] t.cell(i, col)[k] {
            Action::Shift(j) => j.0 < t.num_states() && col < t.spec_grammar().num_symbols(),
            Action::Reduce(rule) => rule.grammar == t.spec_grammar() && rule.index < t.spec_grammar().num_rules(),
            Action::Halt => true,
        },
{
    let g = t.spec_grammar();
    assert(cell_ok(g, t.spec_lr1(), t.spec_start(), t.spec_states(), t.spec_trans(), i, col, t.cell(i, col)));
    assert forall|k: int| 0 <= k < t.cell(i, col).len() implies match #[trigger] t.cell(i, col)[k] {
        Action::Shift(j) => j.0 < t.num_states() && col < g.num_symbols(),
        Action::Reduce(rule) => rule.grammar == g && rule.index < g.num_rules(),
        Action::Halt => true,
    } by {
        let act = t.cell(i, col)[k];
        assert(action_ok(g, t.spec_lr1(), t.spec_start(), t.spec_states(), t.spec_trans(), i, col, act));
        if let Action::Shift(j) = act {
            assert(crate::automaton::transition_ok(g, t.spec_lr1(), t.spec_states(), i, col, t.spec_trans()[i]@[col]));
        }
    }
}


/// The action of an LR(0) table that stands for LR(1) action `a`: the shift of LR(0) state
/// `j0` on `col`, the same reduction, or `Halt`.
pub open spec fn lr0_image<'g>(t0: &ActionTable<'g>, j0: int, col: int, a: Action<'g>) -> Action<'g> {
    match a {
        Action::Shift(_) => Action::Shift(StateIndex(t0.spec_trans()[j0]@[col].unwrap())),
        Action::Reduce(rule) => Action::Reduce(rule),
        Action::Halt => Action::Halt,
    }
}

proof fn lemma_image_in_lr0<'g>(t0: &ActionTable<'g>, t1: &ActionTable<'g>, i: int, j0: int, col: int, a: Action<'g>)
    requires
        t0.wf(),
        t1.wf(),
        !t0.spec_lr1(),
        t1.spec_lr1(),
        t0.spec_grammar() == t1.spec_grammar(),
        t0.spec_start() == t1.spec_start(),
        0 <= i < t1.num_states(),
        0 <= j0 < t0.num_states(),
        i == 0 ==> j0 == 0,
        covered(t1.spec_grammar(), view_of(t1.spec_states()[i]@), view_of(t0.spec_states()[j0]@)),
        tokens_ok(t1.spec_grammar(), view_of(t1.spec_states()[i]@)),
        0 <= col <= t1.spec_grammar().num_symbols(),
        t1.cell(i, col).contains(a),
    ensures
        t0.cell(j0, col).contains(lr0_image(t0, j0, col, a)),
{
    let g = t1.spec_grammar();
    let n = g.num_symbols() as int;
    assert(cell_ok(g, true, t1.spec_start(), t1.spec_states(), t1.spec_trans(), i, col, t1.cell(i, col)));
    assert(cell_ok(g, false, t0.spec_start(), t0.spec_states(), t0.spec_trans(), j0, col, t0.cell(j0, col)));
    let k = choose|k: int| 0 <= k < t1.cell(i, col).len() && t1.cell(i, col)[k] == a;
    assert(action_ok(g, true, t1.spec_start(), t1.spec_states(), t1.spec_trans(), i, col, a));
    let b = lr0_image(t0, j0, col, a);
    match a {
        Action::Shift(j) => {
            assert(crate::automaton::transition_ok(g, true, t1.spec_states(), i, col, t1.spec_trans()[i]@[col]));
            let v1 = view_of(t1.spec_states()[i]@);
            let v0 = view_of(t0.spec_states()[j0]@);
            let tt = choose|tt: crate::automaton::Triple| #[trigger] crate::automaton::goto_of(g, true, v1, col)(tt);
            crate::automaton::lemma_goto_covered(g, v1, v0, col);
            assert(crate::automaton::goto_of(g, false, v0, col)((tt.0, tt.1, n)));
            assert(crate::automaton::transition_ok(g, false, t0.spec_states(), j0, col, t0.spec_trans()[j0]@[col]));
            assert(action_ok(g, false, t0.spec_start(), t0.spec_states(), t0.spec_trans(), j0, col, b));
        },
        Action::Reduce(rule) => {
            let len = g.rhs(rule.index as int).len() as int;
            assert(view_of(t1.spec_states()[i]@)((rule.index as int, len, col)));
            assert(view_of(t0.spec_states()[j0]@)((rule.index as int, len, n)));
            assert(action_ok(g, false, t0.spec_start(), t0.spec_states(), t0.spec_trans(), j0, col, b));
        },
        Action::Halt => {
            assert(action_ok(g, false, t0.spec_start(), t0.spec_states(), t0.spec_trans(), j0, col, b));
        },
    }
}

/// A grammar whose LR(0) table has no conflict has an LR(1) table without conflict: every
/// LR(1) state is covered by an LR(0) state, and each action of an LR(1) cell has a distinct
/// counterpart in the LR(0) cell.
pub proof fn lr1_conflict_free_when_lr0_is<'g>(t0: &ActionTable<'g>, t1: &ActionTable<'g>)
    requires
        t0.wf(),
        t1.wf(),
        !t0.spec_lr1(),
        t1.spec_lr1(),
        t0.spec_grammar() == t1.spec_grammar(),
        t0.spec_start() == t1.spec_start(),
        forall|i: int, col: int| 0 <= i < t0.num_states() && 0 <= col <= t0.spec_grammar().num_symbols()
            ==> #[trigger] t0.cell(i, col).len() <= 1,
    ensures
        forall|i: int, col: int| 0 <= i < t1.num_states() && 0 <= col <= t1.spec_grammar().num_symbols()
            ==> #[trigger] t1.cell(i, col).len() <= 1,
{
    let g = t1.spec_grammar();
    assert forall|i: int, col: int| 0 <= i < t1.num_states() && 0 <= col <= g.num_symbols()
        implies #[trigger] t1.cell(i, col).len() <= 1 by {
        if t1.cell(i, col).len() > 1 {
            let j0 = lemma_lr1_state_covered(g, t1.spec_start(), t1.spec_states(), t1.spec_trans(),
                t0.spec_states(), t0.spec_trans(), i);
            let c1 = t1.cell(i, col);
            let c0 = t0.cell(j0, col);
            assert(cell_ok(g, true, t1.spec_start(), t1.spec_states(), t1.spec_trans(), i, col, c1));
            let a1 = c1[0];
            let a2 = c1[1];
            assert(a1 != a2);
            assert(c1.contains(a1) && c1.contains(a2));
            lemma_image_in_lr0(t0, t1, i, j0, col, a1);
            lemma_image_in_lr0(t0, t1, i, j0, col, a2);
            let b1 = lr0_image(t0, j0, col, a1);
            let b2 = lr0_image(t0, j0, col, a2);
            assert(action_ok(g, true, t1.spec_start(), t1.spec_states(), t1.spec_trans(), i, col, a1));
            assert(action_ok(g, true, t1.spec_start(), t1.spec_states(), t1.spec_trans(), i, col, a2));
            assert(b1 != b2);
            let k1 = choose|k: int| 0 <= k < c0.len() && c0[k] == b1;
            let k2 = choose|k: int| 0 <= k < c0.len() && c0[k] == b2;
            assert(k1 != k2);
            assert(c0.len() > 1);
        }
    }
}

} // verus!
