//! LL(1): the predictive table from nonterminal and lookahead to rules, and its driver.

use vstd::prelude::*;
use crate::analysis::{all_nullable, end_edges, in_first_seq, in_follow, GrammarAnalysis};
use crate::grammar::{Grammar, Rule, Symbol};
use crate::reach::reaches;

verus! {

/// Rule `r` goes in cell `(a, col)` (`col == n` for end of input): its left side is `a`, and
/// either its right side is nullable and `col` follows `a` (end of input: when the start
/// symbol can end with `a`), or its right side is not nullable and `col` begins it.
pub open spec fn ll1_entry(g: &Grammar, start: int, r: int, a: int, col: int) -> bool {
    let n = g.num_symbols() as int;
    &&& 0 <= r < g.num_rules()
    &&& g.lhs(r) == a
    &&& if all_nullable(g, g.rhs(r), 0, g.rhs(r).len() as int) {
        (0 <= col < n && in_follow(g, a, col)) || (col == n && reaches(end_edges(g), start, a))
    } else {
        0 <= col < n && in_first_seq(g, g.rhs(r), col)
    }
}

/// `cell` holds, in increasing order, the rules below `bound` that go in `(a, col)`.
pub open spec fn cell_rules<'g>(g: &'g Grammar, start: int, a: int, col: int, bound: int, cell: Seq<Rule<'g>>) -> bool {
    &&& forall|k: int| 0 <= k < cell.len() ==> (#[trigger] cell[k]).grammar == g && cell[k].index < bound
        && ll1_entry(g, start, cell[k].index as int, a, col)
    &&& forall|k1: int, k2: int| 0 <= k1 < k2 < cell.len() ==> (#[trigger] cell[k1]).index < (#[trigger] cell[k2]).index
    &&& forall|r: int| 0 <= r < bound && #[trigger] ll1_entry(g, start, r, a, col) ==>
        cell.contains(Rule { grammar: g, index: r as usize })
}

/// An LL(1) table: for each symbol and each column (symbols, then end of input), the rules to predict.
pub struct ParseTable<'g> {
    grammar: &'g Grammar,
    start_symbol: Symbol<'g>,
    table: Vec<Vec<Vec<Rule<'g>>>>,
}

impl<'g> ParseTable<'g> {
    /// The grammar of the table.
    pub closed spec fn spec_grammar(&self) -> &'g Grammar {
        self.grammar
    }

    /// The start symbol of the table.
    pub closed spec fn spec_start(&self) -> Symbol<'g> {
        self.start_symbol
    }

    /// The rules of cell `(a, col)`.
    pub closed spec fn cell(&self, a: int, col: int) -> Seq<Rule<'g>> {
        self.table@[a]@[col]@
    }

    /// Every cell holds exactly its rules.
    pub open spec fn wf(&self) -> bool {
        &&& self.spec_grammar().wf()
        &&& self.spec_start().grammar == self.spec_grammar()
        &&& self.spec_start().index < self.spec_grammar().num_symbols()
        &&& self.shape_ok()
        &&& forall|a: int, col: int| 0 <= a < self.spec_grammar().num_symbols() && 0 <= col <= self.spec_grammar().num_symbols() ==>
            cell_rules(self.spec_grammar(), self.spec_start().index as int, a, col, self.spec_grammar().num_rules() as int,
                #[trigger] self.cell(a, col))
    }

    /// There is a cell for every symbol and column.
    pub closed spec fn shape_ok(&self) -> bool {
        &&& self.table@.len() == self.grammar.num_symbols()
        &&& self.grammar.num_symbols() < usize::MAX
        &&& forall|a: int| 0 <= a < self.table@.len() ==> (#[trigger] self.table@[a])@.len() == self.grammar.num_symbols() + 1
    }

    /// Builds the LL(1) table of `grammar` for `start_symbol`.
    pub fn build(grammar: &'g Grammar, start_symbol: Symbol<'g>) -> (t: ParseTable<'g>)
        requires
            start_symbol.wf(),
            start_symbol.grammar == grammar,
        ensures
            t.wf(),
            t.spec_grammar() == grammar,
            t.spec_start() == start_symbol,
    {
        let an = GrammarAnalysis::build(grammar);
        let n = grammar.num_symbols_exec();
        let nr = grammar.num_rules_exec();
        proof {
            an.lemma_size();
        }
        let mut table: Vec<Vec<Vec<Rule<'g>>>> = Vec::new();
        let mut a: usize = 0;
        while a < n
            invariant
                n == grammar.num_symbols(),
                3 * n <= usize::MAX,
                a <= n,
                table@.len() == a,
                forall|x: int| 0 <= x < a ==> (#[trigger] table@[x])@.len() == n + 1,
                forall|x: int, c: int| 0 <= x < a && 0 <= c <= n ==> (#[trigger] table@[x]@[c])@.len() == 0,
            decreases n - a,
        {
            let mut row: Vec<Vec<Rule<'g>>> = Vec::new();
            let mut c: usize = 0;
            while c <= n
                invariant
                    n == grammar.num_symbols(),
                    3 * n <= usize::MAX,
                    c <= n + 1,
                    row@.len() == c,
                    forall|d: int| 0 <= d < c ==> (#[trigger] row@[d])@.len() == 0,
                decreases n + 1 - c,
            {
                row.push(Vec::new());
                c += 1;
            }
            table.push(row);
            a += 1;
        }
        let start = start_symbol.index;
        let mut r: usize = 0;
        while r < nr
            invariant
                an.wf(),
                an.spec_grammar() == grammar,
                grammar.wf(),
                n == grammar.num_symbols(),
                nr == grammar.num_rules(),
                3 * n <= usize::MAX,
                start == start_symbol.index,
                start < n,
                r <= nr,
                table@.len() == n,
                forall|x: int| 0 <= x < n ==> (#[trigger] table@[x])@.len() == n + 1,
                forall|x: int, c: int| 0 <= x < n && 0 <= c <= n ==>
                    cell_rules(grammar, start as int, x, c, r as int, #[trigger] table@[x]@[c]@),
            decreases nr - r,
        {
            let cols = rule_columns(&an, start, r);
            let lhs = grammar.rule_lhs(r);
            let mut c: usize = 0;
            while c <= n
                invariant
                    grammar.wf(),
                    n == grammar.num_symbols(),
                    nr == grammar.num_rules(),
                    3 * n <= usize::MAX,
                    start < n,
                    r < nr,
                    lhs == grammar.lhs(r as int),
                    lhs < n,
                    cols@.len() == n + 1,
                    forall|d: int| 0 <= d <= n ==> cols@[d] == ll1_entry(grammar, start as int, r as int, lhs as int, d),
                    c <= n + 1,
                    table@.len() == n,
                    forall|x: int| 0 <= x < n ==> (#[trigger] table@[x])@.len() == n + 1,
                    forall|x: int, d: int| 0 <= x < n && 0 <= d <= n && (x != lhs || d >= c) ==>
                        cell_rules(grammar, start as int, x, d, r as int, #[trigger] table@[x]@[d]@),
                    forall|d: int| 0 <= d < c ==>
                        cell_rules(grammar, start as int, lhs as int, d, r + 1, #[trigger] table@[lhs as int]@[d]@),
                decreases n + 1 - c,
            {
                let ghost t0 = table@;
                if cols[c] {
                    let ghost cell0 = table@[lhs as int]@[c as int]@;
                    table[lhs][c].push(Rule { grammar, index: r });
                    proof {
                        assert(cell_rules(grammar, start as int, lhs as int, c as int, r as int, cell0));
                        let cellv = table@[lhs as int]@[c as int]@;
                        assert(cellv == cell0.push(Rule { grammar, index: r }));
                        assert forall|q: int| 0 <= q < r + 1 && #[trigger] ll1_entry(grammar, start as int, q, lhs as int, c as int)
                            implies cellv.contains(Rule { grammar, index: q as usize }) by {
                            if q < r {
                                let k = choose|k: int| 0 <= k < cell0.len() && cell0[k] == Rule { grammar, index: q as usize };
                                assert(cellv[k] == cell0[k]);
                            } else {
                                assert(cellv[cellv.len() - 1] == Rule { grammar, index: q as usize });
                            }
                        }
                        assert forall|x: int, d: int| 0 <= x < n && 0 <= d <= n && (x != lhs || d >= c + 1) implies
                            cell_rules(grammar, start as int, x, d, r as int, #[trigger] table@[x]@[d]@) by {
                            assert(table@[x]@[d] == t0[x]@[d]);
                        }
                        assert forall|d: int| 0 <= d < c + 1 implies
                            cell_rules(grammar, start as int, lhs as int, d, r + 1, #[trigger] table@[lhs as int]@[d]@) by {
                            if d < c {
                                assert(table@[lhs as int]@[d] == t0[lhs as int]@[d]);
                            }
                        }
                    }
                } else {
                    proof {
                        assert forall|d: int| 0 <= d < c + 1 implies
                            cell_rules(grammar, start as int, lhs as int, d, r + 1, #[trigger] table@[lhs as int]@[d]@) by {
                            if d == c {
                                assert(cell_rules(grammar, start as int, lhs as int, d, r as int, table@[lhs as int]@[d]@));
                            }
                        }
                    }
                }
                c += 1;
            }
            proof {
                assert forall|x: int, d: int| 0 <= x < n && 0 <= d <= n implies
                    cell_rules(grammar, start as int, x, d, r + 1, #[trigger] table@[x]@[d]@) by {
                    if x != lhs {
                        assert(cell_rules(grammar, start as int, x, d, r as int, table@[x]@[d]@));
                        assert forall|q: int| 0 <= q < r + 1 && #[trigger] ll1_entry(grammar, start as int, q, x, d)
                            implies table@[x]@[d]@.contains(Rule { grammar, index: q as usize }) by {
                            assert(q != r);
                        }
                    }
                }
            }
            r += 1;
        }
        ParseTable { grammar, start_symbol, table }
    }

    /// The grammar of the table.
    pub fn grammar(&self) -> (g: &'g Grammar)
        ensures
            g == self.spec_grammar(),
    {
        self.grammar
    }

    /// The start symbol of the table.
    pub fn start_symbol(&self) -> (s: Symbol<'g>)
        ensures
            s == self.spec_start(),
    {
        self.start_symbol
    }

    /// `(state, input)` names a cell of the table.
    pub open spec fn has_key(&self, state: Symbol<'g>, input: Option<Symbol<'g>>) -> bool {
        &&& state.index < self.spec_grammar().num_symbols()
        &&& input matches Some(s) ==> s.index < self.spec_grammar().num_symbols()
    }

    /// The rules to predict for `state` on `input` (`None`: end of input); none for a key
    /// outside the table.
    pub fn get(&self, state: Symbol<'g>, input: Option<Symbol<'g>>) -> (v: Vec<Rule<'g>>)
        requires
            self.wf(),
        ensures
            self.has_key(state, input) ==> v@ == self.cell(state.index as int, crate::table::column(self.spec_grammar(), input)),
            !self.has_key(state, input) ==> v@.len() == 0,
    {
        let n = self.grammar.num_symbols_exec();
        if state.index >= n {
            return Vec::new();
        }
        let col = match input {
            Some(s) => s.index,
            None => n,
        };
        if col > n || (input.is_some() && col == n) {
            return Vec::new();
        }
        let cell = &self.table[state.index][col];
        let mut v: Vec<Rule<'g>> = Vec::new();
        let mut i: usize = 0;
        while i < cell.len()
            invariant
                i <= cell@.len(),
                v@ == cell@.subrange(0, i as int),
            decreases cell@.len() - i,
        {
            v.push(cell[i]);
            i += 1;
        }
        assert(v@ =~= cell@);
        v
    }
}

/// The columns in which rule `r` goes.
fn rule_columns(an: &GrammarAnalysis, start: usize, r: usize) -> (cols: Vec<bool>)
    requires
        an.wf(),
        start < an.spec_grammar().num_symbols(),
        r < an.spec_grammar().num_rules(),
    ensures
        cols@.len() == an.spec_grammar().num_symbols() + 1,
        forall|d: int| 0 <= d <= an.spec_grammar().num_symbols() ==> cols@[d]
            == ll1_entry(an.spec_grammar(), start as int, r as int, an.spec_grammar().lhs(r as int), d),
{
    let g = an.grammar();
    let n = g.num_symbols_exec();
    let lhs = g.rule_lhs(r);
    let len = g.rule_len(r);
    proof {
        an.lemma_size();
    }
    let mut rhs: Vec<usize> = Vec::new();
    let mut nullable = true;
    let mut i: usize = 0;
    while i < len
        invariant
            an.wf(),
            g == an.spec_grammar(),
            r < g.num_rules(),
            len == g.rhs(r as int).len(),
            i <= len,
            rhs@ == g.rhs(r as int).subrange(0, i as int),
            nullable == all_nullable(g, rhs@, 0, i as int),
        decreases len - i,
    {
        let x = g.rule_rhs_at(r, i);
        let nx = an.nullable_at(x);
        let ghost rhs0 = rhs@;
        rhs.push(x);
        proof {
            if nullable && nx {
                assert forall|k: int| 0 <= k < i + 1 implies crate::analysis::nullable(g, #[trigger] rhs@[k] as int) by {
                    if k < i {
                        assert(rhs@[k] == g.rhs(r as int).subrange(0, i as int)[k]);
                    }
                }
            }
            if !nx {
                assert(rhs@[i as int] == x);
            }
            if !nullable {
                let k = choose|k: int| 0 <= k < i && !crate::analysis::nullable(g, #[trigger] rhs0[k] as int);
                assert(rhs@[k] == rhs0[k]);
            }
        }
        nullable = nullable && nx;
        i += 1;
    }
    assert(rhs@ =~= g.rhs(r as int));
    let mut cols: Vec<bool>;
    if nullable {
        cols = an.follow_row(lhs);
        let at_end = an.can_end_with_at(start, lhs);
        cols.push(at_end);
    } else {
        cols = an.first_bits(&rhs);
        cols.push(false);
    }
    cols
}

/// Why an LL(1) run stopped without accepting.
pub enum LlError<'g> {
    /// No rule predicts `symbol` on this token (`None`: end of input), or input is left over.
    UnexpectedToken { symbol: Option<Symbol<'g>>, token: Option<Symbol<'g>> },
    /// Several rules predict `symbol` on this token.
    Conflict { symbol: Symbol<'g>, token: Option<Symbol<'g>>, rules: Vec<Rule<'g>> },
    /// The step budget of `run` ran out.
    StepLimit,
}

/// The LL(1) driver: a stack of symbols, seeded with the start symbol, over a token sequence.
pub struct Machine<'g> {
    pub table: ParseTable<'g>,
    pub stack: Vec<Symbol<'g>>,
    pub input: Vec<Symbol<'g>>,
    pub pos: usize,
}

impl<'g> Machine<'g> {
    /// Symbols of the stack and the input belong to the table's grammar.
    pub open spec fn wf(&self) -> bool {
        &&& self.table.wf()
        &&& self.pos <= self.input@.len()
        &&& forall|i: int| 0 <= i < self.input@.len() ==> (#[trigger] self.input@[i]).grammar == self.table.spec_grammar()
            && self.input@[i].index < self.table.spec_grammar().num_symbols()
        &&& forall|i: int| 0 <= i < self.stack@.len() ==> (#[trigger] self.stack@[i]).grammar == self.table.spec_grammar()
            && self.stack@[i].index < self.table.spec_grammar().num_symbols()
    }

    /// Starts a run with the stack holding `start_symbol`.
    pub fn new(table: ParseTable<'g>, start_symbol: Symbol<'g>, input: Vec<Symbol<'g>>) -> (m: Machine<'g>)
        requires
            table.wf(),
            start_symbol.grammar == table.spec_grammar(),
            start_symbol.index < table.spec_grammar().num_symbols(),
            forall|i: int| 0 <= i < input@.len() ==> (#[trigger] input@[i]).grammar == table.spec_grammar()
                && input@[i].index < table.spec_grammar().num_symbols(),
        ensures
            m.wf(),
            m.stack@ == seq![start_symbol],
            m.input == input,
            m.pos == 0,
    {
        let mut stack: Vec<Symbol<'g>> = Vec::new();
        stack.push(start_symbol);
        Machine { table, stack, input, pos: 0 }
    }

    /// One step; returns whether the machine has halted. With an empty stack it halts if the
    /// input is used up and fails otherwise. Else the top symbol is popped: if it is the next
    /// token, the token is consumed; else the table decides: no rule fails, one rule pushes its
    /// right side (leftmost symbol on top), several fail with `Conflict`.
    pub fn step(&mut self) -> (r: Result<bool, LlError<'g>>)
        requires
            old(self).wf(),
        ensures
            final(self).wf(),
            ll_step_ok(*old(self), *final(self), r),
    {
        if self.stack.len() == 0 {
            if self.pos == self.input.len() {
                return Ok(true);
            }
            return Err(LlError::UnexpectedToken { symbol: None, token: Some(self.input[self.pos]) });
        }
        let top = self.stack.pop().unwrap();
        let token = if self.pos < self.input.len() {
            Some(self.input[self.pos])
        } else {
            None
        };
        if self.pos < self.input.len() && top.index == self.input[self.pos].index {
            self.pos = self.pos + 1;
            return Ok(false);
        }
        let rules = self.table.get(top, token);
        if rules.len() == 0 {
            return Err(LlError::UnexpectedToken { symbol: Some(top), token });
        }
        if rules.len() > 1 {
            return Err(LlError::Conflict { symbol: top, token, rules });
        }
        let rule = rules[0];
        proof {
            let col = if self.pos < self.input@.len() { self.input@[self.pos as int].index as int } else { self.table.spec_grammar().num_symbols() as int };
            assert(cell_rules(self.table.spec_grammar(), self.table.spec_start().index as int, top.index as int, col,
                self.table.spec_grammar().num_rules() as int, self.table.cell(top.index as int, col)));
            assert(rules@[0] == self.table.cell(top.index as int, col)[0]);
        }
        let g = self.table.grammar();
        let len = g.rule_len(rule.index);
        let ghost base = self.stack@;
        let mut k: usize = len;
        while k > 0
            invariant
                self.wf(),
                self.input == old(self).input,
                self.pos == old(self).pos,
                self.table == old(self).table,
                g == self.table.spec_grammar(),
                rule.index < g.num_rules(),
                len == g.rhs(rule.index as int).len(),
                k <= len,
                self.stack@ == base + reversed_rhs(g, rule.index as int).subrange(0, (len - k) as int),
            decreases k,
        {
            let x = g.rule_rhs_at(rule.index, k - 1);
            self.stack.push(Symbol { grammar: g, index: x });
            proof {
                assert(reversed_rhs(g, rule.index as int)[(len - k) as int] == Symbol { grammar: g, index: x });
                assert(reversed_rhs(g, rule.index as int).subrange(0, (len - k + 1) as int)
                    =~= reversed_rhs(g, rule.index as int).subrange(0, (len - k) as int).push(Symbol { grammar: g, index: x }));
            }
            k -= 1;
        }
        proof {
            assert(reversed_rhs(g, rule.index as int).subrange(0, len as int) =~= reversed_rhs(g, rule.index as int));
        }
        Ok(false)
    }

    /// Steps until the machine halts or a step fails. A run that has not ended after
    /// `usize::MAX` steps stops with `StepLimit`.
    pub fn run(&mut self) -> (r: Result<(), LlError<'g>>)
        requires
            old(self).wf(),
        ensures
            final(self).wf(),
            final(self).input == old(self).input,
            final(self).table == old(self).table,
            r.is_ok() ==> final(self).stack@.len() == 0 && final(self).pos == final(self).input@.len(),
            ll_run_ok(*old(self), *final(self), r),
    {
        let ghost mut trace: Seq<Machine<'g>> = seq![*self];
        let mut budget: usize = usize::MAX;
        while budget > 0
            invariant
                self.wf(),
                self.input == old(self).input,
                self.table == old(self).table,
                ll_trace_ok(trace),
                trace[0] == *old(self),
                trace.last() == *self,
                trace.len() == usize::MAX - budget + 1,
            decreases budget,
        {
            match self.step() {
                Ok(true) => {
                    return Ok(());
                },
                Ok(false) => {},
                Err(e) => {
                    return Err(e);
                },
            }
            proof {
                let t0 = trace;
                trace = trace.push(*self);
                assert forall|i: int| 0 <= i < trace.len() - 1 implies #[trigger] ll_step_ok(trace[i], trace[i + 1], Ok(false)) by {
                    if i < t0.len() - 1 {
                        assert(ll_step_ok(t0[i], t0[i + 1], Ok(false)));
                    }
                }
            }
            budget -= 1;
        }
        Err(LlError::StepLimit)
    }
}

/// One LL(1) step from `m0` to `m1` with result `r`. With an empty stack the machine stays
/// as it is and halts when the input is used up, failing otherwise. Else the top symbol is
/// popped: a matching token is consumed; otherwise the table cell decides (no rule or several
/// rules fail, leaving the input where it was; one rule pushes its right side).
pub open spec fn ll_step_ok<'g>(m0: Machine<'g>, m1: Machine<'g>, r: Result<bool, LlError<'g>>) -> bool {
    &&& m1.input == m0.input
    &&& m1.table == m0.table
    &&& r == Ok::<bool, LlError<'g>>(true) ==> m1.stack@.len() == 0 && m1.pos == m1.input@.len()
    &&& m0.stack@.len() == 0 ==> (if m0.pos == m0.input@.len() {
            r == Ok::<bool, LlError<'g>>(true)
        } else {
            r matches Err(LlError::UnexpectedToken { symbol: None, token: Some(t) }) && t == m0.input@[m0.pos as int]
        })
    &&& m0.stack@.len() > 0 && m0.pos < m0.input@.len()
            && m0.stack@.last().index == m0.input@[m0.pos as int].index ==>
            r == Ok::<bool, LlError<'g>>(false) && m1.pos == m0.pos + 1
            && m1.stack@ == m0.stack@.drop_last()
    &&& m0.stack@.len() > 0 && !(m0.pos < m0.input@.len()
            && m0.stack@.last().index == m0.input@[m0.pos as int].index) ==> {
            let top = m0.stack@.last();
            let col = if m0.pos < m0.input@.len() { m0.input@[m0.pos as int].index as int }
                else { m0.table.spec_grammar().num_symbols() as int };
            let rules = m0.table.cell(top.index as int, col);
            &&& rules.len() == 0 ==> (r matches Err(LlError::UnexpectedToken { symbol: Some(s), token: _ }) && s == top)
            &&& rules.len() > 1 ==> (r matches Err(LlError::Conflict { symbol: s, token: _, rules: v }) && s == top && v@ == rules)
            &&& rules.len() == 1 ==> r == Ok::<bool, LlError<'g>>(false) && m1.pos == m0.pos
                && m1.stack@ == m0.stack@.drop_last() + reversed_rhs(m0.table.spec_grammar(), rules[0].index as int)
        }
    &&& m0.stack@.len() == 0 ==> m1 == m0
    &&& m0.stack@.len() > 0 && r.is_err() ==> m1.pos == m0.pos && m1.stack@ == m0.stack@.drop_last()
}

/// `ms` is a run of steps that each returned `Ok(false)`.
pub open spec fn ll_trace_ok<'g>(ms: Seq<Machine<'g>>) -> bool {
    &&& ms.len() >= 1
    &&& forall|i: int| 0 <= i < ms.len() - 1 ==> #[trigger] ll_step_ok(ms[i], ms[i + 1], Ok(false))
}

/// A run from `m0` to `m1` with result `r`: steps that returned `Ok(false)`, then a last step
/// that returned `Ok(true)` (for `Ok`) or the error; or, for `StepLimit`, `usize::MAX` steps
/// that returned `Ok(false)`.
pub open spec fn ll_run_ok<'g>(m0: Machine<'g>, m1: Machine<'g>, r: Result<(), LlError<'g>>) -> bool {
    exists|ms: Seq<Machine<'g>>| #[trigger] ll_trace_ok(ms) && ms[0] == m0 && match r {
        Ok(()) => ll_step_ok(ms.last(), m1, Ok(true)),
        Err(LlError::StepLimit) => ms.len() == usize::MAX + 1 && ms.last() == m1,
        Err(e) => ll_step_ok(ms.last(), m1, Err(e)),
    }
}

/// The right side of rule `r` as symbols, last first: the order in which it is pushed.
pub open spec fn reversed_rhs<'g>(g: &'g Grammar, r: int) -> Seq<Symbol<'g>> {
    Seq::new(g.rhs(r).len(), |i: int| Symbol { grammar: g, index: g.rhs(r)[g.rhs(r).len() - 1 - i] })
}

} // verus!
