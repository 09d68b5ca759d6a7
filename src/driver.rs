//! The shift/reduce driver that runs an LR action table over a sequence of tokens.

use vstd::prelude::*;
use crate::grammar::{Rule, Symbol};
use crate::table::{lemma_cell_actions, Action, ActionTable, StateIndex};

verus! {

/// Why a run stopped without accepting.
pub enum ParseError<'g> {
    /// No action for this token (or end of input, `None`) in this state.
    UnexpectedToken { state: StateIndex, symbol: Option<Symbol<'g>> },
    /// More than one action for this token in this state.
    Conflict { state: StateIndex, symbol: Option<Symbol<'g>>, actions: Vec<Action<'g>> },
    /// The step budget of `run` ran out.
    StepLimit,
}

/// One stack frame: the state entered and the symbol that led there.
pub type Frame<'g> = (StateIndex, Symbol<'g>);

/// A run of an LR table over a fixed input.
pub struct LrDriver<'g, 't> {
    pub table: &'t ActionTable<'g>,
    pub input: Vec<Symbol<'g>>,
    pub pos: usize,
    pub stack: Vec<Frame<'g>>,
    pub halted: bool,
}

/// The state on top of `stack`, or state 0 when it is empty.
pub open spec fn top_state<'g>(stack: Seq<Frame<'g>>) -> int {
    if stack.len() == 0 {
        0
    } else {
        stack.last().0.0 as int
    }
}

/// The next token: the symbol at `pos`, or `None` at the end.
pub open spec fn token_at<'g>(input: Seq<Symbol<'g>>, pos: int) -> Option<Symbol<'g>> {
    if pos < input.len() {
        Some(input[pos])
    } else {
        None
    }
}

impl<'g, 't> LrDriver<'g, 't> {
    /// The driver refers to a well-formed table and its stack to states of it.
    pub open spec fn wf(&self) -> bool {
        &&& self.table.wf()
        &&& self.pos <= self.input@.len()
        &&& forall|i: int| 0 <= i < self.input@.len() ==> (#[trigger] self.input@[i]).grammar == self.table.spec_grammar()
            && self.input@[i].index < self.table.spec_grammar().num_symbols()
        &&& forall|i: int| 0 <= i < self.stack@.len() ==> (#[trigger] self.stack@[i]).0.0 < self.table.num_states()
            && self.stack@[i].1.grammar == self.table.spec_grammar()
            && self.stack@[i].1.index < self.table.spec_grammar().num_symbols()
    }

    /// The column of the next token.
    pub open spec fn next_col(&self) -> int {
        if self.pos < self.input@.len() {
            self.input@[self.pos as int].index as int
        } else {
            self.table.spec_grammar().num_symbols() as int
        }
    }

    /// The actions in the current cell.
    pub open spec fn current_actions(&self) -> Seq<Action<'g>> {
        self.table.cell(top_state(self.stack@), self.next_col())
    }

    /// Starts a run of `table` over `input`, with an empty stack.
    pub fn new(table: &'t ActionTable<'g>, input: Vec<Symbol<'g>>) -> (d: LrDriver<'g, 't>)
        requires
            table.wf(),
            forall|i: int| 0 <= i < input@.len() ==> (#[trigger] input@[i]).grammar == table.spec_grammar()
                && input@[i].index < table.spec_grammar().num_symbols(),
        ensures
            d.wf(),
            d.table == table,
            d.input == input,
            d.pos == 0,
            d.stack@.len() == 0,
            !d.halted,
    {
        LrDriver { table, input, pos: 0, stack: Vec::new(), halted: false }
    }

    fn state(&self) -> (s: usize)
        requires
            self.wf(),
        ensures
            s == top_state(self.stack@),
            s < self.table.num_states(),
    {
        if self.stack.len() == 0 {
            0
        } else {
            self.stack[self.stack.len() - 1].0.0
        }
    }

    /// One machine step. Returns whether the machine has halted.
    ///
    /// The current cell is the top state's cell for the next token. With no action the run
    /// fails with `UnexpectedToken`, with several with `Conflict`. `Shift(j)` consumes the
    /// token and pushes `j`. `Reduce(r)` pops one frame per symbol of `r`'s right side; for
    /// the start rule the run halts if the input is used up, and fails otherwise; for any other
    /// rule the single `Shift` in the uncovered state's column for `r`'s left side is pushed.
    /// `Halt` halts.
    pub fn step(&mut self) -> (r: Result<bool, ParseError<'g>>)
        requires
            old(self).wf(),
        ensures
            final(self).wf(),
            step_ok(*old(self), *final(self), r),
    {
        if self.halted {
            return Ok(true);
        }
        let g = self.table.grammar();
        let state = self.state();
        let n = g.num_symbols_exec();
        let symbol = if self.pos < self.input.len() {
            Some(self.input[self.pos])
        } else {
            None
        };
        let col = if self.pos < self.input.len() {
            self.input[self.pos].index
        } else {
            n
        };
        let actions = self.table.cell_at(state, col);
        if actions.len() == 0 {
            return Err(ParseError::UnexpectedToken { state: StateIndex(state), symbol });
        }
        if actions.len() > 1 {
            return Err(ParseError::Conflict { state: StateIndex(state), symbol, actions });
        }
        proof {
            lemma_cell_actions(self.table, state as int, col as int);
            assert(actions@ == self.current_actions());
        }
        match actions[0] {
            Action::Shift(j) => {
                let s = self.input[self.pos];
                self.stack.push((j, s));
                self.pos = self.pos + 1;
                Ok(false)
            },
            Action::Halt => {
                self.halted = true;
                Ok(true)
            },
            Action::Reduce(rule) => {
                let m = g.rule_len(rule.index);
                if self.stack.len() < m {
                    return Err(ParseError::UnexpectedToken { state: StateIndex(state), symbol });
                }
                let mut popped: usize = 0;
                while popped < m
                    invariant
                        self.wf(),
                        self.stack@.len() + popped == old(self).stack@.len(),
                        self.stack@ == old(self).stack@.subrange(0, self.stack@.len() as int),
                        self.table == old(self).table,
                        self.input == old(self).input,
                        self.pos == old(self).pos,
                        !self.halted,
                        popped <= m,
                        m <= old(self).stack@.len(),
                    decreases m - popped,
                {
                    self.stack.pop();
                    popped += 1;
                }
                let below = self.state();
                if rule.index == self.table.start_index() {
                    if self.pos == self.input.len() {
                        self.halted = true;
                        return Ok(true);
                    }
                    return Err(ParseError::UnexpectedToken { state: StateIndex(below), symbol });
                }
                let lhs = g.rule_lhs(rule.index);
                let next = self.table.cell_at(below, lhs);
                let lhs_symbol = Symbol { grammar: g, index: lhs };
                if next.len() != 1 {
                    return Err(ParseError::UnexpectedToken { state: StateIndex(below), symbol: Some(lhs_symbol) });
                }
                proof {
                    lemma_cell_actions(self.table, below as int, lhs as int);
                }
                match next[0] {
                    Action::Shift(j) => {
                        self.stack.push((j, lhs_symbol));
                        Ok(false)
                    },
                    _ => Err(ParseError::UnexpectedToken { state: StateIndex(below), symbol: Some(lhs_symbol) }),
                }
            },
        }
    }
}

impl<'g, 't> LrDriver<'g, 't> {
    /// Steps until the machine halts or a step fails. A run that has not ended after
    /// `usize::MAX` steps stops with `StepLimit`.
    pub fn run(&mut self) -> (r: Result<(), ParseError<'g>>)
        requires
            old(self).wf(),
        ensures
            final(self).wf(),
            final(self).table == old(self).table,
            final(self).input == old(self).input,
            r.is_ok() <==> final(self).halted,
            run_ok(*old(self), *final(self), r),
    {
        let ghost mut trace: Seq<LrDriver<'g, 't>> = seq![*self];
        if self.halted {
            proof {
                assert(step_ok(*self, *self, Ok(true)));
                assert(trace_ok(trace));
            }
            return Ok(());
        }
        let mut budget: usize = usize::MAX;
        while budget > 0
            invariant
                self.wf(),
                self.table == old(self).table,
                self.input == old(self).input,
                !self.halted,
                trace_ok(trace),
                trace[0] == *old(self),
                trace.last() == *self,
                trace.len() == usize::MAX - budget + 1,
            decreases budget,
        {
            let ghost before = *self;
            let res = self.step();
            match res {
                Ok(true) => {
                    return Ok(());
                },
                Ok(false) => {},
                Err(e) => {
                    return Err(e);
                },
            }
            proof {
                let t0 = trace;
                trace = trace.push(*self);
                assert forall|i: int| 0 <= i < trace.len() - 1 implies #[trigger] step_ok(trace[i], trace[i + 1], Ok(false)) by {
                    if i < t0.len() - 1 {
                        assert(step_ok(t0[i], t0[i + 1], Ok(false)));
                    }
                }
            }
            budget -= 1;
        }
        Err(ParseError::StepLimit)
    }
}

/// `ds` is a run of steps that each returned `Ok(false)`.
pub open spec fn trace_ok<'g, 't>(ds: Seq<LrDriver<'g, 't>>) -> bool {
    &&& ds.len() >= 1
    &&& forall|i: int| 0 <= i < ds.len() - 1 ==> #[trigger] step_ok(ds[i], ds[i + 1], Ok(false))
}

/// A run from `d0` to `d1` with result `r`: steps that returned `Ok(false)`, then a last step
/// that returned `Ok(true)` (for `Ok`) or the error; or, for `StepLimit`, `usize::MAX` steps
/// that returned `Ok(false)`.
pub open spec fn run_ok<'g, 't>(d0: LrDriver<'g, 't>, d1: LrDriver<'g, 't>, r: Result<(), ParseError<'g>>) -> bool {
    exists|ds: Seq<LrDriver<'g, 't>>| #[trigger] trace_ok(ds) && ds[0] == d0 && match r {
        Ok(()) => step_ok(ds.last(), d1, Ok(true)),
        Err(ParseError::StepLimit) => ds.len() == usize::MAX + 1 && ds.last() == d1,
        Err(e) => step_ok(ds.last(), d1, Err(e)),
    }
}

/// One step from `d0` to `d1` with result `r`. The table and the input stay. A halted machine
/// stays as it is. Otherwise the current cell decides: no action fails with
/// `UnexpectedToken`, several with `Conflict`; `Halt` halts; `Shift(j)` consumes the token and
/// pushes `j`; a reduction goes as `reduce_ok` says.
pub open spec fn step_ok<'g, 't>(d0: LrDriver<'g, 't>, d1: LrDriver<'g, 't>, r: Result<bool, ParseError<'g>>) -> bool {
    &&& d1.table == d0.table
    &&& d1.input == d0.input
    &&& r == Ok::<bool, ParseError<'g>>(true) ==> d1.halted
    &&& r == Ok::<bool, ParseError<'g>>(false) ==> !d1.halted
    &&& r.is_err() ==> d1.halted == d0.halted
    &&& d0.halted ==> r == Ok::<bool, ParseError<'g>>(true) && d1 == d0
    &&& !d0.halted && d0.current_actions().len() == 0 ==> (r matches Err(ParseError::UnexpectedToken { state, symbol })
            && state.0 == top_state(d0.stack@) && symbol == token_at(d0.input@, d0.pos as int))
    &&& !d0.halted && d0.current_actions().len() > 1 ==> (r matches Err(ParseError::Conflict { state, symbol, actions })
            && state.0 == top_state(d0.stack@) && symbol == token_at(d0.input@, d0.pos as int)
            && actions@ == d0.current_actions())
    &&& !d0.halted && d0.current_actions() =~= seq![Action::<'g>::Halt] ==> r == Ok::<bool, ParseError<'g>>(true)
            && d1.halted && d1.stack@ == d0.stack@ && d1.pos == d0.pos
    &&& !d0.halted && d0.current_actions().len() == 1 ==> (d0.current_actions()[0] matches Action::Shift(j)
            ==> r == Ok::<bool, ParseError<'g>>(false) && d0.pos < d0.input@.len()
            && d1.pos == d0.pos + 1 && !d1.halted
            && d1.stack@ == d0.stack@.push((j, d0.input@[d0.pos as int])))
    &&& !d0.halted && d0.current_actions().len() == 1 ==> (d0.current_actions()[0] matches Action::Reduce(rule)
            ==> reduce_ok(d0, d1, rule, r))
}

/// What a reduction by `rule` does: pop one frame per right-hand symbol (failing if there are
/// too few); for the start rule, halt if the input is used up and fail otherwise; else push
/// the single `Shift` of the uncovered state's column for the left side, or fail.
pub open spec fn reduce_ok<'g, 't>(d0: LrDriver<'g, 't>, d1: LrDriver<'g, 't>, rule: Rule<'g>, r: Result<bool, ParseError<'g>>) -> bool {
    let g = d0.table.spec_grammar();
    let m = g.rhs(rule.index as int).len();
    let rest = d0.stack@.subrange(0, d0.stack@.len() - m);
    let below = top_state(rest);
    let lhs = g.lhs(rule.index as int);
    let lhs_symbol = Symbol { grammar: g, index: lhs as usize };
    let goto = d0.table.cell(below, lhs);
    if d0.stack@.len() < m {
        r matches Err(ParseError::UnexpectedToken { state, symbol }) && state.0 == top_state(d0.stack@)
            && symbol == token_at(d0.input@, d0.pos as int)
    } else if rule.index == d0.table.spec_start() {
        if d0.pos == d0.input@.len() {
            r == Ok::<bool, ParseError<'g>>(true) && d1.halted && d1.stack@ == rest && d1.pos == d0.pos
        } else {
            r matches Err(ParseError::UnexpectedToken { state, symbol }) && state.0 == below
                && symbol == token_at(d0.input@, d0.pos as int)
        }
    } else if goto.len() == 1 && goto[0] is Shift {
        r == Ok::<bool, ParseError<'g>>(false) && !d1.halted && d1.pos == d0.pos
            && d1.stack@ == rest.push((goto[0]->Shift_0, lhs_symbol))
    } else {
        r matches Err(ParseError::UnexpectedToken { state, symbol }) && state.0 == below && symbol == Some(lhs_symbol)
    }
}

} // verus!
