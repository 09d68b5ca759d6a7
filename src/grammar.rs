//! Grammars: an ordered catalogue of named symbols and of rules over them,
//! with handles (`Symbol`, `Rule`) that refer back into the grammar by index.

use vstd::prelude::*;

verus! {

/// One production `lhs -> rhs`, stored by symbol index.
pub struct RuleData {
    lhs: usize,
    rhs: Vec<usize>,
}

/// An immutable grammar: symbols and rules in declaration order.
pub struct Grammar {
    symbols: Vec<String>,
    rules: Vec<RuleData>,
    nonterminal: Vec<bool>,
}

/// Why a grammar could not be built.
#[derive(Clone, Debug, PartialEq, Eq)]
pub enum GrammarError {
    /// A symbol name was declared twice.
    DuplicateSymbol(String),
    /// A rule named a symbol that was never declared.
    UnknownSymbol(String),
    /// There is no rule, or the first rule does not have exactly one symbol on its right.
    MalformedStartRule,
    /// Grammar text that is not a sequence of statements `LHS -> S1 S2 ... ;`.
    Syntax,
}

/// Collects symbols and rules; `build` checks them and freezes the grammar.
pub struct GrammarBuilder {
    symbols: Vec<String>,
    rules: Vec<RuleData>,
    error: Option<GrammarError>,
}

/// A handle on the symbol at `index` in `grammar`.
#[derive(Clone, Copy)]
pub struct Symbol<'g> {
    pub grammar: &'g Grammar,
    pub index: usize,
}

/// A handle on the rule at `index` in `grammar`.
#[derive(Clone, Copy)]
pub struct Rule<'g> {
    pub grammar: &'g Grammar,
    pub index: usize,
}

spec fn names_of(symbols: Seq<String>) -> Seq<Seq<char>> {
    symbols.map_values(|s: String| s@)
}

spec fn lhs_of(rules: Seq<RuleData>) -> Seq<usize> {
    rules.map_values(|d: RuleData| d.lhs)
}

/// Whether `names` holds `name`.
pub open spec fn has_name(names: Seq<Seq<char>>, name: Seq<char>) -> bool {
    exists|i: int| 0 <= i < names.len() && names[i] == name
}

/// No name occurs twice in `names`.
pub open spec fn names_unique(names: Seq<Seq<char>>) -> bool {
    forall|i: int, j: int| 0 <= i < names.len() && 0 <= j < names.len() && i != j ==> names[i] != names[j]
}

impl Grammar {
    /// The number of symbols.
    pub closed spec fn num_symbols(&self) -> nat {
        self.symbols@.len()
    }

    /// The number of rules.
    pub closed spec fn num_rules(&self) -> nat {
        self.rules@.len()
    }

    /// The left-hand side of rule `r`.
    pub closed spec fn lhs(&self, r: int) -> int {
        self.rules@[r].lhs as int
    }

    /// The right-hand side of rule `r`.
    pub closed spec fn rhs(&self, r: int) -> Seq<usize> {
        self.rules@[r].rhs@
    }

    /// The names of all symbols, in order.
    pub closed spec fn names(&self) -> Seq<Seq<char>> {
        names_of(self.symbols@)
    }

    /// A symbol is a nonterminal when it is the left-hand side of some rule.
    pub open spec fn is_nonterminal(&self, s: int) -> bool {
        exists|r: int| 0 <= r < self.num_rules() && #[trigger] self.lhs(r) == s
    }

    /// The start rule's left-hand side: the augmented start symbol.
    pub open spec fn start_symbol(&self) -> int {
        self.lhs(0)
    }

    pub closed spec fn cache_ok(&self) -> bool {
        &&& self.nonterminal@.len() == self.symbols@.len()
        &&& forall|s: int| 0 <= s < self.symbols@.len() ==> self.nonterminal@[s] == self.is_nonterminal(s)
    }

    /// Well-formedness: indices in range, a start rule of length one, unique names.
    pub open spec fn wf(&self) -> bool {
        &&& self.num_rules() >= 1
        &&& self.rhs(0).len() == 1
        &&& forall|r: int| 0 <= r < self.num_rules() ==> 0 <= #[trigger] self.lhs(r) < self.num_symbols()
        &&& forall|r: int, i: int|
            0 <= r < self.num_rules() && 0 <= i < self.rhs(r).len() ==> #[trigger] self.rhs(r)[i] < self.num_symbols()
        &&& self.names().len() == self.num_symbols()
        &&& names_unique(self.names())
        &&& self.cache_ok()
    }

    /// Starts a new grammar.
    pub fn new() -> (r: GrammarBuilder)
        ensures
            r.names() == Seq::<Seq<char>>::empty(),
            r.rule_lhs() == Seq::<usize>::empty(),
            r.error().is_none(),
    {
        let r = GrammarBuilder { symbols: Vec::new(), rules: Vec::new(), error: None };
        proof {
            assert(names_of(r.symbols@) =~= Seq::<Seq<char>>::empty());
            assert(lhs_of(r.rules@) =~= Seq::<usize>::empty());
        }
        r
    }

    pub fn num_symbols_exec(&self) -> (r: usize)
        ensures
            r == self.num_symbols(),
    {
        self.symbols.len()
    }

    pub fn num_rules_exec(&self) -> (r: usize)
        ensures
            r == self.num_rules(),
    {
        self.rules.len()
    }

    pub fn rule_lhs(&self, r: usize) -> (s: usize)
        requires
            r < self.num_rules(),
        ensures
            s == self.lhs(r as int),
    {
        self.rules[r].lhs
    }

    pub fn rule_len(&self, r: usize) -> (n: usize)
        requires
            r < self.num_rules(),
        ensures
            n == self.rhs(r as int).len(),
    {
        self.rules[r].rhs.len()
    }

    pub fn rule_rhs_at(&self, r: usize, i: usize) -> (s: usize)
        requires
            r < self.num_rules(),
            i < self.rhs(r as int).len(),
        ensures
            s == self.rhs(r as int)[i as int],
    {
        self.rules[r].rhs[i]
    }

    /// Whether symbol `s` is the left-hand side of some rule, from the table built with the grammar.
    pub fn nonterminal_at(&self, s: usize) -> (b: bool)
        requires
            self.wf(),
            s < self.num_symbols(),
        ensures
            b == self.is_nonterminal(s as int),
    {
        self.nonterminal[s]
    }

    /// All symbols, in declaration order.
    pub fn symbols(&self) -> (v: Vec<Symbol<'_>>)
        ensures
            v@.len() == self.num_symbols(),
            forall|i: int| 0 <= i < v@.len() ==> v@[i].grammar == self && v@[i].index == i,
    {
        let mut v: Vec<Symbol<'_>> = Vec::new();
        let n = self.symbols.len();
        let mut i: usize = 0;
        while i < n
            invariant
                n == self.num_symbols(),
                i <= n,
                v@.len() == i,
                forall|k: int| 0 <= k < i ==> v@[k].grammar == self && v@[k].index == k,
            decreases n - i,
        {
            v.push(Symbol { grammar: self, index: i });
            i += 1;
        }
        v
    }

    /// The terminals (symbols that head no rule), in declaration order.
    pub fn terminals(&self) -> (v: Vec<Symbol<'_>>)
        requires
            self.wf(),
        ensures
            forall|i: int| 0 <= i < v@.len() ==> v@[i].grammar == self && v@[i].index < self.num_symbols()
                && !self.is_nonterminal(v@[i].index as int),
            forall|i: int, j: int| 0 <= i < j < v@.len() ==> v@[i].index < v@[j].index,
            forall|s: int| 0 <= s < self.num_symbols() && !self.is_nonterminal(s) ==>
                exists|i: int| 0 <= i < v@.len() && v@[i].index == s,
    {
        self.symbols_of_kind(false)
    }

    /// The nonterminals (symbols that head some rule), in declaration order.
    pub fn nonterminals(&self) -> (v: Vec<Symbol<'_>>)
        requires
            self.wf(),
        ensures
            forall|i: int| 0 <= i < v@.len() ==> v@[i].grammar == self && v@[i].index < self.num_symbols()
                && self.is_nonterminal(v@[i].index as int),
            forall|i: int, j: int| 0 <= i < j < v@.len() ==> v@[i].index < v@[j].index,
            forall|s: int| 0 <= s < self.num_symbols() && self.is_nonterminal(s) ==>
                exists|i: int| 0 <= i < v@.len() && v@[i].index == s,
    {
        self.symbols_of_kind(true)
    }

    fn symbols_of_kind(&self, nonterminal: bool) -> (v: Vec<Symbol<'_>>)
        requires
            self.wf(),
        ensures
            forall|i: int| 0 <= i < v@.len() ==> v@[i].grammar == self && v@[i].index < self.num_symbols()
                && self.is_nonterminal(v@[i].index as int) == nonterminal,
            forall|i: int, j: int| 0 <= i < j < v@.len() ==> v@[i].index < v@[j].index,
            forall|s: int| 0 <= s < self.num_symbols() && self.is_nonterminal(s) == nonterminal ==>
                exists|i: int| 0 <= i < v@.len() && v@[i].index == s,
    {
        let mut v: Vec<Symbol<'_>> = Vec::new();
        let n = self.symbols.len();
        let mut i: usize = 0;
        while i < n
            invariant
                self.wf(),
                n == self.num_symbols(),
                i <= n,
                forall|k: int| 0 <= k < v@.len() ==> v@[k].grammar == self && v@[k].index < i
                    && self.is_nonterminal(v@[k].index as int) == nonterminal,
                forall|a: int, b: int| 0 <= a < b < v@.len() ==> v@[a].index < v@[b].index,
                forall|s: int| 0 <= s < i && self.is_nonterminal(s) == nonterminal ==>
                    exists|k: int| 0 <= k < v@.len() && v@[k].index == s,
            decreases n - i,
        {
            let ghost old_v = v@;
            if self.nonterminal[i] == nonterminal {
                v.push(Symbol { grammar: self, index: i });
            }
            proof {
                assert forall|t: int| 0 <= t < i + 1 && self.is_nonterminal(t) == nonterminal implies
                    exists|k: int| 0 <= k < v@.len() && v@[k].index == t by {
                    if t < i {
                        let k = choose|k: int| 0 <= k < old_v.len() && old_v[k].index == t;
                        assert(v@[k] == old_v[k]);
                    } else {
                        assert(v@[v@.len() - 1].index == i);
                    }
                }
            }
            i += 1;
        }
        v
    }

    /// All rules, in declaration order.
    pub fn rules(&self) -> (v: Vec<Rule<'_>>)
        ensures
            v@.len() == self.num_rules(),
            forall|i: int| 0 <= i < v@.len() ==> v@[i].grammar == self && v@[i].index == i,
    {
        let mut v: Vec<Rule<'_>> = Vec::new();
        let n = self.rules.len();
        let mut i: usize = 0;
        while i < n
            invariant
                n == self.num_rules(),
                i <= n,
                v@.len() == i,
                forall|k: int| 0 <= k < i ==> v@[k].grammar == self && v@[k].index == k,
            decreases n - i,
        {
            v.push(Rule { grammar: self, index: i });
            i += 1;
        }
        v
    }

    /// The start rule (rule 0).
    pub fn start_rule(&self) -> (r: Rule<'_>)
        ensures
            r.grammar == self,
            r.index == 0,
    {
        Rule { grammar: self, index: 0 }
    }

    /// The symbol with the given name, if the grammar declares one.
    pub fn symbol(&self, name: &str) -> (r: Option<Symbol<'_>>)
        requires
            self.wf(),
        ensures
            r.is_none() == !has_name(self.names(), name@),
            r.is_some() ==> r.unwrap().grammar == self && r.unwrap().index < self.num_symbols()
                && self.names()[r.unwrap().index as int] == name@,
    {
        match index_of(&self.symbols, name) {
            Some(i) => Some(Symbol { grammar: self, index: i }),
            None => None,
        }
    }
}

/// The position of `name` in `symbols`, if it occurs.
fn index_of(symbols: &Vec<String>, name: &str) -> (r: Option<usize>)
    ensures
        r.is_none() == !has_name(names_of(symbols@), name@),
        r.is_some() ==> r.unwrap() < symbols@.len() && symbols@[r.unwrap() as int]@ == name@,
{
    let target = name.to_owned();
    let mut i: usize = 0;
    while i < symbols.len()
        invariant
            i <= symbols@.len(),
            target@ == name@,
            forall|k: int| 0 <= k < i ==> symbols@[k]@ != name@,
        decreases symbols@.len() - i,
    {
        if symbols[i] == target {
            proof {
                assert(names_of(symbols@)[i as int] == name@);
            }
            return Some(i);
        }
        i += 1;
    }
    proof {
        let names = names_of(symbols@);
        if has_name(names, name@) {
            let k = choose|k: int| 0 <= k < names.len() && names[k] == name@;
            assert(symbols@[k]@ == name@);
        }
    }
    None
}


/// Every name in `names` and in `body` is known.
pub open spec fn all_known(names: Seq<Seq<char>>, lhs: Seq<char>, rhs: Seq<&str>) -> bool {
    &&& has_name(names, lhs)
    &&& forall|i: int| 0 <= i < rhs.len() ==> has_name(names, #[trigger] rhs[i]@)
}

/// The position of `name` in `names` (meaningful when it occurs).
pub open spec fn position_of(names: Seq<Seq<char>>, name: Seq<char>) -> int {
    choose|i: int| 0 <= i < names.len() && names[i] == name
}

impl GrammarBuilder {
    /// The names declared so far.
    pub closed spec fn names(&self) -> Seq<Seq<char>> {
        names_of(self.symbols@)
    }

    /// The left-hand sides of the rules added so far.
    pub closed spec fn rule_lhs(&self) -> Seq<usize> {
        lhs_of(self.rules@)
    }

    /// The right-hand side of added rule `k`.
    pub closed spec fn rule_rhs(&self, k: int) -> Seq<usize> {
        self.rules@[k].rhs@
    }

    /// The first error met, if any.
    pub closed spec fn error(&self) -> Option<GrammarError> {
        self.error
    }

    /// Names are unique and rules refer to declared symbols.
    pub open spec fn inv(&self) -> bool {
        &&& names_unique(self.names())
        &&& forall|k: int| 0 <= k < self.rule_lhs().len() ==> #[trigger] self.rule_lhs()[k] < self.names().len()
        &&& forall|k: int, i: int| 0 <= k < self.rule_lhs().len() && 0 <= i < self.rule_rhs(k).len()
            ==> #[trigger] self.rule_rhs(k)[i] < self.names().len()
    }

    /// Declares a symbol. A name that is already declared records `DuplicateSymbol`.
    pub fn symbol(self, name: &str) -> (r: GrammarBuilder)
        requires
            self.inv(),
        ensures
            r.inv(),
            r.rule_lhs() == self.rule_lhs(),
            forall|k: int| 0 <= k < r.rule_lhs().len() ==> r.rule_rhs(k) == self.rule_rhs(k),
            self.error().is_some() ==> r.names() == self.names() && r.error() == self.error(),
            self.error().is_none() && has_name(self.names(), name@) ==> r.names() == self.names()
                && (r.error() matches Some(GrammarError::DuplicateSymbol(s)) && s@ == name@),
            self.error().is_none() && !has_name(self.names(), name@) ==> r.names() == self.names().push(name@)
                && r.error().is_none(),
    {
        let ghost s0 = self;
        let mut b = self;
        if b.error.is_none() {
            match index_of(&b.symbols, name) {
                Some(_) => {
                    b.error = Some(GrammarError::DuplicateSymbol(name.to_owned()));
                },
                None => {
                    let ghost old_names = names_of(b.symbols@);
                    b.symbols.push(name.to_owned());
                    proof {
                        let names = names_of(b.symbols@);
                        assert(names =~= old_names.push(name@));
                        assert forall|i: int, j: int| 0 <= i < names.len() && 0 <= j < names.len() && i != j
                            implies names[i] != names[j] by {
                            if i < old_names.len() && j < old_names.len() {
                                assert(names[i] == old_names[i] && names[j] == old_names[j]);
                            } else if i < old_names.len() {
                                assert(old_names[i] != name@);
                            } else {
                                assert(old_names[j] != name@);
                            }
                        }
                    }
                },
            }
        }
        proof {
            assert(b.rule_lhs() == s0.rule_lhs());
            assert(b.names().len() >= s0.names().len());
            assert forall|k: int| 0 <= k < b.rule_lhs().len() implies b.rule_rhs(k) == s0.rule_rhs(k) by {}
            assert forall|k: int| 0 <= k < b.rule_lhs().len() implies #[trigger] b.rule_lhs()[k] < b.names().len() by {
                assert(s0.rule_lhs()[k] < s0.names().len());
            }
            assert forall|k: int, i: int| 0 <= k < b.rule_lhs().len() && 0 <= i < b.rule_rhs(k).len()
                implies #[trigger] b.rule_rhs(k)[i] < b.names().len() by {
                assert(s0.rule_rhs(k)[i] < s0.names().len());
            }
        }
        b
    }

    /// Declares `name` unless it is already declared.
    pub fn declare(self, name: &str) -> (r: GrammarBuilder)
        requires
            self.inv(),
        ensures
            r.inv(),
            r.rule_lhs() == self.rule_lhs(),
            forall|k: int| 0 <= k < r.rule_lhs().len() ==> r.rule_rhs(k) == self.rule_rhs(k),
            r.error() == self.error(),
            has_name(r.names(), name@) || self.error().is_some(),
            forall|m: Seq<char>| has_name(self.names(), m) ==> has_name(r.names(), m),
            r.names() == self.names() || r.names() == self.names().push(name@),
    {
        match index_of(&self.symbols, name) {
            Some(_) => self,
            None => {
                let ghost s0 = self;
                let r = self.symbol(name);
                proof {
                    if s0.error().is_none() {
                        assert(r.names()[r.names().len() - 1] == name@);
                        assert forall|m: Seq<char>| has_name(s0.names(), m) implies has_name(r.names(), m) by {
                            let i = choose|i: int| 0 <= i < s0.names().len() && s0.names()[i] == m;
                            assert(r.names()[i] == m);
                        }
                    }
                }
                r
            },
        }
    }

    /// Adds the rule `lhs -> rhs`. A name that is not declared records `UnknownSymbol`.
    pub fn rule(self, lhs: &str, rhs: &[&str]) -> (r: GrammarBuilder)
        requires
            self.inv(),
        ensures
            r.inv(),
            r.names() == self.names(),
            self.error().is_some() ==> r.rule_lhs() == self.rule_lhs() && r.error() == self.error(),
            self.error().is_none() && all_known(self.names(), lhs@, rhs@) ==> {
                &&& r.error().is_none()
                &&& r.rule_lhs() == self.rule_lhs().push(position_of(self.names(), lhs@) as usize)
                &&& r.rule_rhs(self.rule_lhs().len() as int).len() == rhs@.len()
                &&& forall|i: int| 0 <= i < rhs@.len() ==> r.rule_rhs(self.rule_lhs().len() as int)[i]
                    == position_of(self.names(), rhs@[i]@)
            },
            self.error().is_none() && !all_known(self.names(), lhs@, rhs@) ==> r.rule_lhs() == self.rule_lhs()
                && (r.error() matches Some(GrammarError::UnknownSymbol(s)) && !has_name(self.names(), s@)),
            forall|k: int| 0 <= k < self.rule_lhs().len() ==> r.rule_rhs(k) == self.rule_rhs(k),
    {
        let ghost s0 = self;
        let mut b = self;
        proof {
            lemma_builder_same(s0, b);
        }
        if b.error.is_some() {
            return b;
        }
        let ghost names = names_of(b.symbols@);
        let l = match index_of(&b.symbols, lhs) {
            Some(l) => l,
            None => {
                b.error = Some(GrammarError::UnknownSymbol(lhs.to_owned()));
                proof {
                    lemma_builder_same(s0, b);
                }
                return b;
            },
        };
        proof {
            assert(names[l as int] == lhs@);
            unique_position(names, l as int);
        }
        let mut body: Vec<usize> = Vec::new();
        let mut i: usize = 0;
        while i < rhs.len()
            invariant
                names == names_of(b.symbols@),
                names_unique(names),
                b.error.is_none(),
                b.symbols == s0.symbols,
                b.rules == s0.rules,
                s0.inv(),
                s0 == self,
                s0.error().is_none(),
                names == s0.names(),
                i <= rhs@.len(),
                body@.len() == i,
                forall|k: int| 0 <= k < i ==> has_name(names, #[trigger] rhs@[k]@),
                forall|k: int| 0 <= k < i ==> body@[k] == position_of(names, rhs@[k]@) && body@[k] < names.len(),
            decreases rhs@.len() - i,
        {
            match index_of(&b.symbols, rhs[i]) {
                Some(s) => {
                    proof {
                        assert(names[s as int] == rhs@[i as int]@);
                        unique_position(names, s as int);
                    }
                    body.push(s);
                },
                None => {
                    b.error = Some(GrammarError::UnknownSymbol(rhs[i].to_owned()));
                    proof {
                        lemma_builder_same(s0, b);
                        assert(!has_name(s0.names(), rhs@[i as int]@));
                    }
                    return b;
                },
            }
            i += 1;
        }
        let ghost old_rules = b.rules@;
        b.rules.push(RuleData { lhs: l, rhs: body });
        proof {
            assert(lhs_of(b.rules@) =~= lhs_of(old_rules).push(l));
            assert forall|k: int| 0 <= k < old_rules.len() implies b.rules@[k] == old_rules[k] by {}
            assert(b.names() == s0.names());
            assert forall|k: int| 0 <= k < b.rule_lhs().len() implies #[trigger] b.rule_lhs()[k] < b.names().len() by {
                if k < old_rules.len() {
                    assert(s0.rule_lhs()[k] < s0.names().len());
                }
            }
            assert forall|k: int, i: int| 0 <= k < b.rule_lhs().len() && 0 <= i < b.rule_rhs(k).len()
                implies #[trigger] b.rule_rhs(k)[i] < b.names().len() by {
                if k < old_rules.len() {
                    assert(s0.rule_rhs(k)[i] < s0.names().len());
                }
            }
        }
        b
    }

    /// Checks the collected declarations and freezes them into a grammar.
    pub fn build(self) -> (r: Result<Grammar, GrammarError>)
        requires
            self.inv(),
        ensures
            self.error().is_some() ==> r == Err::<Grammar, GrammarError>(self.error().unwrap()),
            self.error().is_none() && (self.rule_lhs().len() == 0 || self.rule_rhs(0).len() != 1)
                ==> r == Err::<Grammar, GrammarError>(GrammarError::MalformedStartRule),
            self.error().is_none() && self.rule_lhs().len() > 0 && self.rule_rhs(0).len() == 1 ==> {
                &&& r.is_ok()
                &&& r.unwrap().wf()
                &&& r.unwrap().names() == self.names()
                &&& r.unwrap().num_rules() == self.rule_lhs().len()
                &&& forall|k: int| 0 <= k < self.rule_lhs().len() ==> r.unwrap().lhs(k) == self.rule_lhs()[k]
                    && r.unwrap().rhs(k) == self.rule_rhs(k)
            },
    {
        let b = self;
        if let Some(e) = b.error {
            return Err(e);
        }
        if b.rules.len() == 0 || b.rules[0].rhs.len() != 1 {
            return Err(GrammarError::MalformedStartRule);
        }
        let n = b.symbols.len();
        let mut nonterminal: Vec<bool> = Vec::new();
        let mut s: usize = 0;
        while s < n
            invariant
                n == b.symbols@.len(),
                s <= n,
                nonterminal@.len() == s,
                forall|t: int| 0 <= t < s ==> nonterminal@[t] == exists|r: int|
                    0 <= r < b.rules@.len() && #[trigger] b.rules@[r].lhs == t,
            decreases n - s,
        {
            let mut found = false;
            let mut k: usize = 0;
            while k < b.rules.len()
                invariant
                    s < n,
                    k <= b.rules@.len(),
                    found == exists|r: int| 0 <= r < k && #[trigger] b.rules@[r].lhs == s,
                decreases b.rules@.len() - k,
            {
                if b.rules[k].lhs == s {
                    found = true;
                }
                k += 1;
            }
            nonterminal.push(found);
            s += 1;
        }
        let g = Grammar { symbols: b.symbols, rules: b.rules, nonterminal };
        proof {
            assert forall|t: int| 0 <= t < g.symbols@.len() implies g.nonterminal@[t] == g.is_nonterminal(t) by {
                if g.nonterminal@[t] {
                    let r = choose|r: int| 0 <= r < g.rules@.len() && #[trigger] g.rules@[r].lhs == t;
                    assert(g.lhs(r) == t);
                }
                if g.is_nonterminal(t) {
                    let r = choose|r: int| 0 <= r < g.num_rules() && #[trigger] g.lhs(r) == t;
                    assert(g.rules@[r].lhs == t);
                }
            }
            assert forall|r: int| 0 <= r < g.num_rules() implies 0 <= #[trigger] g.lhs(r) < g.num_symbols() by {
                assert(b.rule_lhs()[r] == g.rules@[r].lhs);
            }
            assert forall|r: int, i: int| 0 <= r < g.num_rules() && 0 <= i < g.rhs(r).len()
                implies #[trigger] g.rhs(r)[i] < g.num_symbols() by {
                assert(b.rule_rhs(r)[i] < b.names().len());
            }
            assert forall|k: int| 0 <= k < b.rule_lhs().len() implies g.lhs(k) == b.rule_lhs()[k] by {}
        }
        Ok(g)
    }
}


/// A character that separates words in grammar text.
pub open spec fn is_space(c: char) -> bool {
    c == ' ' || c == '\n' || c == '\t' || c == '\r'
}

/// A character that can be part of a symbol name in grammar text.
pub open spec fn is_name_char(c: char) -> bool {
    !is_space(c) && c != ';' && c != '-' && c != '>'
}

/// The first position at or after `i` that does not hold white space.
pub open spec fn skip_ws(t: Seq<char>, i: int) -> int
    decreases t.len() - i,
{
    if 0 <= i < t.len() && is_space(t[i]) {
        skip_ws(t, i + 1)
    } else {
        i
    }
}

/// The end of the name that starts at `i`.
pub open spec fn name_end(t: Seq<char>, i: int) -> int
    decreases t.len() - i,
{
    if 0 <= i < t.len() && is_name_char(t[i]) {
        name_end(t, i + 1)
    } else {
        i
    }
}

/// The names of a right-hand side that starts at `i`, and the position after its `;`.
pub open spec fn rhs_names(t: Seq<char>, i: int) -> Option<(Seq<Seq<char>>, int)>
    decreases t.len() - i,
{
    let j = skip_ws(t, i);
    if j < i || j >= t.len() {
        None
    } else if t[j] == ';' {
        Some((Seq::empty(), j + 1))
    } else {
        let e = name_end(t, j);
        if e <= j || e > t.len() {
            None
        } else {
            match rhs_names(t, e) {
                None => None,
                Some((rest, after)) => Some((seq![t.subrange(j, e)] + rest, after)),
            }
        }
    }
}

/// One statement: a left-hand name and the names of its right side.
pub type Statement = (Seq<char>, Seq<Seq<char>>);

/// The statements `LHS -> S1 S2 ... ;` of `t` from position `i` on, or `None` when the text
/// is not such a sequence.
pub open spec fn statements(t: Seq<char>, i: int) -> Option<Seq<Statement>>
    decreases t.len() - i,
{
    let j = skip_ws(t, i);
    if j < i || j > t.len() {
        None
    } else if j == t.len() {
        Some(Seq::empty())
    } else {
        let e = name_end(t, j);
        let k = skip_ws(t, e);
        if e <= j || k < e || k + 1 >= t.len() || t[k] != '-' || t[k + 1] != '>' {
            None
        } else {
            match rhs_names(t, k + 2) {
                None => None,
                Some((rhs, after)) => if after <= i || after > t.len() {
                    None
                } else {
                    match statements(t, after) {
                        None => None,
                        Some(rest) => Some(seq![(t.subrange(j, e), rhs)] + rest),
                    }
                },
            }
        }
    }
}

/// `x` is a name in some statement of `st`.
pub open spec fn mentions(st: Seq<Statement>, x: Seq<char>) -> bool {
    exists|k: int| 0 <= k < st.len() && (st[k].0 == x || st[k].1.contains(x))
}

/// Grammar `g` has the rules of `st` in order, and its symbols are the names that `st` mentions.
pub open spec fn describes(g: Grammar, st: Seq<Statement>) -> bool {
    &&& g.wf()
    &&& g.num_rules() == st.len()
    &&& forall|k: int| 0 <= k < st.len() ==> {
        &&& g.names()[#[trigger] g.lhs(k)] == st[k].0
        &&& g.rhs(k).len() == st[k].1.len()
        &&& forall|m: int| 0 <= m < st[k].1.len() ==> g.names()[#[trigger] g.rhs(k)[m] as int] == st[k].1[m]
    }
    &&& forall|s: int| 0 <= s < g.num_symbols() ==> mentions(st, #[trigger] g.names()[s])
}

proof fn lemma_skip_ws(t: Seq<char>, i: int, j: int)
    requires
        0 <= i <= j <= t.len(),
        forall|k: int| i <= k < j ==> is_space(t[k]),
        j < t.len() ==> !is_space(t[j]),
    ensures
        skip_ws(t, i) == j,
    decreases j - i,
{
    if i < j {
        lemma_skip_ws(t, i + 1, j);
    }
}

proof fn lemma_name_end(t: Seq<char>, i: int, j: int)
    requires
        0 <= i <= j <= t.len(),
        forall|k: int| i <= k < j ==> is_name_char(t[k]),
        j < t.len() ==> !is_name_char(t[j]),
    ensures
        name_end(t, i) == j,
    decreases j - i,
{
    if i < j {
        lemma_name_end(t, i + 1, j);
    }
}

/// `done` followed by what `rest` holds.
pub open spec fn joined(done: Seq<Statement>, rest: Option<Seq<Statement>>) -> Option<Seq<Statement>> {
    match rest {
        None => None,
        Some(r) => Some(done + r),
    }
}

/// `acc` followed by the names that `rest` holds.
pub open spec fn joined_rhs(acc: Seq<Seq<char>>, rest: Option<(Seq<Seq<char>>, int)>) -> Option<(Seq<Seq<char>>, int)> {
    match rest {
        None => None,
        Some((r, after)) => Some((acc + r, after)),
    }
}

/// The builder holds the rules of `done`, and only names they mention or `extra` mentions.
pub open spec fn builder_holds(b: GrammarBuilder, done: Seq<Statement>, extra: Seq<Seq<char>>) -> bool {
    &&& b.inv()
    &&& b.error().is_none()
    &&& b.rule_lhs().len() == done.len()
    &&& forall|k: int| 0 <= k < done.len() ==> {
        &&& b.names()[#[trigger] b.rule_lhs()[k] as int] == done[k].0
        &&& b.rule_rhs(k).len() == done[k].1.len()
        &&& forall|m: int| 0 <= m < done[k].1.len() ==> b.names()[#[trigger] b.rule_rhs(k)[m] as int] == done[k].1[m]
    }
    &&& forall|s: int| 0 <= s < b.names().len() ==> mentions(done, #[trigger] b.names()[s]) || extra.contains(b.names()[s])
}

impl Grammar {
    /// Reads a grammar written as statements `LHS -> S1 S2 ... ;`. Symbols are declared by
    /// their first use; the first statement is the start rule. Names are runs of characters
    /// other than white space, `;`, `-` and `>`.
    pub fn parse(text: &str) -> (r: Result<Grammar, GrammarError>)
        ensures
            statements(text@, 0) is None ==> r == Err::<Grammar, GrammarError>(GrammarError::Syntax),
            statements(text@, 0) matches Some(st) ==> (if st.len() > 0 && st[0].1.len() == 1 {
                r matches Ok(g) && describes(g, st)
            } else {
                r == Err::<Grammar, GrammarError>(GrammarError::MalformedStartRule)
            }),
    {
        let len = text.unicode_len();
        let ghost t = text@;
        let mut b = Grammar::new();
        let ghost mut done: Seq<Statement> = Seq::empty();
        proof {
            assert(builder_holds(b, done, Seq::empty()));
            assert(Seq::<Statement>::empty() + Seq::<Statement>::empty() =~= Seq::<Statement>::empty());
            if let Some(rest) = statements(t, 0) {
                assert(done + rest =~= rest);
            }
        }
        let mut i: usize = 0;
        while i < len
            invariant
                len == t.len(),
                t == text@,
                i <= len,
                builder_holds(b, done, Seq::empty()),
                statements(t, 0) == joined(done, statements(t, i as int)),
            ensures
                i == len,
                builder_holds(b, done, Seq::empty()),
                statements(t, 0) == joined(done, statements(t, i as int)),
            decreases len - i,
        {
            let i0 = i;
            i = skip_spaces(text, i, len);
            proof {
                lemma_skip_ws(t, i0 as int, i as int);
            }
            if i == len {
                proof {
                    assert(statements(t, i0 as int) == Some(Seq::<Statement>::empty()));
                    assert(statements(t, len as int) == Some(Seq::<Statement>::empty()));
                }
                i = len;
                break;
            }
            let j = i;
            let (lhs, after) = read_name(text, i, len);
            proof {
                lemma_name_end(t, j as int, after as int);
            }
            if after == i {
                proof {
                    assert(statements(t, i0 as int) is None);
                }
                return Err(GrammarError::Syntax);
            }
            i = skip_spaces(text, after, len);
            proof {
                lemma_skip_ws(t, after as int, i as int);
            }
            if i >= len || i + 1 >= len || text.get_char(i) != '-' || text.get_char(i + 1) != '>' {
                proof {
                    assert(statements(t, i0 as int) is None);
                }
                return Err(GrammarError::Syntax);
            }
            let k = i;
            i = i + 2;
            let ghost b0 = b;
            b = b.declare(lhs);
            proof {
                assert(seq![lhs@][0] == lhs@);
                lemma_holds_grow(b0, b, done, Seq::empty(), seq![lhs@], lhs@);
            }
            let mut rhs: Vec<&str> = Vec::new();
            let ghost mut acc: Seq<Seq<char>> = Seq::empty();
            proof {
                assert(seq![lhs@] =~= acc.push(lhs@));
                if let Some((r, a2)) = rhs_names(t, k + 2) {
                    assert(acc + r =~= r);
                }
            }
            let mut p = i;
            let mut semi: usize = 0;
            loop
                invariant
                    len == t.len(),
                    t == text@,
                    i0 <= j < after <= k,
                    k + 2 <= p <= len,
                    k + 1 < len,
                    t[k as int] == '-',
                    t[k + 1] == '>',
                    skip_ws(t, i0 as int) == j,
                    name_end(t, j as int) == after,
                    skip_ws(t, after as int) == k,
                    lhs@ == t.subrange(j as int, after as int),
                    statements(t, 0) == joined(done, statements(t, i0 as int)),
                    builder_holds(b, done, acc.push(lhs@)),
                    has_name(b.names(), lhs@),
                    rhs@.len() == acc.len(),
                    forall|m: int| 0 <= m < acc.len() ==> (#[trigger] rhs@[m])@ == acc[m],
                    forall|m: int| 0 <= m < acc.len() ==> has_name(b.names(), #[trigger] acc[m]),
                    rhs_names(t, k + 2) == joined_rhs(acc, rhs_names(t, p as int)),
                ensures
                    k + 2 < semi <= len,
                    rhs_names(t, k + 2) == Some((acc, semi as int)),
                    builder_holds(b, done, acc.push(lhs@)),
                    has_name(b.names(), lhs@),
                    rhs@.len() == acc.len(),
                    forall|m: int| 0 <= m < acc.len() ==> (#[trigger] rhs@[m])@ == acc[m],
                    forall|m: int| 0 <= m < acc.len() ==> has_name(b.names(), #[trigger] acc[m]),
                decreases len - p,
            {
                let q = skip_spaces(text, p, len);
                proof {
                    lemma_skip_ws(t, p as int, q as int);
                }
                if q == len {
                    proof {
                        assert(rhs_names(t, p as int) is None);
                        assert(statements(t, i0 as int) is None);
                    }
                    return Err(GrammarError::Syntax);
                }
                if text.get_char(q) == ';' {
                    proof {
                        assert(rhs_names(t, p as int) == Some((Seq::<Seq<char>>::empty(), q + 1)));
                        assert(acc + Seq::<Seq<char>>::empty() =~= acc);
                    }
                    semi = q + 1;
                    break;
                }
                let (name, after2) = read_name(text, q, len);
                proof {
                    lemma_name_end(t, q as int, after2 as int);
                }
                if after2 == q {
                    proof {
                        assert(rhs_names(t, p as int) is None);
                        assert(statements(t, i0 as int) is None);
                    }
                    return Err(GrammarError::Syntax);
                }
                let ghost b1 = b;
                let ghost acc0 = acc;
                b = b.declare(name);
                rhs.push(name);
                proof {
                    acc = acc.push(name@);
                    assert(acc.push(lhs@)[acc0.len() as int] == name@);
                    assert forall|y: Seq<char>| acc0.push(lhs@).contains(y) implies acc.push(lhs@).contains(y) by {
                        let m = choose|m: int| 0 <= m < acc0.push(lhs@).len() && acc0.push(lhs@)[m] == y;
                        if m < acc0.len() {
                            assert(acc.push(lhs@)[m] == y);
                        } else {
                            assert(acc.push(lhs@)[acc.len() as int] == y);
                        }
                    }
                    lemma_holds_grow(b1, b, done, acc0.push(lhs@), acc.push(lhs@), name@);
                    assert forall|m: int| 0 <= m < acc.len() implies has_name(b.names(), #[trigger] acc[m]) by {
                        if m < acc0.len() {
                            assert(acc[m] == acc0[m]);
                            assert(has_name(b1.names(), acc0[m]));
                        }
                    }
                    assert forall|m: int| 0 <= m < acc.len() implies (#[trigger] rhs@[m])@ == acc[m] by {
                        if m < acc0.len() {
                            assert(acc[m] == acc0[m]);
                        }
                    }
                    match rhs_names(t, after2 as int) {
                        None => {},
                        Some((r, a2)) => {
                            assert(acc0 + (seq![name@] + r) =~= acc + r);
                        },
                    }
                }
                p = after2;
            }
            i = semi;
            let ghost b2 = b;
            proof {
                assert forall|m: int| 0 <= m < rhs@.len() implies has_name(b.names(), #[trigger] rhs@[m]@) by {
                    assert(rhs@[m]@ == acc[m]);
                    assert(has_name(b.names(), acc[m]));
                }
                assert(all_known(b.names(), lhs@, rhs@));
            }
            b = b.rule(lhs, rhs.as_slice());
            proof {
                let st = (lhs@, acc);
                let done0 = done;
                done = done.push(st);
                lemma_names_fit(b2);
                lemma_holds_rule(b2, b, done0, lhs@, acc, rhs@);
                assert(statements(t, i0 as int) == joined(seq![st], statements(t, i as int)));
                match statements(t, i as int) {
                    None => {},
                    Some(rest) => {
                        assert(done0 + (seq![st] + rest) =~= done + rest);
                    },
                }
            }
        }
        proof {
            assert(statements(t, len as int) == Some(Seq::<Statement>::empty()));
            assert(done + Seq::<Statement>::empty() =~= done);
        }
        proof {
            if done.len() > 0 {
                assert(b.names()[b.rule_lhs()[0] as int] == done[0].0);
                assert(b.rule_rhs(0).len() == done[0].1.len());
            }
        }
        let r = b.build();
        proof {
            if r is Ok {
                let g = r->Ok_0;
                assert forall|s: int| 0 <= s < g.num_symbols() implies mentions(done, #[trigger] g.names()[s]) by {
                    assert(mentions(done, b.names()[s]) || Seq::<Seq<char>>::empty().contains(b.names()[s]));
                }
                assert forall|q: int| 0 <= q < done.len() implies {
                    &&& g.names()[#[trigger] g.lhs(q)] == done[q].0
                    &&& g.rhs(q).len() == done[q].1.len()
                    &&& forall|m: int| 0 <= m < done[q].1.len() ==> g.names()[#[trigger] g.rhs(q)[m] as int] == done[q].1[m]
                } by {
                    assert(b.names()[b.rule_lhs()[q] as int] == done[q].0);
                    assert forall|m: int| 0 <= m < done[q].1.len() implies g.names()[#[trigger] g.rhs(q)[m] as int] == done[q].1[m] by {
                        assert(b.names()[b.rule_rhs(q)[m] as int] == done[q].1[m]);
                    }
                }
            }
        }
        r
    }
}

proof fn lemma_names_fit(b: GrammarBuilder)
    ensures
        b.names().len() <= usize::MAX,
{
    assert(b.symbols@.len() == b.symbols.len());
}

/// Growing the names of a builder keeps what it holds, with the new name counted in `e1`.
proof fn lemma_holds_grow(b0: GrammarBuilder, b1: GrammarBuilder, done: Seq<Statement>, e0: Seq<Seq<char>>, e1: Seq<Seq<char>>, x: Seq<char>)
    requires
        builder_holds(b0, done, e0),
        b1.inv(),
        b1.error().is_none(),
        b1.rule_lhs() == b0.rule_lhs(),
        forall|k: int| 0 <= k < b1.rule_lhs().len() ==> b1.rule_rhs(k) == b0.rule_rhs(k),
        b1.names() == b0.names() || b1.names() == b0.names().push(x),
        e1.contains(x),
        forall|y: Seq<char>| e0.contains(y) ==> e1.contains(y),
    ensures
        builder_holds(b1, done, e1),
{
    assert forall|k: int| 0 <= k < done.len() implies {
        &&& b1.names()[#[trigger] b1.rule_lhs()[k] as int] == done[k].0
        &&& b1.rule_rhs(k).len() == done[k].1.len()
        &&& forall|m: int| 0 <= m < done[k].1.len() ==> b1.names()[#[trigger] b1.rule_rhs(k)[m] as int] == done[k].1[m]
    } by {
        assert(b0.rule_lhs()[k] < b0.names().len());
        assert(b1.names()[b0.rule_lhs()[k] as int] == b0.names()[b0.rule_lhs()[k] as int]);
        assert forall|m: int| 0 <= m < done[k].1.len() implies b1.names()[#[trigger] b1.rule_rhs(k)[m] as int] == done[k].1[m] by {
            assert(b0.rule_rhs(k)[m] < b0.names().len());
            assert(b1.names()[b0.rule_rhs(k)[m] as int] == b0.names()[b0.rule_rhs(k)[m] as int]);
        }
    }
    assert forall|s: int| 0 <= s < b1.names().len() implies mentions(done, #[trigger] b1.names()[s]) || e1.contains(b1.names()[s]) by {
        if s < b0.names().len() {
            assert(b1.names()[s] == b0.names()[s]);
            assert(mentions(done, b0.names()[s]) || e0.contains(b0.names()[s]));
        }
    }
}

/// Adding the rule of a statement to a builder that holds the earlier statements.
proof fn lemma_holds_rule(b0: GrammarBuilder, b1: GrammarBuilder, done: Seq<Statement>, lhs: Seq<char>, acc: Seq<Seq<char>>, rhs: Seq<&str>)
    requires
        b0.names().len() <= usize::MAX,
        builder_holds(b0, done, acc.push(lhs)),
        all_known(b0.names(), lhs, rhs),
        rhs.len() == acc.len(),
        forall|m: int| 0 <= m < acc.len() ==> (#[trigger] rhs[m])@ == acc[m],
        b1.inv(),
        b1.names() == b0.names(),
        b1.error().is_none(),
        b1.rule_lhs() == b0.rule_lhs().push(position_of(b0.names(), lhs) as usize),
        b1.rule_rhs(b0.rule_lhs().len() as int).len() == rhs.len(),
        forall|m: int| 0 <= m < rhs.len() ==> b1.rule_rhs(b0.rule_lhs().len() as int)[m] == position_of(b0.names(), rhs[m]@),
        forall|k: int| 0 <= k < b0.rule_lhs().len() ==> b1.rule_rhs(k) == b0.rule_rhs(k),
    ensures
        builder_holds(b1, done.push((lhs, acc)), Seq::empty()),
{
    let d1 = done.push((lhs, acc));
    let names = b0.names();
    let nk = done.len() as int;
    let pl = position_of(names, lhs);
    assert(names[pl] == lhs);
    assert(0 <= pl < names.len());
    assert(d1[nk] == (lhs, acc));
    assert(b1.rule_lhs()[nk] == pl as usize);
    assert(b1.names()[b1.rule_lhs()[nk] as int] == d1[nk].0);
    assert forall|m: int| 0 <= m < d1[nk].1.len() implies b1.names()[#[trigger] b1.rule_rhs(nk)[m] as int] == d1[nk].1[m] by {
        assert(has_name(names, rhs[m]@));
        let pm = position_of(names, rhs[m]@);
        assert(names[pm] == rhs[m]@);
        assert(0 <= pm < names.len());
        assert(b1.rule_rhs(nk)[m] == pm as usize);
        assert(rhs[m]@ == acc[m]);
    }
    assert forall|k: int| 0 <= k < nk implies {
        &&& b1.names()[#[trigger] b1.rule_lhs()[k] as int] == d1[k].0
        &&& b1.rule_rhs(k).len() == d1[k].1.len()
        &&& forall|m: int| 0 <= m < d1[k].1.len() ==> b1.names()[#[trigger] b1.rule_rhs(k)[m] as int] == d1[k].1[m]
    } by {
        assert(b1.rule_lhs()[k] == b0.rule_lhs()[k]);
        assert(d1[k] == done[k]);
        assert(b0.names()[b0.rule_lhs()[k] as int] == done[k].0);
        assert forall|m: int| 0 <= m < d1[k].1.len() implies b1.names()[#[trigger] b1.rule_rhs(k)[m] as int] == d1[k].1[m] by {
            assert(b0.names()[b0.rule_rhs(k)[m] as int] == done[k].1[m]);
        }
    }
    assert forall|k: int| 0 <= k < d1.len() implies {
        &&& b1.names()[#[trigger] b1.rule_lhs()[k] as int] == d1[k].0
        &&& b1.rule_rhs(k).len() == d1[k].1.len()
        &&& forall|m: int| 0 <= m < d1[k].1.len() ==> b1.names()[#[trigger] b1.rule_rhs(k)[m] as int] == d1[k].1[m]
    } by {
        if k == nk {
            assert(b1.rule_rhs(nk).len() == d1[nk].1.len());
        }
    }
    assert forall|s: int| 0 <= s < b1.names().len() implies mentions(d1, #[trigger] b1.names()[s])
        || Seq::<Seq<char>>::empty().contains(b1.names()[s]) by {
        let x = names[s];
        if mentions(done, x) {
            let k = choose|k: int| 0 <= k < done.len() && (done[k].0 == x || done[k].1.contains(x));
            assert(d1[k] == done[k]);
        } else {
            assert(acc.push(lhs).contains(x));
            let m = choose|m: int| 0 <= m < acc.push(lhs).len() && acc.push(lhs)[m] == x;
            if m < acc.len() {
                assert(d1[nk].1[m] == x);
            }
            assert(d1[nk].0 == lhs);
        }
    }
}

/// The first position at or after `i` that does not hold white space.
fn skip_spaces(text: &str, i: usize, len: usize) -> (j: usize)
    requires
        len == text@.len(),
        i <= len,
    ensures
        i <= j <= len,
        forall|k: int| i <= k < j ==> is_space(text@[k]),
        j < len ==> !is_space(text@[j as int]),
{
    let mut j = i;
    while j < len
        invariant
            len == text@.len(),
            i <= j <= len,
            forall|k: int| i <= k < j ==> is_space(text@[k]),
        decreases len - j,
    {
        let c = text.get_char(j);
        if !(c == ' ' || c == '\n' || c == '\t' || c == '\r') {
            return j;
        }
        j += 1;
    }
    j
}

/// The name that starts at `i` (possibly empty) and the position after it.
fn read_name<'a>(text: &'a str, i: usize, len: usize) -> (r: (&'a str, usize))
    requires
        len == text@.len(),
        i <= len,
    ensures
        i <= r.1 <= len,
        r.0@ == text@.subrange(i as int, r.1 as int),
        forall|k: int| i <= k < r.1 ==> is_name_char(text@[k]),
        r.1 < len ==> !is_name_char(text@[r.1 as int]),
{
    let mut j = i;
    while j < len
        invariant
            len == text@.len(),
            i <= j <= len,
            forall|k: int| i <= k < j ==> is_name_char(text@[k]),
        ensures
            i <= j <= len,
            forall|k: int| i <= k < j ==> is_name_char(text@[k]),
            j < len ==> !is_name_char(text@[j as int]),
        decreases len - j,
    {
        let c = text.get_char(j);
        if c == ' ' || c == '\n' || c == '\t' || c == '\r' || c == ';' || c == '-' || c == '>' {
            break;
        }
        j += 1;
    }
    (text.substring_char(i, j), j)
}

proof fn lemma_builder_same(a: GrammarBuilder, b: GrammarBuilder)
    requires
        a.inv(),
        a.symbols == b.symbols,
        a.rules == b.rules,
    ensures
        b.inv(),
        b.names() == a.names(),
        b.rule_lhs() == a.rule_lhs(),
        forall|k: int| 0 <= k < a.rule_lhs().len() ==> b.rule_rhs(k) == a.rule_rhs(k),
{
    assert forall|k: int, i: int| 0 <= k < b.rule_lhs().len() && 0 <= i < b.rule_rhs(k).len()
        implies #[trigger] b.rule_rhs(k)[i] < b.names().len() by {
        assert(a.rule_rhs(k) == b.rule_rhs(k));
    }
}

proof fn unique_position(names: Seq<Seq<char>>, i: int)
    requires
        names_unique(names),
        0 <= i < names.len(),
    ensures
        position_of(names, names[i]) == i,
{
    let j = position_of(names, names[i]);
    assert(0 <= j < names.len() && names[j] == names[i]);
}

impl<'g> Symbol<'g> {
    /// The handle points at a symbol of a well-formed grammar.
    pub open spec fn wf(&self) -> bool {
        self.grammar.wf() && self.index < self.grammar.num_symbols()
    }

    /// The symbol's name.
    pub fn name(&self) -> (r: String)
        requires
            self.wf(),
        ensures
            r@ == self.grammar.names()[self.index as int],
    {
        self.grammar.symbols[self.index].clone()
    }

    /// The symbol's position among the grammar's symbols.
    pub fn index(&self) -> (r: usize)
        ensures
            r == self.index,
    {
        self.index
    }

    /// A terminal heads no rule.
    pub fn is_terminal(&self) -> (r: bool)
        requires
            self.wf(),
        ensures
            r == !self.grammar.is_nonterminal(self.index as int),
    {
        !self.grammar.nonterminal_at(self.index)
    }

    /// A nonterminal heads at least one rule.
    pub fn is_nonterminal(&self) -> (r: bool)
        requires
            self.wf(),
        ensures
            r == self.grammar.is_nonterminal(self.index as int),
    {
        self.grammar.nonterminal_at(self.index)
    }
}

impl<'g> PartialEq for Symbol<'g> {
    fn eq(&self, other: &Symbol<'g>) -> (r: bool) {
        self.index == other.index
    }
}

impl<'g> vstd::std_specs::cmp::PartialEqSpecImpl for Symbol<'g> {
    open spec fn obeys_eq_spec() -> bool {
        true
    }

    open spec fn eq_spec(&self, other: &Symbol<'g>) -> bool {
        self.index == other.index
    }
}

impl<'g> Rule<'g> {
    /// The handle points at a rule of a well-formed grammar.
    pub open spec fn wf(&self) -> bool {
        self.grammar.wf() && self.index < self.grammar.num_rules()
    }

    /// The grammar that owns the rule.
    pub fn grammar(&self) -> (r: &'g Grammar)
        ensures
            r == self.grammar,
    {
        self.grammar
    }

    /// The rule's position among the grammar's rules.
    pub fn index(&self) -> (r: usize)
        ensures
            r == self.index,
    {
        self.index
    }

    /// The rule's left-hand side.
    pub fn lhs(&self) -> (r: Symbol<'g>)
        requires
            self.wf(),
        ensures
            r.grammar == self.grammar,
            r.index == self.grammar.lhs(self.index as int),
            r.wf(),
    {
        Symbol { grammar: self.grammar, index: self.grammar.rule_lhs(self.index) }
    }

    /// The rule's right-hand side, in order.
    pub fn rhs(&self) -> (v: Vec<Symbol<'g>>)
        requires
            self.wf(),
        ensures
            v@.len() == self.grammar.rhs(self.index as int).len(),
            forall|i: int| 0 <= i < v@.len() ==> (#[trigger] v@[i]).grammar == self.grammar
                && v@[i].index == self.grammar.rhs(self.index as int)[i] && v@[i].wf(),
    {
        let g: &'g Grammar = self.grammar;
        let r = self.index;
        let n = g.rule_len(r);
        let mut v: Vec<Symbol<'g>> = Vec::new();
        let mut i: usize = 0;
        while i < n
            invariant
                g == self.grammar,
                r == self.index,
                g.wf(),
                r < g.num_rules(),
                n == g.rhs(r as int).len(),
                i <= n,
                v@.len() == i,
                forall|k: int| 0 <= k < i ==> (#[trigger] v@[k]).grammar == g
                    && v@[k].index == g.rhs(r as int)[k] && v@[k].wf(),
            decreases n - i,
        {
            let s = g.rule_rhs_at(r, i);
            assert(s < g.num_symbols());
            let ghost v0 = v@;
            v.push(Symbol { grammar: g, index: s });
            assert(forall|k: int| 0 <= k < i ==> v@[k] == v0[k]);
            i += 1;
        }
        v
    }
}

impl<'g> PartialEq for Rule<'g> {
    fn eq(&self, other: &Rule<'g>) -> (r: bool) {
        self.index == other.index
    }
}

impl<'g> vstd::std_specs::cmp::PartialEqSpecImpl for Rule<'g> {
    open spec fn obeys_eq_spec() -> bool {
        true
    }

    open spec fn eq_spec(&self, other: &Rule<'g>) -> bool {
        self.index == other.index
    }
}

} // verus!
