use parsetab::driver::ParseError;
use parsetab::ll1;
use parsetab::lr0;
use parsetab::lr1;
use parsetab::{Grammar, Symbol};

fn parse(text: &str) -> Grammar {
    Grammar::parse(text).unwrap()
}

fn tokens<'g>(grammar: &'g Grammar, words: &[&str]) -> Vec<Symbol<'g>> {
    words.iter().map(|w| grammar.symbol(w).unwrap()).collect()
}

const ARITHMETIC: &str = "S -> E; E -> T plus E; E -> T; T -> F times T; T -> F; F -> id; F -> lparen E rparen;";

const COMMANDS: &str = "start -> command;
    command -> write data to file;
    command -> write file from data;
    command -> read data from file;
    command -> read file to data;
    file -> identifier;
    data -> identifier;";

#[test]
fn lr0_test_conflicts() {
    let grammar = parse(ARITHMETIC);
    let table = lr0::ParseTable::build(&grammar, grammar.rules()[0]);
    assert_eq!(table.conflicts().len(), 2);
}

#[test]
fn lr0_test_machine() {
    let grammar = parse("Sprime -> S; S -> a A; A -> b;");
    let table = lr0::ParseTable::build(&grammar, grammar.rules()[0]);
    let mut machine = lr0::Machine::new(&table, tokens(&grammar, &["a", "b"]));
    assert!(machine.run().is_ok());
}

#[test]
fn lr1_test_conflicts() {
    let grammar = parse(ARITHMETIC);
    let table = lr1::ParseTable::build(&grammar, grammar.rules()[0]);
    assert_eq!(table.conflicts().len(), 0);
}

#[test]
fn lr1_test_machine() {
    let grammar = parse(ARITHMETIC);
    let table = lr1::ParseTable::build(&grammar, grammar.rules()[0]);
    let input = tokens(&grammar, &["id", "plus", "id", "times", "lparen", "id", "plus", "id", "rparen"]);
    let mut machine = lr1::Machine::new(&table, input);
    assert!(machine.run().is_ok());
}

#[test]
fn lr1_machine_rejects_incomplete_input() {
    let grammar = parse(ARITHMETIC);
    let table = lr1::ParseTable::build(&grammar, grammar.rules()[0]);
    let mut machine = lr1::Machine::new(&table, tokens(&grammar, &["id", "plus"]));
    assert!(matches!(machine.run(), Err(ParseError::UnexpectedToken { symbol: None, .. })));
}

#[test]
fn lr1_machine_rejects_unexpected_token() {
    let grammar = parse(ARITHMETIC);
    let table = lr1::ParseTable::build(&grammar, grammar.rules()[0]);
    let mut machine = lr1::Machine::new(&table, tokens(&grammar, &["id", "id"]));
    match machine.run() {
        Err(ParseError::UnexpectedToken { symbol: Some(s), .. }) => assert_eq!(s.name(), "id"),
        _ => panic!("expected an unexpected-token error"),
    }
}

#[test]
fn lr0_machine_reports_conflict() {
    let grammar = parse(ARITHMETIC);
    let table = lr0::ParseTable::build(&grammar, grammar.rules()[0]);
    let mut machine = lr0::Machine::new(&table, tokens(&grammar, &["id", "plus", "id"]));
    assert!(matches!(machine.run(), Err(ParseError::Conflict { .. })));
}

#[test]
fn test_conflicts2() {
    let grammar = parse(COMMANDS);
    let table = lr1::ParseTable::build(&grammar, grammar.rules()[0]);
    assert_eq!(table.conflicts().len(), 0);
    let table2 = lr0::ParseTable::build(&grammar, grammar.rules()[0]);
    assert!(table2.conflicts().len() > 0);
}

#[test]
fn commands_parse_with_lr1() {
    let grammar = parse(COMMANDS);
    let table = lr1::ParseTable::build(&grammar, grammar.rules()[0]);
    let input = tokens(&grammar, &["read", "identifier", "to", "identifier"]);
    let mut machine = lr1::Machine::new(&table, input);
    assert!(machine.run().is_ok());
}

#[test]
fn debug_for_items2() {
    let grammar = Grammar::new()
        .symbol("S'")
        .symbol("S")
        .symbol("C")
        .symbol("c")
        .symbol("d")
        .rule("S'", &["S"])
        .rule("S", &["C", "C"])
        .rule("C", &["c", "C"])
        .rule("C", &["d"])
        .build()
        .unwrap();
    let rule0 = grammar.rules()[0];
    let table = lr1::ParseTable::build(&grammar, rule0);
    assert_eq!(table.conflicts().len(), 0);
    assert_eq!(table.states().len(), 10);
}

#[test]
fn ll1_debug_for_items() {
    let grammar = Grammar::new()
        .symbol("S")
        .symbol("A")
        .symbol("x")
        .symbol("y")
        .symbol("z")
        .rule("S", &["A"])
        .rule("A", &["x", "y", "z"])
        .build()
        .unwrap();
    let table = lr1::ParseTable::build(&grammar, grammar.rules()[0]);
    assert_eq!(table.conflicts().len(), 0);
}

#[test]
fn ll1_example1() {
    let grammar = parse(
        "S -> E; E -> T Emore; Emore -> plus T Emore; Emore -> ; T -> F Tmore; Tmore -> times F Tmore; Tmore -> ; F -> id; F -> lparen E rparen;",
    );
    let e = grammar.symbol("E").unwrap();
    let table = ll1::ParseTable::build(&grammar, e);
    let input = tokens(&grammar, &["id", "plus", "id", "times", "id"]);
    let mut machine = ll1::Machine::new(table, e, input);
    assert!(machine.run().is_ok());
}

#[test]
fn ll1_machine_rejects_bad_input() {
    let grammar = parse(
        "S -> E; E -> T Emore; Emore -> plus T Emore; Emore -> ; T -> F Tmore; Tmore -> times F Tmore; Tmore -> ; F -> id; F -> lparen E rparen;",
    );
    let e = grammar.symbol("E").unwrap();
    let table = ll1::ParseTable::build(&grammar, e);
    let input = tokens(&grammar, &["id", "plus", "times"]);
    let mut machine = ll1::Machine::new(table, e, input);
    assert!(matches!(machine.run(), Err(ll1::LlError::UnexpectedToken { .. })));
}

#[test]
fn ll1_table_cells() {
    let grammar = parse(
        "S -> E; E -> T Emore; Emore -> plus T Emore; Emore -> ; T -> F Tmore; Tmore -> times F Tmore; Tmore -> ; F -> id; F -> lparen E rparen;",
    );
    let e = grammar.symbol("E").unwrap();
    let emore = grammar.symbol("Emore").unwrap();
    let plus = grammar.symbol("plus").unwrap();
    let rparen = grammar.symbol("rparen").unwrap();
    let table = ll1::ParseTable::build(&grammar, e);
    let on_plus = table.get(emore, Some(plus));
    assert_eq!(on_plus.len(), 1);
    assert_eq!(on_plus[0].index(), 2);
    let on_close = table.get(emore, Some(rparen));
    assert_eq!(on_close.len(), 1);
    assert_eq!(on_close[0].index(), 3);
    let at_end = table.get(emore, None);
    assert_eq!(at_end.len(), 1);
    assert_eq!(at_end[0].index(), 3);
}

#[test]
fn lr1_halt_is_first_in_start_column() {
    let grammar = parse(ARITHMETIC);
    let table = lr1::ParseTable::build(&grammar, grammar.rules()[0]);
    let s = grammar.symbol("S").unwrap();
    let cell = table.get(parsetab::table::StateIndex(0), Some(s));
    assert!(matches!(cell[0], parsetab::table::Action::Halt));
}

#[test]
fn goto_of_states_is_enumerated() {
    let grammar = parse(ARITHMETIC);
    let table = lr1::ParseTable::build(&grammar, grammar.rules()[0]);
    let analysis = parsetab::GrammarAnalysis::build(&grammar);
    let states = table.states();
    let id = grammar.symbol("id").unwrap();
    let next = states[0].follow(&analysis, id);
    let items = next.items();
    assert_eq!(items.len(), 1);
    assert_eq!(items[0].rule().index(), 5);
    assert_eq!(items[0].pos(), 1);
}

#[test]
fn conflict_free_lr0_stays_conflict_free_in_lr1() {
    let grammar = parse("Sprime -> S; S -> a A; A -> b;");
    let lr0_table = lr0::ParseTable::build(&grammar, grammar.rules()[0]);
    let lr1_table = lr1::ParseTable::build(&grammar, grammar.rules()[0]);
    assert_eq!(lr0_table.conflicts().len(), 0);
    assert_eq!(lr1_table.conflicts().len(), 0);
}

#[test]
fn lr1_states_by_index() {
    let grammar = parse("Sprime -> S; S -> a A; A -> b;");
    let table = lr1::ParseTable::build(&grammar, grammar.rules()[0]);
    let states = table.states();
    assert_eq!(states.len(), 5);
    let first = table.state(parsetab::table::StateIndex(0));
    assert_eq!(first.items().len(), states[0].items().len());
}

#[test]
fn lr0_conflicts_report_cells() {
    let grammar = parse(ARITHMETIC);
    let table = lr0::ParseTable::build(&grammar, grammar.rules()[0]);
    let conflicts = table.conflicts();
    let mut columns: Vec<String> = conflicts
        .iter()
        .map(|c| c.symbol().map(|s| s.name()).unwrap_or_else(|| "$".to_string()))
        .collect();
    columns.sort();
    assert_eq!(columns, vec!["plus".to_string(), "times".to_string()]);
    for c in &conflicts {
        assert!(c.actions().len() > 1);
    }
}

#[test]
fn ll1_machine_reports_conflict() {
    let grammar = parse("S -> A; A -> x; A -> x y;");
    let a = grammar.symbol("A").unwrap();
    let table = ll1::ParseTable::build(&grammar, a);
    let x = grammar.symbol("x").unwrap();
    assert_eq!(table.get(a, Some(x)).len(), 2);
    let mut machine = ll1::Machine::new(table, a, tokens(&grammar, &["x"]));
    assert!(matches!(machine.run(), Err(ll1::LlError::Conflict { .. })));
}

#[test]
fn ll1_machine_rejects_leftover_input() {
    let grammar = parse("S -> A; A -> x;");
    let a = grammar.symbol("A").unwrap();
    let table = ll1::ParseTable::build(&grammar, a);
    let mut machine = ll1::Machine::new(table, a, tokens(&grammar, &["x", "x"]));
    assert!(matches!(machine.run(), Err(ll1::LlError::UnexpectedToken { symbol: None, .. })));
}

#[test]
fn lr1_machine_steps_one_at_a_time() {
    let grammar = parse("Sprime -> S; S -> a A; A -> b;");
    let table = lr1::ParseTable::build(&grammar, grammar.rules()[0]);
    let mut machine = lr1::Machine::new(&table, tokens(&grammar, &["a", "b"]));
    assert!(matches!(machine.step(), Ok(false)));
    assert_eq!(machine.driver.pos, 1);
    assert_eq!(machine.driver.stack.len(), 1);
    let mut halted = false;
    for _ in 0..10 {
        if matches!(machine.step(), Ok(true)) {
            halted = true;
            break;
        }
    }
    assert!(halted);
    assert_eq!(machine.driver.pos, 2);
}

#[test]
fn get_outside_the_table_is_empty() {
    let grammar = parse(ARITHMETIC);
    let table = lr1::ParseTable::build(&grammar, grammar.rules()[0]);
    let id = grammar.symbol("id").unwrap();
    assert!(table.get(parsetab::table::StateIndex(10_000), Some(id)).is_empty());
    assert!(!table.get(parsetab::table::StateIndex(0), Some(id)).is_empty());
    let lr0_table = lr0::ParseTable::build(&grammar, grammar.rules()[0]);
    assert!(lr0_table.get(parsetab::table::StateIndex(10_000), None).is_empty());
    let e = grammar.symbol("E").unwrap();
    let ll = ll1::ParseTable::build(&grammar, e);
    let f = grammar.symbol("F").unwrap();
    assert_eq!(ll.get(f, Some(id)).len(), 1);
}
