use std::collections::BTreeSet;

use parsetab::lr0::{Item, ItemSet};
use parsetab::Grammar;

fn show(item: &Item) -> String {
    let mut text = item.lhs().name();
    text.push_str(" ->");
    let rhs = item.rhs();
    for (i, symbol) in rhs.iter().enumerate() {
        if i == item.pos() {
            text.push_str(" .");
        }
        text.push(' ');
        text.push_str(&symbol.name());
    }
    if item.pos() == rhs.len() {
        text.push_str(" .");
    }
    text
}

fn xyz() -> Grammar {
    Grammar::new()
        .symbol("S")
        .symbol("A")
        .symbol("x")
        .symbol("y")
        .symbol("z")
        .rule("S", &["A"])
        .rule("A", &["x", "y", "z"])
        .build()
        .unwrap()
}

#[test]
fn item_debug_for_items() {
    let grammar = xyz();
    let rule = &grammar.rules()[1];
    assert_eq!(&show(&rule.item(0)), "A -> . x y z");
    assert_eq!(&show(&rule.item(1)), "A -> x . y z");
    assert_eq!(&show(&rule.item(2)), "A -> x y . z");
    assert_eq!(&show(&rule.item(3)), "A -> x y z .");
}

#[test]
fn item_step_item() {
    let grammar = xyz();
    let mut item = grammar.rules()[1].item(0);
    assert_eq!(&show(&item), "A -> . x y z");
    item = item.step().unwrap();
    assert_eq!(&show(&item), "A -> x . y z");
    item = item.step().unwrap();
    assert_eq!(&show(&item), "A -> x y . z");
    item = item.step().unwrap();
    assert_eq!(&show(&item), "A -> x y z .");
    assert!(item.is_finished());
    assert!(item.step().is_none());
}

#[test]
fn lr0_debug_for_items() {
    let grammar = Grammar::parse("S -> A; A -> x y z;").unwrap();
    let rule = grammar.rules()[1];
    assert_eq!(&show(&Item::new(rule, 0)), "A -> . x y z");
    assert_eq!(&show(&Item::new(rule, 1)), "A -> x . y z");
    assert_eq!(&show(&Item::new(rule, 2)), "A -> x y . z");
    assert_eq!(&show(&Item::new(rule, 3)), "A -> x y z .");
}

#[test]
fn lr0_step_item() {
    let grammar = Grammar::parse("S -> A; A -> x y z;").unwrap();
    let mut item = Item::new(grammar.rules()[1], 0);
    assert_eq!(&show(&item), "A -> . x y z");
    item = item.step().unwrap();
    assert_eq!(&show(&item), "A -> x . y z");
    item = item.step().unwrap();
    assert_eq!(&show(&item), "A -> x y . z");
    item = item.step().unwrap();
    assert_eq!(&show(&item), "A -> x y z .");
    assert!(item.is_finished());
    assert!(item.step().is_none());
}

fn shown(set: &ItemSet) -> BTreeSet<String> {
    set.items().iter().map(show).collect()
}

#[test]
fn closure_adds_start_items() {
    let grammar = Grammar::parse("S -> E; E -> E plus T; E -> T; T -> id;").unwrap();
    let set = ItemSet::singleton(Item::new(grammar.rules()[0], 0));
    let expected: BTreeSet<String> = ["S -> . E", "E -> . E plus T", "E -> . T", "T -> . id"]
        .iter()
        .map(|s| s.to_string())
        .collect();
    assert_eq!(shown(&set), expected);
}

#[test]
fn closure_is_idempotent_on_example() {
    let grammar = Grammar::parse("S -> E; E -> E plus T; E -> T; T -> id;").unwrap();
    let once = ItemSet::singleton(Item::new(grammar.rules()[0], 0));
    let twice = once.closure();
    assert_eq!(shown(&once), shown(&twice));
}

#[test]
fn goto_moves_the_dot() {
    let grammar = Grammar::parse("S -> E; E -> E plus T; E -> T; T -> id;").unwrap();
    let start = ItemSet::singleton(Item::new(grammar.rules()[0], 0));
    let e = grammar.symbol("E").unwrap();
    let next = start.follow(e);
    let expected: BTreeSet<String> = ["S -> E .", "E -> E . plus T"].iter().map(|s| s.to_string()).collect();
    assert_eq!(shown(&next), expected);
    let id = grammar.symbol("id").unwrap();
    assert_eq!(shown(&start.follow(id)), ["T -> id ."].iter().map(|s| s.to_string()).collect());
    let plus = grammar.symbol("plus").unwrap();
    assert!(start.follow(plus).is_empty());
    assert!(ItemSet::empty(&grammar).is_empty());
}

#[test]
fn lr1_item_lookahead_is_sorted() {
    let grammar = Grammar::parse("S -> E; E -> T plus E; E -> T; T -> id;").unwrap();
    let table = parsetab::lr1::ParseTable::build(&grammar, grammar.rules()[0]);
    let states = table.states();
    let items = states[0].items();
    let t_item = items.iter().find(|it| it.rule().index() == 3).unwrap();
    let names: Vec<String> = t_item
        .lookahead()
        .iter()
        .map(|o| match o {
            None => "$".to_string(),
            Some(s) => s.name(),
        })
        .collect();
    assert_eq!(names, vec!["$".to_string(), "plus".to_string()]);
}

#[test]
fn test_macro() {
    let grammar = Grammar::parse("S -> A; A -> x B; B -> y B; B -> ;").unwrap();
    let actual: BTreeSet<String> = grammar.symbols().into_iter().map(|s| s.name()).collect();
    let expected: BTreeSet<String> = ["S", "A", "B", "x", "y"].into_iter().map(|s| s.to_string()).collect();
    assert_eq!(expected, actual);
}

#[test]
fn test_rule() {
    let grammar = Grammar::parse("S -> A; A -> x; A -> y;").unwrap();
    let find = |lhs: &str, rhs: &[&str]| {
        grammar
            .rules()
            .into_iter()
            .find(|r| r.lhs().name() == lhs && r.rhs().iter().map(|s| s.name()).collect::<Vec<_>>() == rhs)
            .unwrap()
            .index()
    };
    assert_eq!(find("S", &["A"]), 0);
    assert_eq!(find("A", &["x"]), 1);
    assert_eq!(find("A", &["y"]), 2);
}

#[test]
fn goto_is_monotone_on_example() {
    let grammar = Grammar::parse("S -> E; E -> E plus T; E -> T; T -> id;").unwrap();
    let small = ItemSet::singleton(Item::new(grammar.rules()[2], 0));
    let large = ItemSet::singleton(Item::new(grammar.rules()[0], 0));
    let t = grammar.symbol("T").unwrap();
    let from_small = shown(&small.follow(t));
    let from_large = shown(&large.follow(t));
    assert!(from_small.is_subset(&from_large));
    assert_eq!(from_small, ["E -> T ."].iter().map(|s| s.to_string()).collect());
}

#[test]
fn empty_item_set_has_no_items() {
    let grammar = Grammar::parse("S -> E; E -> id;").unwrap();
    let empty = ItemSet::empty(&grammar);
    assert!(empty.is_empty());
    assert!(empty.items().is_empty());
    let id = grammar.symbol("id").unwrap();
    assert!(empty.follow(id).is_empty());
}
