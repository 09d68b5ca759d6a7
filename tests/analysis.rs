use std::collections::BTreeSet;

use parsetab::{Grammar, GrammarAnalysis, GrammarError, Symbol};

fn names(symbols: Vec<Symbol>) -> BTreeSet<String> {
    symbols.into_iter().map(|s| s.name()).collect()
}

fn set(names: &[&str]) -> BTreeSet<String> {
    names.iter().map(|s| s.to_string()).collect()
}

fn parse(text: &str) -> Grammar {
    Grammar::parse(text).unwrap()
}

#[test]
fn grammar_test_grammar() {
    let grammar = parse("S -> A; A -> B x; B -> y A; B -> y y;");
    let actual: BTreeSet<String> = grammar.symbols().into_iter().map(|s| s.name()).collect();
    assert_eq!(actual, set(&["x", "y", "A", "B", "S"]));
}

#[test]
fn grammar_test_nullables() {
    let grammar = parse("S -> A; A -> ; B -> ; A -> x; C -> y; D -> y; D -> B; E -> A B;");
    let analysis = GrammarAnalysis::build(&grammar);
    assert_eq!(names(analysis.nullables()), set(&["S", "A", "B", "D", "E"]));
}

#[test]
fn grammar_test_nullables_with_empty() {
    let grammar = parse("S -> A; A -> x; A -> ; B -> A; C -> x;");
    let analysis = GrammarAnalysis::build(&grammar);
    assert_eq!(names(analysis.nullables()), set(&["S", "A", "B"]));
}

#[test]
fn grammar_test_follow_simple() {
    let grammar = parse("S -> A; A -> x; A -> ; B -> A x; B -> A y;");
    let a = grammar.symbol("A").unwrap();
    let b = grammar.symbol("B").unwrap();
    let analysis = GrammarAnalysis::build(&grammar);
    assert_eq!(names(analysis.follow(a)), set(&["x", "y"]));
    assert_eq!(names(analysis.follow(b)), set(&[]));
}

#[test]
fn grammar_test_first() {
    let grammar = parse("S -> A; A -> x; A -> y;");
    let a = grammar.symbol("A").unwrap();
    let analysis = GrammarAnalysis::build(&grammar);
    assert_eq!(names(analysis.first(a)), set(&["x", "y"]));
}

#[test]
fn grammar_test_empty() {
    let grammar = parse("S -> A; A -> x; A -> ; B -> A; C -> x;");
    let analysis = GrammarAnalysis::build(&grammar);
    assert_eq!(names(analysis.nullables()), set(&["S", "A", "B"]));
}

#[test]
fn grammar_test_first_with_empty() {
    let grammar = parse("S -> A; A -> x; A -> ; B -> A x;");
    let a = grammar.symbol("A").unwrap();
    let b = grammar.symbol("B").unwrap();
    let analysis = GrammarAnalysis::build(&grammar);
    assert_eq!(names(analysis.first(a)), set(&["x"]));
    assert_eq!(names(analysis.first(b)), set(&["x"]));
}

#[test]
fn grammar_test_first_left_recursion() {
    let grammar = parse("S -> A; A -> x; A -> A x;");
    let a = grammar.symbol("A").unwrap();
    let analysis = GrammarAnalysis::build(&grammar);
    assert_eq!(names(analysis.first(a)), set(&["x"]));
}

#[test]
fn grammar_test_first_mutual_recursion() {
    let grammar = parse("S -> A; A -> x; A -> B; B -> A;");
    let a = grammar.symbol("A").unwrap();
    let analysis = GrammarAnalysis::build(&grammar);
    assert_eq!(names(analysis.first(a)), set(&["x"]));
}

#[test]
fn grammar_test_follow_nullable() {
    let grammar = parse("S -> A; A -> x; B -> A y; B -> A C z; C -> ;");
    let a = grammar.symbol("A").unwrap();
    let analysis = GrammarAnalysis::build(&grammar);
    assert_eq!(names(analysis.follow(a)), set(&["y", "z"]));
}

#[test]
fn grammar_test_follow_nullable2() {
    let grammar = parse("S -> A; A -> B C D; B -> x; B -> ; C -> y; C -> ; D -> ; E -> A z;");
    let b = grammar.symbol("B").unwrap();
    let analysis = GrammarAnalysis::build(&grammar);
    assert_eq!(names(analysis.follow(b)), set(&["y", "z"]));
}

#[test]
fn test_follow_nullable3() {
    let grammar = parse("S -> A; A -> B C D; B -> x; C -> y; D -> z;");
    let b = grammar.symbol("B").unwrap();
    let analysis = GrammarAnalysis::build(&grammar);
    assert_eq!(names(analysis.follow(b)), set(&["y"]));
}

#[test]
fn grammar_test_first2() {
    let grammar = parse("S -> A; A -> B; B -> C; C -> D y; D -> x; D -> ;");
    let analysis = GrammarAnalysis::build(&grammar);
    let a = grammar.symbol("A").unwrap();
    let b = grammar.symbol("B").unwrap();
    let c = grammar.symbol("C").unwrap();
    let d = grammar.symbol("D").unwrap();
    assert_eq!(names(analysis.first(a)), set(&["x", "y"]));
    assert_eq!(names(analysis.first(b)), set(&["x", "y"]));
    assert_eq!(names(analysis.first(c)), set(&["x", "y"]));
    assert_eq!(names(analysis.first(d)), set(&["x"]));
}

#[test]
fn grammar_test_first_nullable() {
    let grammar = parse("S -> A; A -> A x; A -> ;");
    let analysis = GrammarAnalysis::build(&grammar);
    let a = grammar.symbol("A").unwrap();
    assert_eq!(names(analysis.first(a)), set(&["x"]));
}

#[test]
fn grammar_test_is_terminal() {
    let grammar = parse("S -> A; A -> A x; A -> ;");
    let a = grammar.symbol("A").unwrap();
    let x = grammar.symbol("x").unwrap();
    assert!(!a.is_terminal());
    assert!(x.is_terminal());
}

#[test]
fn test_is_nullable_seq() {
    let grammar = parse("S -> A; A -> A x; A -> ; B -> A A A; B -> x;");
    let a = grammar.symbol("A").unwrap();
    let b = grammar.symbol("B").unwrap();
    let x = grammar.symbol("x").unwrap();
    let analysis = GrammarAnalysis::build(&grammar);
    assert!(analysis.is_nullable_seq(&[a, b]));
    assert!(analysis.is_nullable_seq(&[]));
    assert!(analysis.is_nullable_seq(&[a, a, a, a]));
    assert!(!analysis.is_nullable_seq(&[x, b]));
}

#[test]
fn test_first_seq() {
    let grammar = parse("S -> A; A -> A x; A -> ; B -> A A A; B -> y;");
    let a = grammar.symbol("A").unwrap();
    let b = grammar.symbol("B").unwrap();
    let y = grammar.symbol("y").unwrap();
    let analysis = GrammarAnalysis::build(&grammar);
    assert_eq!(names(analysis.first_seq(&[])), set(&[]));
    assert_eq!(names(analysis.first_seq(&[a])), names(analysis.first(a)));
    assert_eq!(names(analysis.first_seq(&[b])), names(analysis.first(b)));
    assert_eq!(names(analysis.first_seq(&[a, b])), set(&["x", "y"]));
    assert_eq!(names(analysis.first_seq(&[a, y])), set(&["x", "y"]));
}

#[test]
fn test_can_end_with() {
    let grammar = parse("S -> A; A -> x; A -> ; A -> B; A -> C B; B -> y; C -> x;");
    let a = grammar.symbol("A").unwrap();
    let b = grammar.symbol("B").unwrap();
    let c = grammar.symbol("C").unwrap();
    let analysis = GrammarAnalysis::build(&grammar);
    assert!(analysis.can_end_with(a, a));
    assert!(analysis.can_end_with(a, b));
    assert!(!analysis.can_end_with(a, c));
    assert!(!analysis.can_end_with(b, a));
    assert!(analysis.can_end_with(b, b));
    assert!(!analysis.can_end_with(b, c));
    assert!(!analysis.can_end_with(c, a));
    assert!(!analysis.can_end_with(c, b));
    assert!(analysis.can_end_with(c, c));
}

#[test]
fn tests_test_grammar() {
    // A first rule with two symbols on its right is not a start rule.
    let built = Grammar::new()
        .symbol("x")
        .symbol("y")
        .symbol("A")
        .symbol("B")
        .rule("A", &["B", "x"])
        .rule("B", &["y", "A"])
        .rule("B", &["y", "y"])
        .build();
    assert!(matches!(built, Err(GrammarError::MalformedStartRule)));
    let grammar = Grammar::new()
        .symbol("x")
        .symbol("y")
        .symbol("A")
        .symbol("B")
        .rule("A", &["B"])
        .rule("B", &["y", "A"])
        .rule("B", &["y", "y"])
        .build()
        .unwrap();
    let actual: Vec<String> = grammar.symbols().into_iter().map(|s| s.name()).collect();
    let expected: Vec<String> = vec!["x", "y", "A", "B"].into_iter().map(|s| s.to_string()).collect();
    assert_eq!(expected, actual);
}

#[test]
fn tests_test_nullables() {
    // The first rule has an empty right side, so it is not a start rule.
    let built = Grammar::new()
        .symbol("x")
        .symbol("y")
        .symbol("A")
        .symbol("B")
        .symbol("C")
        .symbol("D")
        .symbol("E")
        .rule("A", &[])
        .rule("B", &[])
        .rule("A", &["x"])
        .rule("C", &["y"])
        .rule("D", &["y"])
        .rule("D", &["B"])
        .rule("E", &["A", "B"])
        .build();
    assert!(matches!(built, Err(GrammarError::MalformedStartRule)));
}

#[test]
fn tests_test_nullables_with_empty() {
    let grammar = Grammar::new()
        .symbol("x")
        .symbol("A")
        .symbol("B")
        .symbol("C")
        .rule("A", &["x"])
        .rule("A", &[])
        .rule("B", &["A"])
        .rule("C", &["x"])
        .build()
        .unwrap();
    let analysis = GrammarAnalysis::build(&grammar);
    assert_eq!(names(analysis.nullables()), set(&["A", "B"]));
}

#[test]
fn tests_test_follow_simple() {
    let grammar = Grammar::new()
        .symbol("x")
        .symbol("y")
        .symbol("A")
        .symbol("B")
        .rule("A", &["x"])
        .rule("A", &[])
        .rule("B", &["A", "x"])
        .rule("B", &["A", "y"])
        .build()
        .unwrap();
    let a = grammar.symbol("A").unwrap();
    let b = grammar.symbol("B").unwrap();
    let analysis = GrammarAnalysis::build(&grammar);
    assert_eq!(names(analysis.follow(a)), set(&["x", "y"]));
    assert_eq!(names(analysis.follow(b)), set(&[]));
}

#[test]
fn tests_test_first() {
    let grammar = Grammar::new()
        .symbol("x")
        .symbol("y")
        .symbol("A")
        .rule("A", &["x"])
        .rule("A", &["y"])
        .build()
        .unwrap();
    let a = grammar.symbol("A").unwrap();
    let analysis = GrammarAnalysis::build(&grammar);
    assert_eq!(names(analysis.first(a)), set(&["x", "y"]));
}

#[test]
fn tests_test_empty() {
    let grammar = Grammar::new()
        .symbol("x")
        .symbol("A")
        .symbol("B")
        .symbol("C")
        .rule("A", &["x"])
        .rule("A", &[])
        .rule("B", &["A"])
        .rule("C", &["x"])
        .build()
        .unwrap();
    let analysis = GrammarAnalysis::build(&grammar);
    assert_eq!(names(analysis.nullables()), set(&["A", "B"]));
}

#[test]
fn tests_test_first_with_empty() {
    let grammar = Grammar::new()
        .symbol("x")
        .symbol("A")
        .symbol("B")
        .rule("A", &["x"])
        .rule("A", &[])
        .rule("B", &["A", "x"])
        .build()
        .unwrap();
    let a = grammar.symbol("A").unwrap();
    let b = grammar.symbol("B").unwrap();
    let analysis = GrammarAnalysis::build(&grammar);
    assert_eq!(names(analysis.first(a)), set(&["x"]));
    assert_eq!(names(analysis.first(b)), set(&["x"]));
}

#[test]
fn tests_test_first_left_recursion() {
    let grammar = Grammar::new()
        .symbol("x")
        .symbol("A")
        .rule("A", &["x"])
        .rule("A", &["A", "x"])
        .build()
        .unwrap();
    let a = grammar.symbol("A").unwrap();
    let analysis = GrammarAnalysis::build(&grammar);
    assert_eq!(names(analysis.first(a)), set(&["x"]));
}

#[test]
fn tests_test_first_mutual_recursion() {
    let grammar = Grammar::new()
        .symbol("x")
        .symbol("A")
        .symbol("B")
        .rule("A", &["x"])
        .rule("A", &["B"])
        .rule("B", &["A"])
        .build()
        .unwrap();
    let a = grammar.symbol("A").unwrap();
    let analysis = GrammarAnalysis::build(&grammar);
    assert_eq!(names(analysis.first(a)), set(&["x"]));
}

#[test]
fn tests_test_follow_nullable() {
    let grammar = Grammar::new()
        .symbol("x")
        .symbol("y")
        .symbol("z")
        .symbol("A")
        .symbol("B")
        .symbol("C")
        .rule("A", &["x"])
        .rule("B", &["A", "y"])
        .rule("B", &["A", "C", "z"])
        .rule("C", &[])
        .build()
        .unwrap();
    let a = grammar.symbol("A").unwrap();
    let analysis = GrammarAnalysis::build(&grammar);
    assert_eq!(names(analysis.follow(a)), set(&["y", "z"]));
}

#[test]
fn tests_test_follow_nullable2() {
    // The first rule has three symbols on its right, so it is not a start rule.
    let built = Grammar::new()
        .symbol("x")
        .symbol("y")
        .symbol("z")
        .symbol("A")
        .symbol("B")
        .symbol("C")
        .symbol("D")
        .symbol("E")
        .rule("A", &["B", "C", "D"])
        .rule("B", &["x"])
        .rule("B", &[])
        .rule("C", &["y"])
        .rule("C", &[])
        .rule("D", &[])
        .rule("E", &["A", "z"])
        .build();
    assert!(matches!(built, Err(GrammarError::MalformedStartRule)));
}

#[test]
fn tests_test_first2() {
    let grammar = Grammar::new()
        .symbol("x")
        .symbol("y")
        .symbol("A")
        .symbol("B")
        .symbol("C")
        .symbol("D")
        .rule("A", &["B"])
        .rule("B", &["C"])
        .rule("C", &["D", "y"])
        .rule("D", &["x"])
        .rule("D", &[])
        .build()
        .unwrap();
    let analysis = GrammarAnalysis::build(&grammar);
    let a = grammar.symbol("A").unwrap();
    let b = grammar.symbol("B").unwrap();
    let c = grammar.symbol("C").unwrap();
    let d = grammar.symbol("D").unwrap();
    assert_eq!(names(analysis.first(a)), set(&["x", "y"]));
    assert_eq!(names(analysis.first(b)), set(&["x", "y"]));
    assert_eq!(names(analysis.first(c)), set(&["x", "y"]));
    assert_eq!(names(analysis.first(d)), set(&["x"]));
}

#[test]
fn tests_test_first_nullable() {
    // The first rule has two symbols on its right, so it is not a start rule.
    let built = Grammar::new()
        .symbol("x")
        .symbol("A")
        .rule("A", &["A", "x"])
        .rule("A", &[])
        .build();
    assert!(matches!(built, Err(GrammarError::MalformedStartRule)));
}

#[test]
fn tests_test_is_terminal() {
    let grammar = Grammar::new()
        .symbol("x")
        .symbol("A")
        .symbol("S")
        .rule("S", &["A"])
        .rule("A", &["A", "x"])
        .rule("A", &[])
        .build()
        .unwrap();
    let a = grammar.symbol("A").unwrap();
    let x = grammar.symbol("x").unwrap();
    assert!(!a.is_terminal());
    assert!(x.is_terminal());
}

#[test]
fn builder_reports_duplicate_symbol() {
    let built = Grammar::new().symbol("x").symbol("S").symbol("x").rule("S", &["x"]).build();
    assert!(matches!(built, Err(GrammarError::DuplicateSymbol(ref s)) if s == "x"));
}

#[test]
fn builder_reports_unknown_symbol() {
    let built = Grammar::new().symbol("S").rule("S", &["y"]).build();
    assert!(matches!(built, Err(GrammarError::UnknownSymbol(ref s)) if s == "y"));
}

#[test]
fn builder_reports_missing_rules() {
    let built = Grammar::new().symbol("S").build();
    assert!(matches!(built, Err(GrammarError::MalformedStartRule)));
}

#[test]
fn parse_reports_syntax_errors() {
    assert!(matches!(Grammar::parse("S -> A"), Err(GrammarError::Syntax)));
    assert!(matches!(Grammar::parse("S A;"), Err(GrammarError::Syntax)));
    assert!(matches!(Grammar::parse("S -> A B;"), Err(GrammarError::MalformedStartRule)));
}

#[test]
fn start_symbol_is_nullable_through_start_rule() {
    let grammar = parse("S -> A; A -> ;");
    let analysis = GrammarAnalysis::build(&grammar);
    let s = grammar.symbol("S").unwrap();
    assert!(analysis.is_nullable(s));
    assert_eq!(grammar.start_rule().index(), 0);
    assert_eq!(names(grammar.terminals()), set(&[]));
    assert_eq!(names(grammar.nonterminals()), set(&["S", "A"]));
}

#[test]
fn first_of_terminal_sequence_is_the_terminal() {
    let grammar = parse("S -> A; A -> x y;");
    let x = grammar.symbol("x").unwrap();
    let y = grammar.symbol("y").unwrap();
    let analysis = GrammarAnalysis::build(&grammar);
    assert_eq!(names(analysis.first_seq(&[x])), set(&["x"]));
    assert_eq!(names(analysis.first_seq(&[y, x])), set(&["y"]));
}

#[test]
fn nullable_sequence_concatenation() {
    let grammar = parse("S -> A; A -> ; B -> x;");
    let a = grammar.symbol("A").unwrap();
    let b = grammar.symbol("B").unwrap();
    let analysis = GrammarAnalysis::build(&grammar);
    assert!(analysis.is_nullable_seq(&[a, a]));
    assert!(!analysis.is_nullable_seq(&[a, b]));
    assert_eq!(analysis.is_nullable_seq(&[a]), analysis.is_nullable_seq(&[a]));
}

#[test]
fn parse_declares_symbols_in_order_of_first_use() {
    let grammar = parse("S -> A; A -> x B; B -> ;");
    let actual: Vec<String> = grammar.symbols().into_iter().map(|s| s.name()).collect();
    assert_eq!(actual, vec!["S", "A", "x", "B"]);
    let rules = grammar.rules();
    assert_eq!(rules.len(), 3);
    assert_eq!(rules[1].lhs().name(), "A");
    let rhs: Vec<String> = rules[1].rhs().into_iter().map(|s| s.name()).collect();
    assert_eq!(rhs, vec!["x", "B"]);
    assert_eq!(rules[2].rhs().len(), 0);
}

#[test]
fn parse_accepts_names_without_spaces_around_separators() {
    let grammar = parse("S->A;A->x;");
    assert_eq!(grammar.rules().len(), 2);
    assert!(matches!(Grammar::parse(""), Err(GrammarError::MalformedStartRule)));
    assert!(matches!(Grammar::parse("S -> ;"), Err(GrammarError::MalformedStartRule)));
    assert!(matches!(Grammar::parse("-> A;"), Err(GrammarError::Syntax)));
}

#[test]
fn first_of_terminal_is_itself() {
    let grammar = parse("S -> A; A -> x y;");
    let x = grammar.symbol("x").unwrap();
    let analysis = GrammarAnalysis::build(&grammar);
    assert_eq!(names(analysis.first(x)), set(&["x"]));
}
