use ll1_parser::parser::{Parser, Symbol};

fn nt(s: &str) -> Symbol {
    Symbol::Nonterminal(s.to_string())
}

fn tm(s: &str) -> Symbol {
    Symbol::Terminal(s.to_string())
}

/// The arithmetic-expression grammar the library is built to demonstrate:
/// E -> T E', E' -> + T E' | - T E' | epsilon, T -> F T',
/// T' -> * F T' | / F T' | epsilon, F -> ( E ) | num, start symbol E.
fn demo_parser() -> Parser {
    let mut p = Parser::new();
    p.add_rule("E", vec![nt("T"), nt("E'")]);
    p.add_rule("E'", vec![tm("+"), nt("T"), nt("E'")]);
    p.add_rule("E'", vec![tm("-"), nt("T"), nt("E'")]);
    p.add_rule("E'", vec![]);
    p.add_rule("T", vec![nt("F"), nt("T'")]);
    p.add_rule("T'", vec![tm("*"), nt("F"), nt("T'")]);
    p.add_rule("T'", vec![tm("/"), nt("F"), nt("T'")]);
    p.add_rule("T'", vec![]);
    p.add_rule("F", vec![tm("("), nt("E"), tm(")")]);
    p.add_rule("F", vec![tm("num")]);
    p.set_start_symbol("E");
    p
}

fn lookup<'a>(sets: &'a [(String, Vec<String>)], name: &str) -> &'a Vec<String> {
    for (k, v) in sets {
        if k == name {
            return v;
        }
    }
    panic!("no set stored for {}", name);
}

fn same_lexemes(got: &[String], expect: &[&str]) -> bool {
    got.len() == expect.len() && expect.iter().all(|e| got.iter().any(|g| g == e))
}

#[test]
fn first_sets_of_demo_grammar() {
    let mut p = demo_parser();
    p.getFirst();
    let first = p.first_sets();
    assert!(same_lexemes(lookup(first, "E"), &["(", "num"]));
    assert!(same_lexemes(lookup(first, "T"), &["(", "num"]));
    assert!(same_lexemes(lookup(first, "F"), &["(", "num"]));
    assert!(same_lexemes(lookup(first, "E'"), &["+", "-", ""]));
    assert!(same_lexemes(lookup(first, "T'"), &["*", "/", ""]));
}

#[test]
fn first_of_epsilon_alternative_holds_epsilon_marker() {
    let mut p = demo_parser();
    p.getFirst();
    let first = p.first_sets();
    assert!(lookup(first, "E'").iter().any(|s| s.is_empty()));
    assert!(lookup(first, "T'").iter().any(|s| s.is_empty()));
    assert!(!lookup(first, "E").iter().any(|s| s.is_empty()));
}

#[test]
fn first_computation_is_a_fixed_point() {
    let mut p = demo_parser();
    p.getFirst();
    let once = p.first_sets().clone();
    p.getFirst();
    let twice = p.first_sets().clone();
    assert_eq!(once, twice);
}

#[test]
fn follow_of_start_symbol_holds_end_marker() {
    let mut p = demo_parser();
    p.getFirst();
    p.getFollow();
    assert!(lookup(p.follow_sets(), "E").iter().any(|s| s == "$"));
}

#[test]
fn follow_sets_of_demo_grammar() {
    let mut p = demo_parser();
    p.getFirst();
    p.getFollow();
    let follow = p.follow_sets();
    assert!(same_lexemes(lookup(follow, "E"), &["$", ")"]));
    assert!(same_lexemes(lookup(follow, "E'"), &["$", ")"]));
    assert!(same_lexemes(lookup(follow, "T"), &["+", "-", "$", ")"]));
    assert!(same_lexemes(lookup(follow, "T'"), &["+", "-", "$", ")"]));
    assert!(same_lexemes(lookup(follow, "F"), &["*", "/", "+", "-", "$", ")"]));
}

#[test]
fn follow_computation_is_a_fixed_point() {
    let mut p = demo_parser();
    p.getFirst();
    p.getFollow();
    let once = p.follow_sets().clone();
    p.getFollow();
    let twice = p.follow_sets().clone();
    assert_eq!(once, twice);
}

fn cell<'a>(
    table: &'a [((String, String), (String, Vec<Symbol>))],
    a: &str,
    la: &str,
) -> Option<&'a (String, Vec<Symbol>)> {
    for ((k0, k1), v) in table {
        if k0 == a && k1 == la {
            return Some(v);
        }
    }
    None
}

#[test]
fn table_resolves_epsilon_cells_through_follow() {
    let mut p = demo_parser();
    p.getFirst();
    p.getFollow();
    let conflicted = p.getTable();
    assert!(!conflicted);
    let table = p.table_cells();
    let end_cell = cell(table, "E'", "$").expect("cell (E', $) missing");
    assert_eq!(end_cell.0, "E'");
    assert!(end_cell.1.is_empty());
    let paren_cell = cell(table, "E'", ")").expect("cell (E', )) missing");
    assert_eq!(paren_cell.0, "E'");
    assert!(paren_cell.1.is_empty());
}

#[test]
fn table_of_demo_grammar_is_total_on_predicted_cells() {
    let mut p = demo_parser();
    p.getFirst();
    p.getFollow();
    let conflicted = p.getTable();
    assert!(!conflicted);
    let table = p.table_cells();
    assert_eq!(table.len(), 16);
    assert_eq!(cell(table, "E", "num").unwrap().1, vec![nt("T"), nt("E'")]);
    assert_eq!(cell(table, "E", "(").unwrap().1, vec![nt("T"), nt("E'")]);
    assert_eq!(
        cell(table, "E'", "+").unwrap().1,
        vec![tm("+"), nt("T"), nt("E'")]
    );
    assert_eq!(
        cell(table, "T'", "*").unwrap().1,
        vec![tm("*"), nt("F"), nt("T'")]
    );
    assert_eq!(cell(table, "T'", "+").unwrap().1, Vec::<Symbol>::new());
    assert_eq!(cell(table, "F", "num").unwrap().1, vec![tm("num")]);
    assert_eq!(
        cell(table, "F", "(").unwrap().1,
        vec![tm("("), nt("E"), tm(")")]
    );
    assert!(cell(table, "E", "+").is_none());
    assert!(cell(table, "T", "$").is_none());
}

#[test]
fn conflicting_grammar_is_reported() {
    let mut p = Parser::new();
    p.add_rule("S", vec![tm("a")]);
    p.add_rule("S", vec![tm("a"), tm("b")]);
    p.set_start_symbol("S");
    p.getFirst();
    p.getFollow();
    let conflicted = p.getTable();
    assert!(conflicted);
}

#[test]
fn dangling_reference_leaves_no_table_cells() {
    let mut p = Parser::new();
    p.add_rule("S", vec![nt("A")]);
    p.set_start_symbol("S");
    p.getFirst();
    p.getFollow();
    let conflicted = p.getTable();
    assert!(!conflicted);
    assert!(p.table_cells().is_empty());
}
