use ll1_parser::parser::{ParseError, Parser, Symbol};
use ll1_parser::rule::Rule;
use ll1_parser::rule::Symbol as RuleSymbol;

fn nt(s: &str) -> Symbol {
    Symbol::Nonterminal(s.to_string())
}

fn tm(s: &str) -> Symbol {
    Symbol::Terminal(s.to_string())
}

fn demo_parser() -> Parser {
    let mut p = Parser::new();
    p.add_rule("E", vec![nt("T"), nt("E'")]);
    p.add_rule("E'", vec![tm("+"), nt("T"), nt("E'")]);
    p.add_rule("E'", vec![tm("-"), nt("T"), nt("E'")]);
    p.add_rule("E'", vec![]);
    p.add_rule("T", vec![nt("F"), nt("T'")]);
    p.add_rule("T'", vec![tm("*"), nt("F"), nt("T'")]);
    p.add_rule("T'", vec![tm("/"), nt("F"), nt("T'")]);
    p.add_rule("T'", vec![]);
    p.add_rule("F", vec![tm("("), nt("E"), tm(")")]);
    p.add_rule("F", vec![tm("num")]);
    p.set_start_symbol("E");
    p
}

fn toks(ts: &[&str]) -> Vec<String> {
    ts.iter().map(|s| s.to_string()).collect()
}

#[test]
fn accepts_sum_of_products() {
    let mut p = demo_parser();
    let input = toks(&["num", "+", "num", "*", "num", "$"]);
    let trace = p.parse(&input).expect("num+num*num should be accepted");
    assert!(!trace.is_empty());
    // The first step expands the start symbol with E -> T E'.
    let first = &trace[0];
    assert_eq!(first.stack, vec![tm("$"), nt("E")]);
    assert_eq!(first.remaining, input);
    let (head, body) = first.expansion.as_ref().expect("an expansion step");
    assert_eq!(head, "E");
    assert_eq!(body, &vec![nt("T"), nt("E'")]);
}

#[test]
fn consuming_transitions_match_input_length() {
    // Every accepted input consumes one transition per terminal, the end
    // marker included; its match is the accepting transition and emits no
    // record, so the trace shows one match record per other token.
    let mut p = demo_parser();
    let input = toks(&["num", "+", "num", "*", "num", "$"]);
    let trace = p.parse(&input).expect("accepted");
    let matches = trace.iter().filter(|r| r.expansion.is_none()).count();
    assert_eq!(matches + 1, input.len());
    // The last emitted record still carries unconsumed input.
    assert!(!trace.last().unwrap().remaining.is_empty());
}

#[test]
fn rejects_truncated_sum() {
    let mut p = demo_parser();
    let input = toks(&["num", "+", "$"]);
    match p.parse(&input) {
        Err(ParseError::NoProduction {
            nonterminal,
            lookahead,
            at,
        }) => {
            assert_eq!(nonterminal, "T");
            assert_eq!(lookahead, "$");
            assert_eq!(at, 2);
        }
        other => panic!("expected a no-production failure, got {:?}", other),
    }
}

#[test]
fn rejects_unbalanced_parenthesis() {
    let mut p = Parser::new();
    p.add_rule("S", vec![tm("("), nt("A"), tm(")")]);
    p.add_rule("A", vec![tm("num")]);
    p.set_start_symbol("S");
    let input = toks(&["(", "num", "$"]);
    match p.parse(&input) {
        Err(ParseError::UnexpectedTerminal {
            expected,
            found,
            at,
        }) => {
            assert_eq!(expected, ")");
            assert_eq!(found, "$");
            assert_eq!(at, 2);
        }
        other => panic!("expected an unexpected-terminal failure, got {:?}", other),
    }
}

#[test]
fn rejects_lookahead_with_no_start_expansion() {
    let mut p = demo_parser();
    let input = toks(&["$"]);
    match p.parse(&input) {
        Err(ParseError::NoProduction {
            nonterminal,
            lookahead,
            at,
        }) => {
            assert_eq!(nonterminal, "E");
            assert_eq!(lookahead, "$");
            assert_eq!(at, 0);
        }
        other => panic!("expected a no-production failure, got {:?}", other),
    }
}

#[test]
fn exhausted_step_budget_is_reported() {
    let mut p = demo_parser();
    let input = toks(&["num", "$"]);
    match p.parse_with_limit(&input, 0) {
        Err(ParseError::StepLimit) => {}
        other => panic!("expected the step limit, got {:?}", other),
    }
}

#[test]
fn accepts_parenthesized_expression() {
    let mut p = demo_parser();
    let input = toks(&["(", "num", "-", "num", ")", "/", "num", "$"]);
    let trace = p.parse(&input).expect("(num-num)/num should be accepted");
    let matches = trace.iter().filter(|r| r.expansion.is_none()).count();
    assert_eq!(matches + 1, input.len());
}

#[test]
fn dangling_reference_fails_only_at_parse_time() {
    let mut p = Parser::new();
    p.add_rule("S", vec![nt("A")]);
    p.set_start_symbol("S");
    let input = toks(&["num", "$"]);
    match p.parse(&input) {
        Err(ParseError::NoProduction { nonterminal, .. }) => {
            assert_eq!(nonterminal, "S");
        }
        other => panic!("expected a no-production failure, got {:?}", other),
    }
}

#[test]
fn standalone_rule_is_constructible() {
    let lhs = RuleSymbol::Nonterminal("E".to_string());
    let rhs = vec![
        RuleSymbol::Nonterminal("T".to_string()),
        RuleSymbol::Terminal("+".to_string()),
    ];
    let _rule = Rule::new(lhs, rhs);
}

#[test]
fn exact_trace_of_single_token_grammar() {
    let mut p = Parser::new();
    p.add_rule("S", vec![tm("num")]);
    p.set_start_symbol("S");
    let input = toks(&["num", "$"]);
    let trace = p.parse(&input).expect("num should be accepted");
    assert_eq!(trace.len(), 2);
    assert_eq!(trace[0].stack, vec![tm("$"), nt("S")]);
    assert_eq!(trace[0].remaining, input);
    assert_eq!(
        trace[0].expansion,
        Some(("S".to_string(), vec![tm("num")]))
    );
    assert_eq!(trace[1].stack, vec![tm("$"), tm("num")]);
    assert_eq!(trace[1].remaining, input);
    assert_eq!(trace[1].expansion, None);
}

#[test]
fn accepts_empty_input_through_epsilon_production() {
    let mut p = Parser::new();
    p.add_rule("S", vec![]);
    p.set_start_symbol("S");
    let input = toks(&["$"]);
    let trace = p.parse(&input).expect("the empty input should be accepted");
    assert_eq!(trace.len(), 1);
    assert_eq!(trace[0].stack, vec![tm("$"), nt("S")]);
    assert_eq!(trace[0].expansion, Some(("S".to_string(), Vec::new())));
}

#[test]
fn unprimed_tail_grammar_rejects_chained_sum() {
    // With alternatives E' -> + T E | - T E (a trailing E instead of E'),
    // every addition demands a whole further expression, so num+num*num is
    // not in the language and the driver fails once the input runs out
    // while E still sits on the stack.
    let mut p = Parser::new();
    p.add_rule("E", vec![nt("T"), nt("E'")]);
    p.add_rule("E'", vec![tm("+"), nt("T"), nt("E")]);
    p.add_rule("E'", vec![tm("-"), nt("T"), nt("E")]);
    p.add_rule("E'", vec![]);
    p.add_rule("T", vec![nt("F"), nt("T'")]);
    p.add_rule("T'", vec![tm("*"), nt("F"), nt("T'")]);
    p.add_rule("T'", vec![tm("/"), nt("F"), nt("T'")]);
    p.add_rule("T'", vec![]);
    p.add_rule("F", vec![tm("("), nt("E"), tm(")")]);
    p.add_rule("F", vec![tm("num")]);
    p.set_start_symbol("E");
    let input = toks(&["num", "+", "num", "*", "num", "$"]);
    match p.parse(&input) {
        Err(ParseError::NoProduction {
            nonterminal,
            lookahead,
            at,
        }) => {
            assert_eq!(nonterminal, "E");
            assert_eq!(lookahead, "$");
            assert_eq!(at, 5);
        }
        other => panic!("expected a no-production failure, got {:?}", other),
    }
}
