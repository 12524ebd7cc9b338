use expert_system::{parse_query, Expected, ParseError, Query, Rule};
use std::collections::BTreeSet;

fn c(x: char) -> Rule {
    Rule::Char(x)
}

fn not(a: Rule) -> Rule {
    Rule::Not(Box::new(a))
}

fn and(a: Rule, b: Rule) -> Rule {
    Rule::And(Box::new(a), Box::new(b))
}

fn or(a: Rule, b: Rule) -> Rule {
    Rule::Or(Box::new(a), Box::new(b))
}

fn xor(a: Rule, b: Rule) -> Rule {
    Rule::Xor(Box::new(a), Box::new(b))
}

fn if_then(a: Rule, b: Rule) -> Rule {
    Rule::IfThen(Box::new(a), Box::new(b))
}

fn iff(a: Rule, b: Rule) -> Rule {
    Rule::IfAndOnlyIf(Box::new(a), Box::new(b))
}

fn atoms(v: &[char]) -> BTreeSet<char> {
    v.iter().cloned().collect()
}

fn rule_of(line: &str) -> Rule {
    match parse_query(line) {
        Ok(Query::Rule(r)) => r,
        other => panic!("not a rule: {:?}", other),
    }
}

#[test]
fn parses_implication_with_spaces() {
    assert_eq!(rule_of("A + B => C"), if_then(and(c('A'), c('B')), c('C')));
    assert_eq!(rule_of("a+b=>c"), if_then(and(c('A'), c('B')), c('C')));
}

#[test]
fn parses_precedence_and_grouping() {
    assert_eq!(rule_of("A + B | C ^ D => E"), if_then(xor(or(and(c('A'), c('B')), c('C')), c('D')), c('E')));
    assert_eq!(rule_of("A | B + C => D"), if_then(or(c('A'), and(c('B'), c('C'))), c('D')));
    assert_eq!(rule_of("(A | B) + C => D"), if_then(and(or(c('A'), c('B')), c('C')), c('D')));
    assert_eq!(rule_of("A + B + C => D"), if_then(and(and(c('A'), c('B')), c('C')), c('D')));
}

#[test]
fn parses_negation_and_equivalence() {
    assert_eq!(rule_of("!A <=> !(B | C)"), iff(not(c('A')), not(or(c('B'), c('C')))));
}

#[test]
fn parses_given_find_dump_delete() {
    match parse_query("=AbC") {
        Ok(Query::Given(f)) => {
            assert_eq!(atoms(&f.yes), atoms(&['A', 'B', 'C']));
            assert!(f.no.is_empty() && f.unknown.is_empty());
        }
        other => panic!("{:?}", other),
    }
    match parse_query("=") {
        Ok(Query::Given(f)) => assert!(f.yes.is_empty()),
        other => panic!("{:?}", other),
    }
    match parse_query("?xY") {
        Ok(Query::Find(f)) => {
            assert_eq!(atoms(&f.unknown), atoms(&['X', 'Y']));
            assert!(f.yes.is_empty());
        }
        other => panic!("{:?}", other),
    }
    assert!(matches!(parse_query("dump"), Ok(Query::Dump)));
    match parse_query("delete A => B") {
        Ok(Query::Delete(r)) => assert_eq!(r, if_then(c('A'), c('B'))),
        other => panic!("{:?}", other),
    }
}

#[test]
fn reports_offset_and_expectation() {
    assert_eq!(parse_query("?").err(), Some(ParseError { offset: 1, expected: Expected::Letter }));
    assert_eq!(parse_query("=AB1").err(), Some(ParseError { offset: 3, expected: Expected::Letter }));
    assert_eq!(parse_query("A + => B").err(), Some(ParseError { offset: 4, expected: Expected::Operand }));
    assert_eq!(parse_query("A + B").err(), Some(ParseError { offset: 5, expected: Expected::Arrow }));
    assert_eq!(parse_query("(A => B").err(), Some(ParseError { offset: 3, expected: Expected::CloseParen }));
    assert_eq!(parse_query("A => B )").err(), Some(ParseError { offset: 7, expected: Expected::End }));
    assert_eq!(parse_query("").err(), Some(ParseError { offset: 0, expected: Expected::Operand }));
}

#[test]
fn printed_rule_reads_back() {
    let r = if_then(and(or(c('A'), c('B')), not(c('C'))), xor(c('D'), not(and(c('E'), c('F')))));
    assert_eq!(rule_of(&r.to_string()), r);
}
