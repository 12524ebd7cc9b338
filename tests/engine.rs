use expert_system::{run, Facts, QueryError, Rule, SearchError, Session, Usage};
use std::collections::BTreeSet;

fn c(x: char) -> Rule {
    Rule::Char(x)
}

fn not(a: Rule) -> Rule {
    Rule::Not(Box::new(a))
}

fn and(a: Rule, b: Rule) -> Rule {
    Rule::And(Box::new(a), Box::new(b))
}

fn or(a: Rule, b: Rule) -> Rule {
    Rule::Or(Box::new(a), Box::new(b))
}

fn if_then(a: Rule, b: Rule) -> Rule {
    Rule::IfThen(Box::new(a), Box::new(b))
}

fn atoms(v: &[char]) -> BTreeSet<char> {
    v.iter().cloned().collect()
}

#[test]
fn conjunction_rule_resolves_query() {
    let mut s = Session::new();
    assert!(s.add_rule(if_then(and(c('A'), c('B')), c('C'))));
    s.set_facts(Facts::new(&['A', 'B'], &[], &[]));
    let r = s.find(&Facts::new(&[], &[], &['C'])).unwrap();
    assert_eq!(atoms(&r.yes), atoms(&['A', 'B', 'C']));
    assert!(r.no.is_empty());
    assert!(r.unknown.is_empty());
}

#[test]
fn contradictory_direction_leaves_atom_unknown() {
    let mut s = Session::new();
    s.add_rule(if_then(c('A'), c('B')));
    s.add_rule(if_then(c('B'), c('A')));
    s.set_facts(Facts::new(&[], &['A'], &[]));
    let r = s.find(&Facts::new(&[], &[], &['B'])).unwrap();
    assert_eq!(atoms(&r.unknown), atoms(&['B']));
    assert_eq!(atoms(&r.no), atoms(&['A']));
    assert!(r.yes.is_empty());
}

#[test]
fn self_implication_terminates() {
    let mut s = Session::new();
    s.add_rule(if_then(c('A'), c('A')));
    let r = s.find(&Facts::new(&[], &[], &['A'])).unwrap();
    assert_eq!(atoms(&r.unknown), atoms(&['A']));
}

#[test]
fn long_chain_hits_depth_ceiling() {
    let mut s = Session::new();
    let letters: Vec<char> = ('A'..='X').collect();
    for w in letters.windows(2) {
        s.add_rule(if_then(c(w[1]), c(w[0])));
    }
    assert_eq!(s.find(&Facts::new(&[], &[], &['A'])).err(), Some(QueryError::DepthExceeded));
    assert_eq!(s.find(&Facts::new(&[], &[], &['A'])).err(), Some(QueryError::DepthExceeded));
}

#[test]
fn short_chain_resolves_backwards() {
    let mut s = Session::new();
    s.add_rule(if_then(c('B'), c('A')));
    s.add_rule(if_then(c('C'), c('B')));
    s.set_facts(Facts::new(&['C'], &[], &[]));
    let r = s.find(&Facts::new(&[], &[], &['A'])).unwrap();
    assert_eq!(atoms(&r.yes), atoms(&['A', 'B', 'C']));
    assert!(r.unknown.is_empty());
}

#[test]
fn negated_conclusion_sets_false() {
    let mut s = Session::new();
    s.add_rule(if_then(c('A'), not(c('B'))));
    s.set_facts(Facts::new(&['A'], &[], &[]));
    let r = s.find(&Facts::new(&[], &[], &['B'])).unwrap();
    assert_eq!(atoms(&r.no), atoms(&['B']));
    assert!(r.unknown.is_empty());
}

#[test]
fn query_against_known_facts_returns_them() {
    let mut s = Session::new();
    s.set_facts(Facts::new(&['A'], &['B'], &[]));
    let r = s.find(&Facts::new(&[], &[], &['A'])).unwrap();
    assert_eq!(atoms(&r.yes), atoms(&['A']));
    assert_eq!(atoms(&r.no), atoms(&['B']));
    assert!(r.unknown.is_empty());
}

#[test]
fn contradicting_query_is_error() {
    let mut s = Session::new();
    s.set_facts(Facts::new(&['A'], &[], &[]));
    assert_eq!(s.find(&Facts::new(&[], &['A'], &[])).err(), Some(QueryError::Contradiction));
}

#[test]
fn unresolvable_query_keeps_unknown() {
    let mut s = Session::new();
    s.add_rule(if_then(or(c('A'), c('B')), c('C')));
    let r = s.find(&Facts::new(&[], &[], &['C'])).unwrap();
    assert!(r.unknown.contains(&'C'));
    assert!(r.yes.is_empty());
}

#[test]
fn delete_absent_rule_leaves_rules_unchanged() {
    let mut s = Session::new();
    s.add_rule(if_then(c('A'), c('B')));
    s.add_rule(if_then(c('B'), c('C')));
    let (before, _) = s.dump();
    assert!(!s.delete_rule(&if_then(c('C'), c('D'))));
    let (after, _) = s.dump();
    assert_eq!(before, after);
    assert!(s.delete_rule(&if_then(c('A'), c('B'))));
    assert_eq!(s.rules, vec![if_then(c('B'), c('C'))]);
    assert!(!s.delete_rule(&if_then(c('A'), c('B'))));
}

#[test]
fn add_rule_keeps_one_copy() {
    let mut s = Session::new();
    assert!(s.add_rule(if_then(c('A'), c('B'))));
    assert!(!s.add_rule(if_then(c('A'), c('B'))));
    assert_eq!(s.rules.len(), 1);
}

#[test]
fn dump_copies_rules_and_facts() {
    let mut s = Session::new();
    s.add_rule(if_then(c('A'), c('B')));
    s.set_facts(Facts::new(&['A'], &['C'], &[]));
    let (rules, facts) = s.dump();
    assert_eq!(rules, vec![if_then(c('A'), c('B'))]);
    assert_eq!(facts.yes, vec!['A']);
    assert_eq!(facts.no, vec!['C']);
}

#[test]
fn run_returns_input_when_nothing_to_find() {
    let rules = vec![if_then(c('A'), c('B'))];
    let used = vec![Usage::Untried];
    let r = run(&rules, &used, Facts::new(&['A'], &[], &[]), 50).unwrap();
    assert_eq!(r.yes, vec!['A']);
}

#[test]
fn run_too_deep_is_error() {
    let rules = vec![if_then(c('A'), c('B'))];
    let used = vec![Usage::Untried];
    let r = run(&rules, &used, Facts::new(&['A'], &[], &['B']), 21);
    assert_eq!(r.err(), Some(SearchError::DepthExceeded));
}

#[test]
fn run_skips_fired_rule() {
    let rules = vec![if_then(c('A'), c('B'))];
    let used = vec![Usage::Fired];
    let r = run(&rules, &used, Facts::new(&['A'], &[], &['B']), 0).unwrap();
    assert_eq!(r.unknown, vec!['B']);
}

#[test]
fn chain_opens_premise_then_fires_forward() {
    let mut s = Session::new();
    s.add_rule(if_then(c('A'), c('B')));
    s.add_rule(if_then(c('B'), c('C')));
    s.set_facts(Facts::new(&['A'], &[], &[]));
    let r = s.find(&Facts::new(&[], &[], &['C'])).unwrap();
    assert_eq!(atoms(&r.yes), atoms(&['A', 'B', 'C']));
    assert!(r.no.is_empty());
    assert!(r.unknown.is_empty());
}
