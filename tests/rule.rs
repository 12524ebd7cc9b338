use expert_system::{Facts, Rule};
use std::collections::BTreeSet;

fn c(x: char) -> Rule {
    Rule::Char(x)
}

fn not(a: Rule) -> Rule {
    Rule::Not(Box::new(a))
}

fn and(a: Rule, b: Rule) -> Rule {
    Rule::And(Box::new(a), Box::new(b))
}

fn or(a: Rule, b: Rule) -> Rule {
    Rule::Or(Box::new(a), Box::new(b))
}

fn xor(a: Rule, b: Rule) -> Rule {
    Rule::Xor(Box::new(a), Box::new(b))
}

fn if_then(a: Rule, b: Rule) -> Rule {
    Rule::IfThen(Box::new(a), Box::new(b))
}

fn iff(a: Rule, b: Rule) -> Rule {
    Rule::IfAndOnlyIf(Box::new(a), Box::new(b))
}

fn atoms(v: &[char]) -> BTreeSet<char> {
    v.iter().cloned().collect()
}

fn shape(list: &[Facts]) -> Vec<(BTreeSet<char>, BTreeSet<char>)> {
    list.iter().map(|f| (atoms(&f.yes), atoms(&f.no))).collect()
}

fn entry(yes: &[char], no: &[char]) -> (BTreeSet<char>, BTreeSet<char>) {
    (atoms(yes), atoms(no))
}

#[test]
fn enumerate_atom_is_single_true_assignment() {
    let r = c('A').possible_combinations_recursive();
    assert_eq!(r.len(), 1);
    assert_eq!(shape(&r), vec![entry(&['A'], &[])]);
    assert!(r[0].unknown.is_empty());
}

#[test]
fn enumerate_not_atom_inverts() {
    let r = not(c('A')).possible_combinations_recursive();
    assert_eq!(shape(&r), vec![entry(&[], &['A'])]);
}

#[test]
fn enumerate_and_drops_conflicts() {
    let r = and(c('A'), not(c('A'))).possible_combinations_recursive();
    assert!(r.is_empty());
    let r = and(c('A'), c('B')).possible_combinations_recursive();
    assert_eq!(shape(&r), vec![entry(&['A', 'B'], &[])]);
}

#[test]
fn enumerate_and_has_no_conflicting_assignment() {
    let e = and(or(c('A'), not(c('B'))), xor(c('A'), c('B')));
    for f in e.possible_combinations_recursive().iter() {
        for x in f.yes.iter() {
            assert!(!f.no.contains(x));
        }
    }
}

#[test]
fn enumerate_or_lists_each_side_then_pairs() {
    let r = or(c('A'), c('B')).possible_combinations_recursive();
    assert_eq!(
        shape(&r),
        vec![entry(&['A'], &[]), entry(&['B'], &[]), entry(&['A', 'B'], &[])]
    );
}

#[test]
fn enumerate_xor_pairs_with_inverted_other_side() {
    let r = xor(c('A'), c('B')).possible_combinations_recursive();
    assert_eq!(shape(&r), vec![entry(&['A'], &['B']), entry(&['B'], &['A'])]);
}

#[test]
fn enumerate_not_of_compound_only_flips_witnesses() {
    let r = not(and(c('A'), c('B'))).possible_combinations_recursive();
    assert_eq!(shape(&r), vec![entry(&[], &['A', 'B'])]);
}

#[test]
fn each_assignment_satisfies_positive_formula() {
    let e = or(and(c('A'), not(c('B'))), c('C'));
    for f in e.possible_combinations_recursive().iter() {
        let m = Facts::new(&[], &[], &[]).merge(f).unwrap();
        assert!(e.can_take_recursive(&m));
    }
}

#[test]
fn evaluate_is_closed_world() {
    let facts = Facts::new(&['A'], &['B'], &[]);
    assert!(c('A').can_take_recursive(&facts));
    assert!(!c('B').can_take_recursive(&facts));
    assert!(!c('C').can_take_recursive(&facts));
    assert!(not(c('C')).can_take_recursive(&facts));
    assert!(xor(c('A'), c('B')).can_take_recursive(&facts));
    assert!(!and(c('A'), c('B')).can_take_recursive(&facts));
    assert!(or(c('B'), c('A')).can_take_recursive(&facts));
}

#[test]
fn references_known_atoms() {
    let facts = Facts::new(&['A'], &['B'], &['C']);
    assert!(c('B').can_give_recursive(&facts));
    assert!(!c('C').can_give_recursive(&facts));
    assert!(and(c('C'), not(c('A'))).can_give_recursive(&facts));
    let rule = if_then(c('A'), c('C'));
    assert!(!rule.can_give(&facts));
    assert!(iff(c('A'), c('C')).can_give(&facts));
}

#[test]
fn try_match_implication() {
    let rule = if_then(and(c('A'), c('B')), c('C'));
    let yes = Facts::new(&['A', 'B'], &[], &[]);
    let out = rule.try_match(&yes).unwrap();
    assert_eq!(shape(&out), vec![entry(&['C'], &[])]);
    assert!(rule.can_take(&yes));
    let half = Facts::new(&['A'], &[], &[]);
    assert!(rule.try_match(&half).is_none());
    assert!(!rule.can_take(&half));
}

#[test]
fn try_match_equivalence_both_ways() {
    let rule = iff(c('A'), not(c('B')));
    let left = Facts::new(&['A'], &[], &[]);
    assert_eq!(shape(&rule.try_match(&left).unwrap()), vec![entry(&[], &['B'])]);
    let right = Facts::new(&[], &[], &[]);
    assert_eq!(shape(&rule.try_match(&right).unwrap()), vec![entry(&['A'], &[])]);
    let neither = Facts::new(&['B'], &[], &[]);
    assert!(rule.try_match(&neither).is_none());
}

#[test]
fn inputs_and_outputs() {
    let rule = if_then(or(c('A'), c('B')), c('C'));
    assert_eq!(rule.possible_inputs().len(), 3);
    assert_eq!(shape(&rule.possible_outputs()), vec![entry(&['C'], &[])]);
    let all = rule.possible_inputs_all();
    assert_eq!(atoms(&all.yes), atoms(&['A', 'B']));
    assert!(all.no.is_empty() && all.unknown.is_empty());
    let eq = iff(c('A'), c('B'));
    assert_eq!(shape(&eq.possible_inputs()), vec![entry(&['A'], &[]), entry(&['B'], &[])]);
    assert_eq!(shape(&eq.possible_outputs()), vec![entry(&['A'], &[]), entry(&['B'], &[])]);
    assert_eq!(atoms(&eq.possible_outputs_all().yes), atoms(&['A', 'B']));
    assert_eq!(atoms(&rule.possible_outputs_all().yes), atoms(&['C']));
}

#[test]
fn atoms_of_formula_each_once() {
    let e = xor(and(c('A'), c('B')), not(c('A')));
    let all = e.possible_inputs_all_recursive();
    assert_eq!(all.yes.len(), 2);
    assert_eq!(atoms(&all.yes), atoms(&['A', 'B']));
}

#[test]
fn well_formed_rules() {
    assert!(if_then(c('A'), c('B')).is_well_formed());
    assert!(!c('A').is_well_formed());
    assert!(!if_then(if_then(c('A'), c('B')), c('C')).is_well_formed());
    assert!(and(c('A'), not(c('B'))).is_plain_formula());
}

#[test]
fn structural_equality_and_copy() {
    let a = if_then(and(c('A'), c('B')), c('C'));
    let b = if_then(and(c('A'), c('B')), c('C'));
    assert_eq!(a, b);
    assert_ne!(a, if_then(and(c('B'), c('A')), c('C')));
    assert_eq!(a.copy(), a);
}

#[test]
fn rule_text_follows_precedence() {
    assert_eq!(if_then(and(c('A'), c('B')), c('C')).to_string(), "A + B => C");
    assert_eq!(and(or(c('A'), c('B')), c('C')).to_string(), "(A | B) + C");
    assert_eq!(or(and(c('A'), c('B')), c('C')).to_string(), "A + B | C");
    assert_eq!(xor(c('A'), or(c('B'), c('C'))).to_string(), "A ^ B | C");
    assert_eq!(not(c('A')).to_string(), "!A");
    assert_eq!(not(or(c('A'), c('B'))).to_string(), "!(A | B)");
    assert_eq!(iff(c('A'), not(c('B'))).to_string(), "A <=> !B");
}

#[test]
fn enumeration_of_xor_over_disjunction_is_approximate() {
    let e = xor(or(c('A'), c('B')), c('B'));
    let r = e.possible_combinations_recursive();
    let found = r
        .iter()
        .find(|f| atoms(&f.yes) == atoms(&['B']) && atoms(&f.no) == atoms(&['A']))
        .unwrap();
    let m = Facts::new(&[], &[], &[]).merge(found).unwrap();
    assert!(!e.can_take_recursive(&m));
}

#[test]
fn each_assignment_satisfies_xor_of_atoms() {
    let e = and(xor(c('A'), c('B')), or(c('C'), not(c('A'))));
    let r = e.possible_combinations_recursive();
    assert!(!r.is_empty());
    for f in r.iter() {
        let m = Facts::new(&[], &[], &[]).merge(f).unwrap();
        assert!(e.can_take_recursive(&m));
    }
}
