use expert_system::Facts;
use std::collections::BTreeSet;

fn atoms(v: &[char]) -> BTreeSet<char> {
    v.iter().cloned().collect()
}

fn same(f: &Facts, yes: &[char], no: &[char], unknown: &[char]) -> bool {
    atoms(&f.yes) == atoms(yes) && atoms(&f.no) == atoms(no) && atoms(&f.unknown) == atoms(unknown)
}

fn same_facts(a: &Facts, b: &Facts) -> bool {
    same(a, &b.yes, &b.no, &b.unknown)
}

#[test]
fn new_drops_known_atoms_from_unknown() {
    let f = Facts::new(&['A', 'B', 'A'], &['C'], &['A', 'C', 'D', 'D']);
    assert!(same(&f, &['A', 'B'], &['C'], &['D']));
    assert_eq!(f.yes.len(), 2);
    assert_eq!(f.unknown.len(), 1);
}

#[test]
fn merge_unions_and_recomputes_unknown() {
    let a = Facts::new(&['A'], &[], &['B', 'C']);
    let b = Facts::new(&['B'], &['D'], &['E']);
    let m = a.merge(&b).unwrap();
    assert!(same(&m, &['A', 'B'], &['D'], &['C', 'E']));
}

#[test]
fn merge_conflict_is_none() {
    let a = Facts::new(&['A'], &[], &[]);
    let b = Facts::new(&[], &['A'], &[]);
    assert!(a.merge(&b).is_none());
    assert!(b.merge(&a).is_none());
}

#[test]
fn merge_is_commutative() {
    let a = Facts::new(&['A', 'B'], &['C'], &['D']);
    let b = Facts::new(&['E'], &['F'], &['A', 'G']);
    let ab = a.merge(&b).unwrap();
    let ba = b.merge(&a).unwrap();
    assert!(same_facts(&ab, &ba));
}

#[test]
fn merge_is_associative() {
    let a = Facts::new(&['A'], &[], &['C']);
    let b = Facts::new(&[], &['B'], &['D']);
    let c = Facts::new(&['C'], &[], &['B']);
    let left = a.merge(&b).unwrap().merge(&c).unwrap();
    let right = a.merge(&b.merge(&c).unwrap()).unwrap();
    assert!(same_facts(&left, &right));
    assert!(same(&left, &['A', 'C'], &['B'], &['D']));
}

#[test]
fn merge_associative_failure_on_both_sides() {
    let a = Facts::new(&['A'], &[], &[]);
    let b = Facts::new(&['B'], &[], &[]);
    let c = Facts::new(&[], &['A'], &[]);
    assert!(a.merge(&b).unwrap().merge(&c).is_none());
    assert!(a.merge(&b.merge(&c).unwrap()).is_none());
}

#[test]
fn merge_with_itself_is_itself() {
    let a = Facts::new(&['A', 'B'], &['C'], &['D']);
    let m = a.merge(&a).unwrap();
    assert!(same_facts(&m, &a));
}

#[test]
fn invert_swaps_and_is_involutive() {
    let f = Facts::new(&['A'], &['B', 'C'], &['D']);
    let i = f.invert();
    assert!(same(&i, &['B', 'C'], &['A'], &['D']));
    assert!(same_facts(&i.invert(), &f));
}

#[test]
fn is_empty_checks_chosen_sets() {
    let f = Facts::new(&['A'], &[], &[]);
    assert!(!f.is_empty(true, false, false));
    assert!(f.is_empty(false, true, true));
    assert!(!f.is_empty(true, true, true));
    let e = Facts::new(&[], &[], &[]);
    assert!(e.is_empty(true, true, true));
}

#[test]
fn membership_queries() {
    let f = Facts::new(&['A'], &['B'], &['C']);
    assert!(f.is_yes('A') && !f.is_yes('B') && !f.is_yes('C'));
    assert!(f.is_no('B') && !f.is_no('A'));
    assert!(f.is_unknown('C') && !f.is_unknown('A') && !f.is_unknown('Z'));
}

#[test]
fn remove_contained_only_touches_true_atoms() {
    let mut f = Facts::new(&['A', 'B', 'C'], &['D'], &['E']);
    let other = Facts::new(&['A'], &['B', 'D'], &['C']);
    f.remove_contained(&other);
    assert!(same(&f, &['C'], &['D'], &['E']));
}

#[test]
fn facts_text_lists_sorted_sections() {
    let f = Facts::new(&['C', 'A'], &['B'], &['E', 'D']);
    assert_eq!(f.to_string(), "( true: A, C  false: B  unknown: D, E )");
    let g = Facts::new(&[], &['Z'], &[]);
    assert_eq!(g.to_string(), "( false: Z )");
    assert_eq!(Facts::new(&[], &[], &[]).to_string(), "()");
}

#[test]
fn copy_keeps_atoms() {
    let f = Facts::new(&['A'], &['B'], &['C']);
    let g = f.copy();
    assert_eq!(g.yes, f.yes);
    assert_eq!(g.no, f.no);
    assert_eq!(g.unknown, f.unknown);
}
