use vstd::prelude::*;

use crate::facts::{add_unless, copy_atoms, lemma_empty_set, overlaps, Facts, FactsView};
use crate::rule::{lemma_enumerate_nothing_unknown, views, Rule};

verus! {

/// How deep the search may go before it gives up.
pub const MAX_DEPTH: usize = 20;

/// Why a search failed.
#[derive(Debug, Clone, Copy, PartialEq, Eq, Structural)]
pub enum SearchError {
    /// The search went deeper than `MAX_DEPTH`.
    DepthExceeded,
}

/// What the search has done with a rule on the current path.
#[derive(Debug, Clone, Copy, PartialEq, Eq, Structural)]
pub enum Usage {
    /// Neither of the two below yet.
    Untried,
    /// It fired and its outcome was followed.
    Fired,
    /// Its premise was taken up as atoms to find.
    Opened,
}

/// What a rule still allows on a path: two steps while untried, one once
/// opened, none once fired.
pub open spec fn weight(u: Usage) -> nat {
    match u {
        Usage::Untried => 2,
        Usage::Opened => 1,
        Usage::Fired => 0,
    }
}

/// How many more levels a search with memo `u` can go down at most.
pub open spec fn budget(u: Seq<Usage>) -> nat
    decreases u.len(),
{
    if u.len() == 0 {
        0
    } else {
        budget(u.drop_last()) + weight(u.last())
    }
}

/// Changing one entry of a memo changes its budget by the change of weight.
pub proof fn lemma_budget_update(s: Seq<Usage>, i: int, u: Usage)
    requires
        0 <= i < s.len(),
    ensures
        budget(s.update(i, u)) + weight(s[i]) == budget(s) + weight(u),
    decreases s.len(),
{
    if i == s.len() - 1 {
        assert(s.update(i, u).drop_last() =~= s.drop_last());
    } else {
        lemma_budget_update(s.drop_last(), i, u);
        assert(s.update(i, u).drop_last() =~= s.drop_last().update(i, u));
    }
}

/// Every rule is an implication or an equivalence between formulas.
pub open spec fn all_rules(rules: Seq<Rule>) -> bool {
    forall|i: int| 0 <= i < rules.len() ==> (#[trigger] rules[i]).is_rule()
}

/// Rule `i` fires on `a`, and merging its outcome `j` into `a` gives the
/// known atoms of `b`.
pub open spec fn outcome_step(rules: Seq<Rule>, a: FactsView, i: int, j: int, b: FactsView) -> bool {
    &&& 0 <= i < rules.len()
    &&& rules[i].fire(a) matches Some(outs)
    &&& 0 <= j < outs.len()
    &&& a.merge(outs[j]) matches Some(m)
    &&& m.yes == b.yes
    &&& m.no == b.no
}

/// One rule firing leads from `a` to `b`.
pub open spec fn step(rules: Seq<Rule>, a: FactsView, b: FactsView) -> bool {
    exists|i: int, j: int| #[trigger] outcome_step(rules, a, i, j, b)
}

/// `n` rule firings lead from `a` to the known atoms of `b`.
pub open spec fn derives(rules: Seq<Rule>, a: FactsView, b: FactsView, n: nat) -> bool
    decreases n,
{
    if n == 0 {
        a.yes == b.yes && a.no == b.no
    } else {
        exists|m: FactsView| #[trigger] step(rules, a, m) && derives(rules, m, b, (n - 1) as nat)
    }
}

/// The value of a formula depends on the true atoms alone.
proof fn lemma_eval_true_atoms(e: Rule, f: FactsView, g: FactsView)
    requires
        f.yes == g.yes,
    ensures
        e.eval(f) == e.eval(g),
    decreases e,
{
    match e {
        Rule::Not(l) => lemma_eval_true_atoms(*l, f, g),
        Rule::And(l, r) => {
            lemma_eval_true_atoms(*l, f, g);
            lemma_eval_true_atoms(*r, f, g);
        },
        Rule::Or(l, r) => {
            lemma_eval_true_atoms(*l, f, g);
            lemma_eval_true_atoms(*r, f, g);
        },
        Rule::Xor(l, r) => {
            lemma_eval_true_atoms(*l, f, g);
            lemma_eval_true_atoms(*r, f, g);
        },
        _ => {},
    }
}

/// Merging `o` into `f` succeeds and settles some atom that `f` has to find.
pub open spec fn settles_with(f: FactsView, o: FactsView) -> bool {
    &&& f.merge(o) matches Some(m)
    &&& (!f.unknown.disjoint(m.yes) || !f.unknown.disjoint(m.no))
}

/// Rule `i` has not fired on this path, its conclusion mentions an atom that
/// `f` has to find, it fires on `f`, and one of its outcomes settles such an atom.
pub open spec fn settles(rules: Seq<Rule>, used: Seq<Usage>, f: FactsView, i: int) -> bool {
    &&& 0 <= i < rules.len()
    &&& used[i] != Usage::Fired
    &&& !rules[i].conclusion_atoms().disjoint(f.unknown)
    &&& rules[i].fire(f) matches Some(outs)
    &&& exists|j: int| 0 <= j < outs.len() && #[trigger] settles_with(f, outs[j])
}

/// A merge that settles an atom to find leaves fewer atoms to find.
proof fn lemma_fewer_unknown(base: Facts, o: FactsView, merged: Facts)
    requires
        base.wf(),
        merged.wf(),
        o.unknown == Set::<char>::empty(),
        base@.merge(o) == Some(merged@),
        settles_with(base@, o),
    ensures
        merged.unknown@.len() < base.unknown@.len(),
{
    base.unknown@.unique_seq_to_set();
    merged.unknown@.unique_seq_to_set();
    let x = choose|x: char|
        base@.unknown.contains(x) && (merged@.yes.contains(x) || merged@.no.contains(x));
    assert(merged@.unknown.subset_of(base@.unknown.remove(x)));
    vstd::set_lib::lemma_len_subset(merged@.unknown, base@.unknown.remove(x));
}

/// Derivations depend on the known atoms of their start alone.
proof fn lemma_derives_known_atoms(rules: Seq<Rule>, a: FactsView, a2: FactsView, b: FactsView, n: nat)
    requires
        a.yes == a2.yes,
        a.no == a2.no,
        derives(rules, a, b, n),
    ensures
        derives(rules, a2, b, n),
    decreases n,
{
    if n > 0 {
        let m = choose|m: FactsView| #[trigger] step(rules, a, m) && derives(rules, m, b, (n - 1) as nat);
        let (i, j) = choose|i: int, j: int| #[trigger] outcome_step(rules, a, i, j, m);
        match rules[i] {
            Rule::IfThen(l, r) => {
                lemma_eval_true_atoms(*l, a, a2);
            },
            Rule::IfAndOnlyIf(l, r) => {
                lemma_eval_true_atoms(*l, a, a2);
                lemma_eval_true_atoms(*r, a, a2);
            },
            _ => {},
        }
        assert(outcome_step(rules, a2, i, j, m));
        assert(step(rules, a2, m));
    }
}

/// Derivations chain.
proof fn lemma_derives_trans(rules: Seq<Rule>, a: FactsView, b: FactsView, c: FactsView, n: nat, k: nat)
    requires
        derives(rules, a, b, n),
        derives(rules, b, c, k),
    ensures
        derives(rules, a, c, n + k),
    decreases n,
{
    if n == 0 {
        lemma_derives_known_atoms(rules, b, a, c, k);
    } else {
        let m = choose|m: FactsView| #[trigger] step(rules, a, m) && derives(rules, m, b, (n - 1) as nat);
        lemma_derives_trans(rules, m, b, c, (n - 1) as nat, k);
        assert((n + k - 1) as nat == (n - 1) as nat + k);
    }
}

/// `used` with entry `i` set to `u`.
fn mark(used: &Vec<Usage>, i: usize, u: Usage) -> (r: Vec<Usage>)
    requires
        i < used.len(),
    ensures
        r@ == used@.update(i as int, u),
{
    let mut r: Vec<Usage> = Vec::new();
    let mut k: usize = 0;
    while k < used.len()
        invariant
            0 <= k <= used.len(),
            i < used.len(),
            r@ == used@.update(i as int, u).subrange(0, k as int),
        decreases used.len() - k,
    {
        if k == i {
            r.push(u);
        } else {
            r.push(used[k]);
        }
        k += 1;
    }
    assert(used@.update(i as int, u).subrange(0, k as int) =~= used@.update(i as int, u));
    r
}

/// `base` with each atom of `atoms` that it does not know added to the atoms to find.
fn widen(base: &Facts, atoms: &Facts) -> (r: Facts)
    requires
        base.wf(),
    ensures
        r.wf(),
        r@ == (FactsView { unknown: base@.unknown + (atoms@.yes - base@.known()), ..base@ }),
{
    let unknown = add_unless(
        copy_atoms(&base.unknown),
        atoms.yes.as_slice(),
        base.yes.as_slice(),
        base.no.as_slice(),
    );
    let r = Facts { yes: copy_atoms(&base.yes), no: copy_atoms(&base.no), unknown };
    assert(r@.unknown =~= base@.unknown + (atoms@.yes - base@.known()));
    r
}

/// Search for the unknown atoms of `facts` with `rules`, `level` calls deep,
/// where `used` records what this path has done with each rule.
///
/// Each rule whose conclusion mentions an unknown atom is tried in turn, unless
/// it already fired on this path. If it fires, each outcome that merges with
/// the facts it fired on without conflict and settles some unknown atom is
/// followed one level deeper. If it does not fire and was not opened yet, its premise atoms
/// become atoms to find, one level deeper. A result with nothing left to find
/// is returned at once; otherwise the result with the fewest atoms left to
/// find is kept and the search goes on from it.
pub fn run(rules: &Vec<Rule>, used: &Vec<Usage>, facts: Facts, level: usize) -> (res: Result<
    Facts,
    SearchError,
>)
    requires
        all_rules(rules@),
        used@.len() == rules@.len(),
        facts.wf(),
    ensures
        facts@.unknown == Set::<char>::empty() ==> (res matches Ok(f) && f@ == facts@),
        facts@.unknown != Set::<char>::empty() && level > MAX_DEPTH ==> res == Err::<
            Facts,
            SearchError,
        >(SearchError::DepthExceeded),
        res matches Ok(f) ==> {
            &&& f.wf()
            &&& facts@.yes.subset_of(f@.yes)
            &&& facts@.no.subset_of(f@.no)
            &&& f.unknown@.len() <= facts.unknown@.len()
            &&& exists|n: nat| derives(rules@, facts@, f@, n)
        },
        (exists|i: int| settles(rules@, used@, facts@, i)) ==> (res is Err || (res matches Ok(f)
            && f.unknown@.len() < facts.unknown@.len())),
        res matches Ok(f) ==> facts@.unknown.subset_of(f@.unknown + f@.known()),
        res is Err ==> level + budget(used@) > MAX_DEPTH,
    decreases MAX_DEPTH + 1 - level,
{
    if facts.is_empty(false, false, true) {
        assert(derives(rules@, facts@, facts@, 0));
        return Ok(facts);
    }
    if level > MAX_DEPTH {
        return Err(SearchError::DepthExceeded);
    }
    let ghost input = facts@;
    let ghost input_len = facts.unknown@.len();
    proof {
        lemma_empty_set(facts.unknown@);
    }
    let mut best = facts;
    assert(derives(rules@, input, best@, 0));
    let mut i: usize = 0;
    while i < rules.len()
        invariant
            0 <= i <= rules.len(),
            all_rules(rules@),
            used@.len() == rules@.len(),
            level <= MAX_DEPTH,
            input == facts@,
            input.unknown != Set::<char>::empty(),
            input_len > 0,
            best.wf(),
            input.yes.subset_of(best@.yes),
            input.no.subset_of(best@.no),
            best.unknown@.len() <= input_len,
            exists|n: nat| derives(rules@, input, best@, n),
            input.unknown.subset_of(best@.unknown + best@.known()),
            best.unknown@.len() == input_len ==> best@ == input,
            best.unknown@.len() == input_len ==> forall|k: int|
                0 <= k < i ==> !settles(rules@, used@, input, k),
        decreases rules.len() - i,
    {
        let rule = &rules[i];
        assert(rules@[i as int].is_rule());
        if used[i] != Usage::Fired && overlaps(
            rule.possible_outputs_all().yes.as_slice(),
            best.unknown.as_slice(),
        ) {
            let base = best.copy();
            let ghost n0 = choose|n: nat| derives(rules@, input, base@, n);
            match rule.try_match(&base) {
                Some(outcomes) => {
                    proof {
                        match rules@[i as int] {
                            Rule::IfThen(l, r) => {
                                lemma_enumerate_nothing_unknown(*r);
                            },
                            Rule::IfAndOnlyIf(l, r) => {
                                lemma_enumerate_nothing_unknown(*l);
                                lemma_enumerate_nothing_unknown(*r);
                            },
                            _ => {},
                        }
                    }
                    let mut j: usize = 0;
                    while j < outcomes.len()
                        invariant
                            0 <= j <= outcomes.len(),
                            0 <= i < rules.len(),
                            used@[i as int] != Usage::Fired,
                            all_rules(rules@),
                            used@.len() == rules@.len(),
                            level <= MAX_DEPTH,
                            input == facts@,
                            input.unknown != Set::<char>::empty(),
                            input_len > 0,
                            base.wf(),
                            base.unknown@.len() == input_len || best.unknown@.len() < input_len,
                            input.yes.subset_of(base@.yes),
                            input.no.subset_of(base@.no),
                            derives(rules@, input, base@, n0),
                            rules@[i as int].fire(base@) == Some(views(outcomes@)),
                            best.wf(),
                            input.yes.subset_of(best@.yes),
                            input.no.subset_of(best@.no),
                            best.unknown@.len() <= input_len,
                            exists|n: nat| derives(rules@, input, best@, n),
                            input.unknown.subset_of(best@.unknown + best@.known()),
                            input.unknown.subset_of(base@.unknown + base@.known()),
                            best.unknown@.len() == input_len ==> best@ == input,
                            best.unknown@.len() == input_len ==> base@ == input,
                            best.unknown@.len() == input_len ==> forall|k: int|
                                0 <= k < i ==> !settles(rules@, used@, input, k),
                            best.unknown@.len() == input_len ==> forall|k: int|
                                0 <= k < j ==> !settles_with(input, #[trigger] views(outcomes@)[k]),
                            forall|k: int| 0 <= k < outcomes@.len() ==> (#[trigger] views(outcomes@)[k]).unknown == Set::<char>::empty(),
                        decreases outcomes.len() - j,
                    {
                        match base.merge(&outcomes[j]) {
                            Some(merged) => {
                                if overlaps(base.unknown.as_slice(), merged.yes.as_slice())
                                    || overlaps(base.unknown.as_slice(), merged.no.as_slice()) {
                                    let next_used = mark(used, i, Usage::Fired);
                                    proof {
                                        lemma_budget_update(used@, i as int, Usage::Fired);
                                        assert(views(outcomes@)[j as int] == outcomes@[j as int]@);
                                        lemma_fewer_unknown(base, outcomes@[j as int]@, merged);
                                        assert(outcome_step(
                                            rules@,
                                            base@,
                                            i as int,
                                            j as int,
                                            merged@,
                                        ));
                                    }
                                    match run(rules, &next_used, merged, level + 1) {
                                        Ok(found) => {
                                            proof {
                                                let n1 = choose|n: nat|
                                                    derives(rules@, merged@, found@, n);
                                                assert(step(rules@, base@, merged@));
                                                assert(derives(rules@, base@, found@, n1 + 1));
                                                lemma_derives_trans(
                                                    rules@,
                                                    input,
                                                    base@,
                                                    found@,
                                                    n0,
                                                    n1 + 1,
                                                );
                                                assert(derives(rules@, input, found@, n0 + n1 + 1));
                                            }
                                            if found.unknown.len() == 0 {
                                                return Ok(found);
                                            }
                                            if found.unknown.len() < best.unknown.len() {
                                                best = found;
                                            }
                                        },
                                        Err(e) => {
                                            return Err(e);
                                        },
                                    }
                                }
                            },
                            None => {},
                        }
                        j += 1;
                    }
                },
                None => {
                    if used[i] != Usage::Opened {
                        let next_used = mark(used, i, Usage::Opened);
                        proof {
                            lemma_budget_update(used@, i as int, Usage::Opened);
                            assert(used@[i as int] != Usage::Fired);
                            assert(used@[i as int] == Usage::Untried);
                        }
                        let widened = widen(&base, &rule.possible_inputs_all());
                        match run(rules, &next_used, widened, level + 1) {
                            Ok(found) => {
                                proof {
                                    let n1 = choose|n: nat| derives(rules@, widened@, found@, n);
                                    lemma_derives_known_atoms(rules@, widened@, base@, found@, n1);
                                    lemma_derives_trans(rules@, input, base@, found@, n0, n1);
                                    assert(derives(rules@, input, found@, n0 + n1));
                                }
                                if found.unknown.len() == 0 {
                                    return Ok(found);
                                }
                                if found.unknown.len() < best.unknown.len() {
                                    best = found;
                                }
                            },
                            Err(e) => {
                                return Err(e);
                            },
                        }
                    }
                },
            }
        }
        i += 1;
    }
    Ok(best)
}

} // verus!
