use vstd::prelude::*;

use crate::engine::{all_rules, budget, derives, run, settles, SearchError, Usage, MAX_DEPTH};
use crate::facts::{Facts, FactsView};
use crate::rule::Rule;

verus! {

/// One line of input, as the shell understands it.
#[derive(Debug)]
pub enum Query {
    /// Add a rule.
    Rule(Rule),
    /// Replace the known facts.
    Given(Facts),
    /// Look for the atoms of a store.
    Find(Facts),
    /// Show the rules and the facts.
    Dump,
    /// Remove a rule.
    Delete(Rule),
}

/// Why a query failed.
#[derive(Debug, Clone, Copy, PartialEq, Eq, Structural)]
pub enum QueryError {
    /// The query contradicts the known facts.
    Contradiction,
    /// The search went too deep.
    DepthExceeded,
}

/// The rule base and the known facts that queries run against.
#[derive(Debug)]
pub struct Session {
    pub rules: Vec<Rule>,
    pub facts: Facts,
}

/// Where `rule` stands in `rules`, if it does.
fn position(rules: &Vec<Rule>, rule: &Rule) -> (r: Option<usize>)
    ensures
        r matches Some(k) ==> k < rules@.len() && rules@[k as int] == *rule,
        r is None ==> !rules@.contains(*rule),
{
    let mut k: usize = 0;
    while k < rules.len()
        invariant
            0 <= k <= rules.len(),
            forall|m: int| 0 <= m < k ==> rules@[m] != *rule,
        decreases rules.len() - k,
    {
        if rules[k].eq(rule) {
            return Some(k);
        }
        k += 1;
    }
    None
}

/// The memo of a search that has not used any of `n` rules yet.
pub open spec fn fresh_memo(n: nat) -> Seq<Usage> {
    Seq::new(n, |k: int| Usage::Untried)
}

/// A fresh memo allows two steps per rule.
proof fn lemma_fresh_budget(n: nat)
    ensures
        budget(fresh_memo(n)) == 2 * n,
    decreases n,
{
    if n > 0 {
        assert(fresh_memo(n).drop_last() =~= fresh_memo((n - 1) as nat));
        lemma_fresh_budget((n - 1) as nat);
    }
}

/// The memo of a search that has not used any rule yet.
fn untried(n: usize) -> (r: Vec<Usage>)
    ensures
        r@ == fresh_memo(n as nat),
{
    let mut r: Vec<Usage> = Vec::new();
    let mut k: usize = 0;
    while k < n
        invariant
            0 <= k <= n,
            r@ == fresh_memo(k as nat),
        decreases n - k,
    {
        r.push(Usage::Untried);
        k += 1;
        assert(r@ =~= fresh_memo(k as nat));
    }
    r
}

impl Session {
    /// Rules are implications or equivalences, each held once, and the facts
    /// are consistent.
    pub open spec fn wf(&self) -> bool {
        &&& all_rules(self.rules@)
        &&& self.rules@.no_duplicates()
        &&& self.facts.wf()
    }

    /// A session with no rules and no facts.
    pub fn new() -> (r: Session)
        ensures
            r.wf(),
            r.rules@ == Seq::<Rule>::empty(),
            r.facts@ == FactsView::empty(),
    {
        let facts = Facts::new(&[], &[], &[]);
        assert(facts@.yes =~= Set::<char>::empty());
        assert(facts@.no =~= Set::<char>::empty());
        assert(facts@.unknown =~= Set::<char>::empty());
        Session { rules: Vec::new(), facts }
    }

    /// Add `rule` unless an equal rule is there already; says whether it was added.
    pub fn add_rule(&mut self, rule: Rule) -> (r: bool)
        requires
            old(self).wf(),
            rule.is_rule(),
        ensures
            final(self).wf(),
            r == !old(self).rules@.contains(rule),
            final(self).rules@ == if r {
                old(self).rules@.push(rule)
            } else {
                old(self).rules@
            },
            final(self).facts == old(self).facts,
    {
        match position(&self.rules, &rule) {
            Some(_) => false,
            None => {
                let ghost before = self.rules@;
                self.rules.push(rule);
                assert forall|i: int| 0 <= i < self.rules@.len() implies (
                #[trigger] self.rules@[i]).is_rule() by {
                    if i < before.len() {
                        assert(before[i].is_rule());
                    }
                }
                assert forall|i: int, j: int|
                    0 <= i < self.rules@.len() && 0 <= j < self.rules@.len() && i != j implies self.rules@[i]
                        != self.rules@[j] by {
                    if i < before.len() && j < before.len() {
                    } else if i < before.len() {
                        assert(before.contains(before[i]));
                    } else {
                        assert(before.contains(before[j]));
                    }
                }
                true
            },
        }
    }

    /// Replace the known facts.
    pub fn set_facts(&mut self, facts: Facts)
        requires
            old(self).wf(),
            facts.wf(),
        ensures
            final(self).wf(),
            final(self).rules == old(self).rules,
            final(self).facts == facts,
    {
        self.facts = facts;
    }

    /// Remove the rule equal to `rule`; says whether there was one. Without
    /// one the session stays as it was.
    pub fn delete_rule(&mut self, rule: &Rule) -> (r: bool)
        requires
            old(self).wf(),
        ensures
            final(self).wf(),
            r == old(self).rules@.contains(*rule),
            final(self).facts == old(self).facts,
            !r ==> final(self).rules == old(self).rules,
            r ==> exists|k: int|
                0 <= k < old(self).rules@.len() && old(self).rules@[k] == *rule
                    && final(self).rules@ == old(self).rules@.remove(k),
            final(self).rules@.to_set() == old(self).rules@.to_set().remove(*rule),
    {
        let ghost before = self.rules@;
        match position(&self.rules, rule) {
            Some(k) => {
                self.rules.remove(k);
                proof {
                    assert(before.contains(before[k as int]));
                    assert forall|i: int| 0 <= i < self.rules@.len() implies (
                    #[trigger] self.rules@[i]).is_rule() by {
                        if i < k {
                            assert(before[i].is_rule());
                        } else {
                            assert(before[i + 1].is_rule());
                        }
                    }
                    assert forall|x: Rule|
                        self.rules@.contains(x) <==> before.to_set().remove(*rule).contains(x) by {
                        if self.rules@.contains(x) {
                            let m = choose|m: int| 0 <= m < self.rules@.len() && self.rules@[m] == x;
                            if m < k {
                                assert(before[m] == x);
                            } else {
                                assert(before[m + 1] == x);
                            }
                        }
                        if before.to_set().remove(*rule).contains(x) {
                            let m = choose|m: int| 0 <= m < before.len() && before[m] == x;
                            if m < k {
                                assert(self.rules@[m] == x);
                            } else {
                                assert(m != k);
                                assert(self.rules@[m - 1] == x);
                            }
                        }
                    }
                    assert(self.rules@.to_set() =~= before.to_set().remove(*rule));
                }
                true
            },
            None => {
                proof {
                    assert(before.to_set().remove(*rule) =~= before.to_set());
                }
                false
            },
        }
    }

    /// Look for the atoms that `query` asks for, from the known facts.
    ///
    /// Fails with `Contradiction` where the query cannot be merged with the
    /// facts. Otherwise the search runs on the merge, and fails with
    /// `DepthExceeded` where it went too deep, which cannot happen with at
    /// most `MAX_DEPTH / 2` rules; a result may still have atoms left to find.
    pub fn find(&self, query: &Facts) -> (res: Result<Facts, QueryError>)
        requires
            self.wf(),
        ensures
            self.facts@.merge(query@) is None <==> res == Err::<Facts, QueryError>(
                QueryError::Contradiction,
            ),
            self.facts@.merge(query@) matches Some(start) ==> {
                &&& start.unknown == Set::<char>::empty() ==> (res matches Ok(f) && f@ == start)
                &&& res matches Ok(f) ==> {
                    &&& f.wf()
                    &&& start.yes.subset_of(f@.yes)
                    &&& start.no.subset_of(f@.no)
                    &&& start.unknown.subset_of(f@.unknown + f@.known())
                    &&& exists|n: nat| derives(self.rules@, start, f@, n)
                }
                &&& 2 * self.rules@.len() <= MAX_DEPTH ==> res is Ok
                &&& (exists|i: int| settles(self.rules@, fresh_memo(self.rules@.len()), start, i))
                    ==> (res == Err::<Facts, QueryError>(QueryError::DepthExceeded) || (res matches Ok(f)
                    && f@.unknown.len() < start.unknown.len()))
            },
    {
        match self.facts.merge(query) {
            None => Err(QueryError::Contradiction),
            Some(start) => {
                let used = untried(self.rules.len());
                proof {
                    lemma_fresh_budget(self.rules@.len());
                    start.unknown@.unique_seq_to_set();
                }
                match run(&self.rules, &used, start, 0) {
                    Ok(f) => {
                        proof {
                            f.unknown@.unique_seq_to_set();
                        }
                        Ok(f)
                    },
                    Err(SearchError::DepthExceeded) => Err(QueryError::DepthExceeded),
                }
            },
        }
    }

    /// A copy of the rules and the facts.
    pub fn dump(&self) -> (r: (Vec<Rule>, Facts))
        ensures
            r.0@ == self.rules@,
            r.1@ == self.facts@,
            r.1.yes@ == self.facts.yes@,
            r.1.no@ == self.facts.no@,
            r.1.unknown@ == self.facts.unknown@,
    {
        let mut rules: Vec<Rule> = Vec::new();
        let mut k: usize = 0;
        while k < self.rules.len()
            invariant
                0 <= k <= self.rules.len(),
                rules@ == self.rules@.subrange(0, k as int),
            decreases self.rules.len() - k,
        {
            rules.push(self.rules[k].copy());
            k += 1;
        }
        assert(self.rules@.subrange(0, k as int) =~= self.rules@);
        (rules, self.facts.copy())
    }
}

} // verus!
