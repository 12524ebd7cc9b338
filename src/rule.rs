use vstd::prelude::*;

use crate::facts::{chars_to_string, lemma_merge_wf, Facts, FactsView};

verus! {

/// A boolean formula over single-letter atoms; a rule is an `IfThen` or an
/// `IfAndOnlyIf` at the root, with plain formulas on both sides.
#[derive(Debug, Eq, Hash)]
pub enum Rule {
    Char(char),
    Not(Box<Rule>),
    And(Box<Rule>, Box<Rule>),
    Or(Box<Rule>, Box<Rule>),
    Xor(Box<Rule>, Box<Rule>),
    IfThen(Box<Rule>, Box<Rule>),
    IfAndOnlyIf(Box<Rule>, Box<Rule>),
}

/// The views of a list of stores.
pub open spec fn views(v: Seq<Facts>) -> Seq<FactsView> {
    v.map_values(|f: Facts| f@)
}

/// Each store of `s` with true and false swapped.
pub open spec fn invert_each(s: Seq<FactsView>) -> Seq<FactsView> {
    s.map_values(|f: FactsView| f.invert())
}

/// The merges of `a` with each store of `rs` that do not conflict, in order.
pub open spec fn merge_row(a: FactsView, rs: Seq<FactsView>) -> Seq<FactsView>
    decreases rs.len(),
{
    if rs.len() == 0 {
        Seq::empty()
    } else {
        let before = merge_row(a, rs.drop_last());
        match a.merge(rs.last()) {
            Some(m) => before.push(m),
            None => before,
        }
    }
}

/// The merges of each store of `ls` with each store of `rs` that do not
/// conflict, row by row.
pub open spec fn merge_pairs(ls: Seq<FactsView>, rs: Seq<FactsView>) -> Seq<FactsView>
    decreases ls.len(),
{
    if ls.len() == 0 {
        Seq::empty()
    } else {
        merge_pairs(ls.drop_last(), rs) + merge_row(ls.last(), rs)
    }
}

/// The store that makes exactly `c` true.
pub open spec fn only_true(c: char) -> FactsView {
    FactsView { yes: set![c], no: Set::empty(), unknown: Set::empty() }
}

impl PartialEq for Rule {
    /// Structural equality: the same shape with the same atoms.
    fn eq(&self, o: &Rule) -> (r: bool)
        decreases self,
    {
        match (self, o) {
            (Rule::Char(a), Rule::Char(b)) => *a == *b,
            (Rule::Not(a), Rule::Not(b)) => (**a).eq(&**b),
            (Rule::And(a, c), Rule::And(b, d)) => (**a).eq(&**b) && (**c).eq(&**d),
            (Rule::Or(a, c), Rule::Or(b, d)) => (**a).eq(&**b) && (**c).eq(&**d),
            (Rule::Xor(a, c), Rule::Xor(b, d)) => (**a).eq(&**b) && (**c).eq(&**d),
            (Rule::IfThen(a, c), Rule::IfThen(b, d)) => (**a).eq(&**b) && (**c).eq(&**d),
            (Rule::IfAndOnlyIf(a, c), Rule::IfAndOnlyIf(b, d)) => (**a).eq(&**b) && (**c).eq(
                &**d,
            ),
            _ => false,
        }
    }
}

impl vstd::std_specs::cmp::PartialEqSpecImpl for Rule {
    open spec fn obeys_eq_spec() -> bool {
        true
    }

    open spec fn eq_spec(&self, o: &Rule) -> bool {
        *self == *o
    }
}

impl Rule {
    /// A formula: no implication or equivalence anywhere in it.
    pub open spec fn is_formula(self) -> bool
        decreases self,
    {
        match self {
            Rule::Char(_) => true,
            Rule::Not(l) => l.is_formula(),
            Rule::And(l, r) => l.is_formula() && r.is_formula(),
            Rule::Or(l, r) => l.is_formula() && r.is_formula(),
            Rule::Xor(l, r) => l.is_formula() && r.is_formula(),
            Rule::IfThen(_, _) => false,
            Rule::IfAndOnlyIf(_, _) => false,
        }
    }

    /// A rule: an implication or an equivalence between two formulas.
    pub open spec fn is_rule(self) -> bool {
        match self {
            Rule::IfThen(l, r) => l.is_formula() && r.is_formula(),
            Rule::IfAndOnlyIf(l, r) => l.is_formula() && r.is_formula(),
            _ => false,
        }
    }

    /// The value of a formula where exactly the true atoms of `f` hold.
    pub open spec fn eval(self, f: FactsView) -> bool
        decreases self,
    {
        match self {
            Rule::Char(c) => f.yes.contains(c),
            Rule::Not(l) => !l.eval(f),
            Rule::And(l, r) => l.eval(f) && r.eval(f),
            Rule::Or(l, r) => l.eval(f) || r.eval(f),
            Rule::Xor(l, r) => l.eval(f) != r.eval(f),
            _ => false,
        }
    }

    /// Whether some atom of a formula is known true or false in `f`.
    pub open spec fn mentions_known(self, f: FactsView) -> bool
        decreases self,
    {
        match self {
            Rule::Char(c) => f.known().contains(c),
            Rule::Not(l) => l.mentions_known(f),
            Rule::And(l, r) => l.mentions_known(f) || r.mentions_known(f),
            Rule::Or(l, r) => l.mentions_known(f) || r.mentions_known(f),
            Rule::Xor(l, r) => l.mentions_known(f) || r.mentions_known(f),
            _ => false,
        }
    }

    /// The atoms a rule needs before it can fire: the left side of an
    /// implication, both sides of an equivalence.
    pub open spec fn premise_atoms(self) -> Set<char> {
        match self {
            Rule::IfThen(l, _) => l.atoms(),
            Rule::IfAndOnlyIf(l, r) => l.atoms() + r.atoms(),
            _ => Set::empty(),
        }
    }

    /// The atoms a rule can decide: the right side of an implication, both
    /// sides of an equivalence.
    pub open spec fn conclusion_atoms(self) -> Set<char> {
        match self {
            Rule::IfThen(_, r) => r.atoms(),
            Rule::IfAndOnlyIf(l, r) => l.atoms() + r.atoms(),
            _ => Set::empty(),
        }
    }

    /// What firing a rule on `f` yields: the assignments of the right side
    /// where the left side holds; for an equivalence, failing that, those of
    /// the left side where the right side holds; otherwise nothing.
    pub open spec fn fire(self, f: FactsView) -> Option<Seq<FactsView>> {
        match self {
            Rule::IfThen(l, r) => if l.eval(f) {
                Some(r.enumerate())
            } else {
                None
            },
            Rule::IfAndOnlyIf(l, r) => if l.eval(f) {
                Some(r.enumerate())
            } else if r.eval(f) {
                Some(l.enumerate())
            } else {
                None
            },
            _ => None,
        }
    }

    /// The atoms that occur in a formula.
    pub open spec fn atoms(self) -> Set<char>
        decreases self,
    {
        match self {
            Rule::Char(c) => set![c],
            Rule::Not(l) => l.atoms(),
            Rule::And(l, r) => l.atoms() + r.atoms(),
            Rule::Or(l, r) => l.atoms() + r.atoms(),
            Rule::Xor(l, r) => l.atoms() + r.atoms(),
            _ => Set::empty(),
        }
    }

    /// The partial assignments under which a formula counts as true: an atom
    /// is made true; a negation swaps the assignments of its operand; a
    /// conjunction merges each pair; a disjunction takes each side alone and
    /// then each pair merged; an exclusive or pairs each side with the swapped
    /// assignments of the other.
    pub open spec fn enumerate(self) -> Seq<FactsView>
        decreases self,
    {
        match self {
            Rule::Char(c) => seq![only_true(c)],
            Rule::Not(l) => invert_each(l.enumerate()),
            Rule::And(l, r) => merge_pairs(l.enumerate(), r.enumerate()),
            Rule::Or(l, r) => l.enumerate() + r.enumerate() + merge_pairs(
                l.enumerate(),
                r.enumerate(),
            ),
            Rule::Xor(l, r) => merge_pairs(l.enumerate(), invert_each(r.enumerate()))
                + merge_pairs(invert_each(l.enumerate()), r.enumerate()),
            _ => Seq::empty(),
        }
    }

    /// Whether the formula holds where exactly the true atoms of `facts` hold.
    pub fn can_take_recursive(&self, facts: &Facts) -> (r: bool)
        requires
            self.is_formula(),
        ensures
            r == self.eval(facts@),
        decreases self,
    {
        match self {
            Rule::Char(c) => facts.is_yes(*c),
            Rule::Not(l) => !l.can_take_recursive(facts),
            Rule::And(l, r) => l.can_take_recursive(facts) && r.can_take_recursive(facts),
            Rule::Or(l, r) => l.can_take_recursive(facts) || r.can_take_recursive(facts),
            Rule::Xor(l, r) => l.can_take_recursive(facts) != r.can_take_recursive(facts),
            _ => false,
        }
    }

    /// Whether some atom of the formula is known true or false in `facts`.
    pub fn can_give_recursive(&self, facts: &Facts) -> (r: bool)
        requires
            self.is_formula(),
        ensures
            r == self.mentions_known(facts@),
        decreases self,
    {
        match self {
            Rule::Char(c) => facts.is_no(*c) || facts.is_yes(*c),
            Rule::Not(l) => l.can_give_recursive(facts),
            Rule::And(l, r) => l.can_give_recursive(facts) || r.can_give_recursive(facts),
            Rule::Or(l, r) => l.can_give_recursive(facts) || r.can_give_recursive(facts),
            Rule::Xor(l, r) => l.can_give_recursive(facts) || r.can_give_recursive(facts),
            _ => false,
        }
    }
}

/// Each store of `v` with true and false swapped.
fn invert_all(v: &Vec<Facts>) -> (r: Vec<Facts>)
    ensures
        views(r@) == invert_each(views(v@)),
{
    let mut r: Vec<Facts> = Vec::new();
    let mut i: usize = 0;
    while i < v.len()
        invariant
            0 <= i <= v.len(),
            views(r@) == invert_each(views(v@.subrange(0, i as int))),
        decreases v.len() - i,
    {
        let f = v[i].invert();
        proof {
            assert(views(r@.push(f)) =~= views(r@).push(f@));
            assert(views(v@.subrange(0, i + 1)) =~= views(v@.subrange(0, i as int)).push(v@[i as int]@));
            assert(invert_each(views(v@.subrange(0, i + 1))) =~= invert_each(views(v@.subrange(0, i as int))).push(v@[i as int]@.invert()));
        }
        r.push(f);
        i += 1;
    }
    assert(v@.subrange(0, i as int) =~= v@);
    r
}

/// Appends to `out` the merges of `a` with each store of `rs` that do not conflict.
fn push_merges(out: Vec<Facts>, a: &Facts, rs: &Vec<Facts>) -> (r: Vec<Facts>)
    ensures
        views(r@) == views(out@) + merge_row(a@, views(rs@)),
{
    let mut out = out;
    let ghost start = views(out@);
    let mut j: usize = 0;
    while j < rs.len()
        invariant
            0 <= j <= rs.len(),
            views(out@) == start + merge_row(a@, views(rs@.subrange(0, j as int))),
        decreases rs.len() - j,
    {
        let ghost done = views(rs@.subrange(0, j as int));
        assert(views(rs@.subrange(0, j + 1)).drop_last() =~= done);
        assert(views(rs@.subrange(0, j + 1)).last() == rs@[j as int]@);
        match a.merge(&rs[j]) {
            Some(m) => {
                assert(views(out@.push(m)) =~= views(out@).push(m@));
                out.push(m);
            },
            None => {},
        }
        j += 1;
    }
    assert(rs@.subrange(0, j as int) =~= rs@);
    out
}

/// The merges of each store of `ls` with each store of `rs` that do not conflict.
fn merge_all(ls: &Vec<Facts>, rs: &Vec<Facts>) -> (r: Vec<Facts>)
    ensures
        views(r@) == merge_pairs(views(ls@), views(rs@)),
{
    let mut out: Vec<Facts> = Vec::new();
    let mut i: usize = 0;
    while i < ls.len()
        invariant
            0 <= i <= ls.len(),
            views(out@) == merge_pairs(views(ls@.subrange(0, i as int)), views(rs@)),
        decreases ls.len() - i,
    {
        assert(views(ls@.subrange(0, i + 1)).drop_last() =~= views(ls@.subrange(0, i as int)));
        assert(views(ls@.subrange(0, i + 1)).last() == ls@[i as int]@);
        out = push_merges(out, &ls[i], rs);
        i += 1;
    }
    assert(ls@.subrange(0, i as int) =~= ls@);
    out
}

/// `a` followed by `b`.
fn concat(a: Vec<Facts>, b: Vec<Facts>) -> (r: Vec<Facts>)
    ensures
        views(r@) == views(a@) + views(b@),
{
    let mut a = a;
    let mut b = b;
    let ghost (va, vb) = (views(a@), views(b@));
    a.append(&mut b);
    assert(views(a@) =~= va + vb);
    a
}

impl Rule {
    /// The partial assignments under which a formula counts as true, as
    /// `enumerate` lists them.
    pub fn possible_combinations_recursive(&self) -> (r: Vec<Facts>)
        requires
            self.is_formula(),
        ensures
            views(r@) == self.enumerate(),
        decreases self,
    {
        match self {
            Rule::Char(c) => {
                let f = Facts::new(&[*c], &[], &[]);
                let mut res: Vec<Facts> = Vec::new();
                res.push(f);
                assert(f@.yes =~= set![*c]);
                assert(f@.no =~= Set::<char>::empty());
                assert(f@.unknown =~= Set::<char>::empty());
                assert(views(res@) =~= seq![only_true(*c)]);
                res
            },
            Rule::Not(l) => invert_all(&l.possible_combinations_recursive()),
            Rule::And(l, r) => {
                let possible_l = l.possible_combinations_recursive();
                let possible_r = r.possible_combinations_recursive();
                merge_all(&possible_l, &possible_r)
            },
            Rule::Or(l, r) => {
                let possible_l = l.possible_combinations_recursive();
                let possible_r = r.possible_combinations_recursive();
                let both = merge_all(&possible_l, &possible_r);
                concat(concat(possible_l, possible_r), both)
            },
            Rule::Xor(l, r) => {
                let possible_l = l.possible_combinations_recursive();
                let possible_r = r.possible_combinations_recursive();
                let left = merge_all(&possible_l, &invert_all(&possible_r));
                let right = merge_all(&invert_all(&possible_l), &possible_r);
                concat(left, right)
            },
            _ => Vec::new(),
        }
    }
}

/// The store that makes exactly the atoms of `s` true.
pub open spec fn all_true(s: Set<char>) -> FactsView {
    FactsView { yes: s, no: Set::empty(), unknown: Set::empty() }
}

/// The optional list of views of an optional list of stores.
pub open spec fn option_views(r: Option<Vec<Facts>>) -> Option<Seq<FactsView>> {
    match r {
        Some(v) => Some(views(v@)),
        None => None,
    }
}

/// The union of two stores that only hold true atoms.
fn join_true(a: &Facts, b: &Facts) -> (r: Facts)
    requires
        a@.no == Set::<char>::empty(),
        a@.unknown == Set::<char>::empty(),
        b@.no == Set::<char>::empty(),
        b@.unknown == Set::<char>::empty(),
    ensures
        r@ == all_true(a@.yes + b@.yes),
        r.wf(),
{
    let m = a.merge(b);
    assert((a@.no + b@.no) =~= Set::<char>::empty());
    assert((a@.unknown + b@.unknown) - (a@.yes + b@.yes) - (a@.no + b@.no) =~= Set::<char>::empty());
    m.unwrap()
}

impl Rule {
    /// Whether this is a rule: an implication or an equivalence between two
    /// formulas.
    pub fn is_well_formed(&self) -> (r: bool)
        ensures
            r == self.is_rule(),
    {
        match self {
            Rule::IfThen(l, r) => l.is_plain_formula() && r.is_plain_formula(),
            Rule::IfAndOnlyIf(l, r) => l.is_plain_formula() && r.is_plain_formula(),
            _ => false,
        }
    }

    /// Whether this is a formula, with no implication or equivalence in it.
    pub fn is_plain_formula(&self) -> (r: bool)
        ensures
            r == self.is_formula(),
        decreases self,
    {
        match self {
            Rule::Char(_) => true,
            Rule::Not(l) => l.is_plain_formula(),
            Rule::And(l, r) => l.is_plain_formula() && r.is_plain_formula(),
            Rule::Or(l, r) => l.is_plain_formula() && r.is_plain_formula(),
            Rule::Xor(l, r) => l.is_plain_formula() && r.is_plain_formula(),
            _ => false,
        }
    }

    /// A copy of the tree.
    pub fn copy(&self) -> (r: Rule)
        ensures
            r == *self,
        decreases self,
    {
        match self {
            Rule::Char(c) => Rule::Char(*c),
            Rule::Not(l) => Rule::Not(Box::new(l.copy())),
            Rule::And(l, r) => Rule::And(Box::new(l.copy()), Box::new(r.copy())),
            Rule::Or(l, r) => Rule::Or(Box::new(l.copy()), Box::new(r.copy())),
            Rule::Xor(l, r) => Rule::Xor(Box::new(l.copy()), Box::new(r.copy())),
            Rule::IfThen(l, r) => Rule::IfThen(Box::new(l.copy()), Box::new(r.copy())),
            Rule::IfAndOnlyIf(l, r) => Rule::IfAndOnlyIf(Box::new(l.copy()), Box::new(r.copy())),
        }
    }

    /// Whether the rule can fire on `facts`: its left side holds, or for an
    /// equivalence either side.
    pub fn can_take(&self, facts: &Facts) -> (r: bool)
        requires
            self.is_rule(),
        ensures
            r == self.fire(facts@).is_some(),
    {
        match self {
            Rule::IfThen(l, _) => l.can_take_recursive(facts),
            Rule::IfAndOnlyIf(l, r) => l.can_take_recursive(facts) || r.can_take_recursive(facts),
            _ => false,
        }
    }

    /// Whether `facts` knows some atom on the side the rule can decide.
    pub fn can_give(&self, facts: &Facts) -> (r: bool)
        requires
            self.is_rule(),
        ensures
            r == match *self {
                Rule::IfThen(_, r) => r.mentions_known(facts@),
                Rule::IfAndOnlyIf(l, r) => l.mentions_known(facts@) || r.mentions_known(facts@),
                _ => false,
            },
    {
        match self {
            Rule::IfThen(_, r) => r.can_give_recursive(facts),
            Rule::IfAndOnlyIf(l, r) => l.can_give_recursive(facts) || r.can_give_recursive(facts),
            _ => false,
        }
    }

    /// The assignments that make the premise true: the left side of an
    /// implication, then for an equivalence those of the right side.
    pub fn possible_inputs(&self) -> (r: Vec<Facts>)
        requires
            self.is_rule(),
        ensures
            views(r@) == match *self {
                Rule::IfThen(l, _) => l.enumerate(),
                Rule::IfAndOnlyIf(l, r) => l.enumerate() + r.enumerate(),
                _ => Seq::empty(),
            },
    {
        match self {
            Rule::IfThen(l, _) => l.possible_combinations_recursive(),
            Rule::IfAndOnlyIf(l, r) => concat(
                l.possible_combinations_recursive(),
                r.possible_combinations_recursive(),
            ),
            _ => Vec::new(),
        }
    }

    /// The assignments that make the conclusion true: the right side of an
    /// implication; for an equivalence those of the left side, then the right.
    pub fn possible_outputs(&self) -> (r: Vec<Facts>)
        requires
            self.is_rule(),
        ensures
            views(r@) == match *self {
                Rule::IfThen(_, r) => r.enumerate(),
                Rule::IfAndOnlyIf(l, r) => l.enumerate() + r.enumerate(),
                _ => Seq::empty(),
            },
    {
        match self {
            Rule::IfThen(_, r) => r.possible_combinations_recursive(),
            Rule::IfAndOnlyIf(l, r) => concat(
                l.possible_combinations_recursive(),
                r.possible_combinations_recursive(),
            ),
            _ => Vec::new(),
        }
    }

    /// The premise atoms of the rule, as true facts.
    pub fn possible_inputs_all(&self) -> (r: Facts)
        requires
            self.is_rule(),
        ensures
            r@ == all_true(self.premise_atoms()),
            r.wf(),
    {
        match self {
            Rule::IfThen(l, _) => l.possible_inputs_all_recursive(),
            Rule::IfAndOnlyIf(l, r) => join_true(
                &l.possible_inputs_all_recursive(),
                &r.possible_inputs_all_recursive(),
            ),
            _ => Facts::new(&[], &[], &[]),
        }
    }

    /// The conclusion atoms of the rule, as true facts.
    pub fn possible_outputs_all(&self) -> (r: Facts)
        requires
            self.is_rule(),
        ensures
            r@ == all_true(self.conclusion_atoms()),
            r.wf(),
    {
        match self {
            Rule::IfThen(_, r) => r.possible_inputs_all_recursive(),
            Rule::IfAndOnlyIf(l, r) => join_true(
                &l.possible_inputs_all_recursive(),
                &r.possible_inputs_all_recursive(),
            ),
            _ => Facts::new(&[], &[], &[]),
        }
    }

    /// The atoms of a formula, as true facts.
    pub fn possible_inputs_all_recursive(&self) -> (r: Facts)
        requires
            self.is_formula(),
        ensures
            r@ == all_true(self.atoms()),
            r.wf(),
        decreases self,
    {
        match self {
            Rule::Char(c) => {
                let f = Facts::new(&[*c], &[], &[]);
                assert(f@.yes =~= set![*c]);
                assert(f@.no =~= Set::<char>::empty());
                assert(f@.unknown =~= Set::<char>::empty());
                f
            },
            Rule::Not(l) => l.possible_inputs_all_recursive(),
            Rule::And(l, r) => join_true(
                &l.possible_inputs_all_recursive(),
                &r.possible_inputs_all_recursive(),
            ),
            Rule::Or(l, r) => join_true(
                &l.possible_inputs_all_recursive(),
                &r.possible_inputs_all_recursive(),
            ),
            Rule::Xor(l, r) => join_true(
                &l.possible_inputs_all_recursive(),
                &r.possible_inputs_all_recursive(),
            ),
            _ => Facts::new(&[], &[], &[]),
        }
    }

    /// The possible outcomes of firing the rule on `facts`, or `None` where its
    /// premise does not hold.
    pub fn try_match(&self, facts: &Facts) -> (r: Option<Vec<Facts>>)
        requires
            self.is_rule(),
        ensures
            option_views(r) == self.fire(facts@),
    {
        match self {
            Rule::IfThen(l, r) => {
                if l.can_take_recursive(facts) {
                    Some(r.possible_combinations_recursive())
                } else {
                    None
                }
            },
            Rule::IfAndOnlyIf(l, r) => {
                if l.can_take_recursive(facts) {
                    Some(r.possible_combinations_recursive())
                } else if r.can_take_recursive(facts) {
                    Some(l.possible_combinations_recursive())
                } else {
                    None
                }
            },
            _ => None,
        }
    }
}

impl Rule {
    /// A formula built from atoms, negated atoms, exclusive ors of two
    /// atoms, conjunctions and disjunctions.
    pub open spec fn is_positive(self) -> bool
        decreases self,
    {
        match self {
            Rule::Char(_) => true,
            Rule::Not(l) => *l matches Rule::Char(_),
            Rule::And(l, r) => l.is_positive() && r.is_positive(),
            Rule::Or(l, r) => l.is_positive() && r.is_positive(),
            Rule::Xor(l, r) => *l matches Rule::Char(_) && *r matches Rule::Char(_),
            _ => false,
        }
    }
}

/// Each merge in a row comes from `a` and some store of `rs`.
proof fn lemma_merge_row_from(a: FactsView, rs: Seq<FactsView>, x: FactsView)
    requires
        merge_row(a, rs).contains(x),
    ensures
        exists|k: int| 0 <= k < rs.len() && a.merge(#[trigger] rs[k]) == Some(x),
    decreases rs.len(),
{
    let before = merge_row(a, rs.drop_last());
    if before.contains(x) {
        lemma_merge_row_from(a, rs.drop_last(), x);
        let k = choose|k: int| 0 <= k < rs.drop_last().len() && a.merge(#[trigger] rs.drop_last()[k]) == Some(x);
        assert(rs[k] == rs.drop_last()[k]);
    } else {
        assert(a.merge(rs[rs.len() - 1]) == Some(x));
    }
}

/// Each merge of pairs comes from a store of `ls` and a store of `rs`.
proof fn lemma_merge_pairs_from(ls: Seq<FactsView>, rs: Seq<FactsView>, x: FactsView)
    requires
        merge_pairs(ls, rs).contains(x),
    ensures
        exists|k: int, m: int|
            0 <= k < ls.len() && 0 <= m < rs.len() && (#[trigger] ls[k]).merge(#[trigger] rs[m])
                == Some(x),
    decreases ls.len(),
{
    let before = merge_pairs(ls.drop_last(), rs);
    if before.contains(x) {
        lemma_merge_pairs_from(ls.drop_last(), rs, x);
        let (k, m) = choose|k: int, m: int|
            0 <= k < ls.drop_last().len() && 0 <= m < rs.len() && (#[trigger] ls.drop_last()[k]).merge(
                #[trigger] rs[m],
            ) == Some(x);
        assert(ls[k] == ls.drop_last()[k]);
    } else {
        let row = merge_row(ls.last(), rs);
        let i = choose|i: int| 0 <= i < (before + row).len() && (before + row)[i] == x;
        assert(row[i - before.len()] == x);
        lemma_merge_row_from(ls.last(), rs, x);
        let m = choose|m: int| 0 <= m < rs.len() && ls.last().merge(#[trigger] rs[m]) == Some(x);
        assert(ls[ls.len() - 1].merge(rs[m]) == Some(x));
    }
}

/// Every store that a merge of pairs yields is consistent.
proof fn lemma_merge_pairs_wf(ls: Seq<FactsView>, rs: Seq<FactsView>)
    ensures
        forall|i: int| 0 <= i < merge_pairs(ls, rs).len() ==> (#[trigger] merge_pairs(ls, rs)[i]).wf(),
{
    assert forall|i: int| 0 <= i < merge_pairs(ls, rs).len() implies (#[trigger] merge_pairs(
        ls,
        rs,
    )[i]).wf() by {
        let x = merge_pairs(ls, rs)[i];
        assert(merge_pairs(ls, rs).contains(x));
        lemma_merge_pairs_from(ls, rs, x);
        let (k, m) = choose|k: int, m: int|
            0 <= k < ls.len() && 0 <= m < rs.len() && (#[trigger] ls[k]).merge(#[trigger] rs[m])
                == Some(x);
        lemma_merge_wf(ls[k], rs[m]);
    }
}

/// No assignment of a formula makes an atom both true and false: each is
/// consistent. (For a conjunction, whose assignments are merges of pairs,
/// conflicting pairs are left out.)
pub proof fn lemma_enumerate_consistent(e: Rule)
    ensures
        forall|i: int| 0 <= i < e.enumerate().len() ==> (#[trigger] e.enumerate()[i]).wf(),
    decreases e,
{
    match e {
        Rule::Char(c) => {
            let s = seq![only_true(c)];
            assert(e.enumerate() == s);
            assert(s[0] == only_true(c));
            assert(only_true(c).yes.disjoint(only_true(c).no));
            assert(only_true(c).wf());
            assert forall|i: int| 0 <= i < e.enumerate().len() implies (
            #[trigger] e.enumerate()[i]).wf() by {
                assert(i == 0);
            }
        },
        Rule::Not(l) => {
            lemma_enumerate_consistent(*l);
            assert forall|i: int| 0 <= i < e.enumerate().len() implies (
            #[trigger] e.enumerate()[i]).wf() by {
                assert(e.enumerate()[i] == l.enumerate()[i].invert());
                assert(l.enumerate()[i].wf());
            }
        },
        Rule::And(l, r) => {
            lemma_merge_pairs_wf(l.enumerate(), r.enumerate());
        },
        Rule::Or(l, r) => {
            lemma_enumerate_consistent(*l);
            lemma_enumerate_consistent(*r);
            lemma_merge_pairs_wf(l.enumerate(), r.enumerate());
            let a = l.enumerate();
            let b = r.enumerate();
            let p = merge_pairs(a, b);
            assert forall|i: int| 0 <= i < e.enumerate().len() implies (
            #[trigger] e.enumerate()[i]).wf() by {
                if i < a.len() {
                    assert(e.enumerate()[i] == a[i]);
                } else if i < a.len() + b.len() {
                    assert(e.enumerate()[i] == b[i - a.len()]);
                } else {
                    assert(e.enumerate()[i] == p[i - a.len() - b.len()]);
                }
            }
        },
        Rule::Xor(l, r) => {
            let a = merge_pairs(l.enumerate(), invert_each(r.enumerate()));
            let b = merge_pairs(invert_each(l.enumerate()), r.enumerate());
            lemma_merge_pairs_wf(l.enumerate(), invert_each(r.enumerate()));
            lemma_merge_pairs_wf(invert_each(l.enumerate()), r.enumerate());
            assert forall|i: int| 0 <= i < e.enumerate().len() implies (
            #[trigger] e.enumerate()[i]).wf() by {
                if i < a.len() {
                    assert(e.enumerate()[i] == a[i]);
                } else {
                    assert(e.enumerate()[i] == b[i - a.len()]);
                }
            }
        },
        _ => {},
    }
}

/// The assignments of a single atom: exactly the one that makes it true.
pub proof fn lemma_enumerate_atom(a: char)
    ensures
        Rule::Char(a).enumerate() == seq![only_true(a)],
{
}

/// A positive formula holds wherever the facts agree with one of its
/// assignments and are consistent.
proof fn lemma_positive_holds(e: Rule, x: FactsView, g: FactsView)
    requires
        e.is_positive(),
        e.enumerate().contains(x),
        x.yes.subset_of(g.yes),
        x.no.subset_of(g.no),
        g.yes.disjoint(g.no),
    ensures
        e.eval(g),
    decreases e,
{
    match e {
        Rule::Char(c) => {
            let s = seq![only_true(c)];
            assert(e.enumerate() == s);
            let i = choose|i: int| 0 <= i < s.len() && s[i] == x;
            assert(s[0] == only_true(c));
            assert(x == only_true(c));
            assert(x.yes.contains(c));
            assert(g.yes.contains(c));
            assert(e.eval(g) == g.yes.contains(c));
        },
        Rule::Not(l) => {
            let c = match *l {
                Rule::Char(c) => c,
                _ => ' ',
            };
            let s = seq![only_true(c)];
            assert(l.enumerate() == s);
            assert(e.enumerate().len() == 1);
            assert(e.enumerate()[0] == s[0].invert());
            let i = choose|i: int| 0 <= i < e.enumerate().len() && e.enumerate()[i] == x;
            assert(x == only_true(c).invert());
            assert(x.no.contains(c));
            assert(g.no.contains(c));
            assert(!g.yes.contains(c));
            assert(*l == Rule::Char(c));
            assert(l.eval(g) == g.yes.contains(c));
        },
        Rule::And(l, r) => {
            lemma_merge_pairs_from(l.enumerate(), r.enumerate(), x);
            let (k, m) = choose|k: int, m: int|
                0 <= k < l.enumerate().len() && 0 <= m < r.enumerate().len() && (
                #[trigger] l.enumerate()[k]).merge(#[trigger] r.enumerate()[m]) == Some(x);
            assert(l.enumerate().contains(l.enumerate()[k]));
            assert(r.enumerate().contains(r.enumerate()[m]));
            lemma_positive_holds(*l, l.enumerate()[k], g);
            lemma_positive_holds(*r, r.enumerate()[m], g);
        },
        Rule::Or(l, r) => {
            let a = l.enumerate();
            let b = r.enumerate();
            let p = merge_pairs(a, b);
            let i = choose|i: int| 0 <= i < e.enumerate().len() && e.enumerate()[i] == x;
            if i < a.len() {
                assert(a[i] == x);
                assert(a.contains(x));
                lemma_positive_holds(*l, x, g);
            } else if i < a.len() + b.len() {
                assert(b[i - a.len()] == x);
                assert(b.contains(x));
                lemma_positive_holds(*r, x, g);
            } else {
                assert(p[i - a.len() - b.len()] == x);
                assert(p.contains(x));
                lemma_merge_pairs_from(a, b, x);
                let (k, m) = choose|k: int, m: int|
                    0 <= k < a.len() && 0 <= m < b.len() && (#[trigger] a[k]).merge(#[trigger] b[m])
                        == Some(x);
                assert(a.contains(a[k]));
                lemma_positive_holds(*l, a[k], g);
            }
        },
        Rule::Xor(l, r) => {
            let a = match *l {
                Rule::Char(c) => c,
                _ => ' ',
            };
            let b = match *r {
                Rule::Char(c) => c,
                _ => ' ',
            };
            assert(*l == Rule::Char(a));
            assert(*r == Rule::Char(b));
            let la = l.enumerate();
            let rb = r.enumerate();
            assert(la == seq![only_true(a)]);
            assert(rb == seq![only_true(b)]);
            assert(invert_each(la)[0] == only_true(a).invert());
            assert(invert_each(rb)[0] == only_true(b).invert());
            let p = merge_pairs(la, invert_each(rb));
            let q = merge_pairs(invert_each(la), rb);
            assert(e.enumerate() == p + q);
            let i = choose|i: int| 0 <= i < (p + q).len() && (p + q)[i] == x;
            if i < p.len() {
                assert(p[i] == x);
                assert(p.contains(x));
                lemma_merge_pairs_from(la, invert_each(rb), x);
                let (k, m) = choose|k: int, m: int|
                    0 <= k < la.len() && 0 <= m < invert_each(rb).len() && (#[trigger] la[k]).merge(
                        #[trigger] invert_each(rb)[m],
                    ) == Some(x);
                assert(x.yes.contains(a));
                assert(x.no.contains(b));
                assert(g.yes.contains(a));
                assert(g.no.contains(b));
                assert(l.eval(g) == g.yes.contains(a));
                assert(r.eval(g) == g.yes.contains(b));
            } else {
                assert(q[i - p.len()] == x);
                assert(q.contains(x));
                lemma_merge_pairs_from(invert_each(la), rb, x);
                let (k, m) = choose|k: int, m: int|
                    0 <= k < invert_each(la).len() && 0 <= m < rb.len() && (
                    #[trigger] invert_each(la)[k]).merge(#[trigger] rb[m]) == Some(x);
                assert(x.yes.contains(b));
                assert(x.no.contains(a));
                assert(g.yes.contains(b));
                assert(g.no.contains(a));
                assert(l.eval(g) == g.yes.contains(a));
                assert(r.eval(g) == g.yes.contains(b));
            }
        },
        _ => {},
    }
}

/// For a formula of atoms, negated atoms, exclusive ors of two atoms,
/// conjunctions and disjunctions,
/// each of its assignments, merged into an empty store, makes it true.
pub proof fn lemma_enumerate_satisfies(e: Rule)
    requires
        e.is_positive(),
    ensures
        forall|i: int|
            0 <= i < e.enumerate().len() ==> (FactsView::empty().merge(#[trigger] e.enumerate()[i])
                matches Some(m) && e.eval(m)),
{
    lemma_enumerate_consistent(e);
    assert forall|i: int| 0 <= i < e.enumerate().len() implies (FactsView::empty().merge(
        #[trigger] e.enumerate()[i],
    ) matches Some(m) && e.eval(m)) by {
        let x = e.enumerate()[i];
        assert(x.wf());
        assert(FactsView::empty().yes + x.yes =~= x.yes);
        assert(FactsView::empty().no + x.no =~= x.no);
        let m = FactsView::empty().merge(x).unwrap();
        assert(e.enumerate().contains(x));
        lemma_positive_holds(e, x, m);
    }
}

impl Rule {
    /// How tightly an operator binds: negations and atoms most, then
    /// conjunction, disjunction, exclusive or, and last the rule arrows.
    pub open spec fn prec(self) -> nat {
        match self {
            Rule::Char(_) => 4,
            Rule::Not(_) => 4,
            Rule::And(_, _) => 3,
            Rule::Or(_, _) => 2,
            Rule::Xor(_, _) => 1,
            _ => 0,
        }
    }

    /// The text of a tree, without parentheses around it.
    pub open spec fn body_text(self) -> Seq<char>
        decreases self, 0nat,
    {
        match self {
            Rule::Char(c) => seq![c],
            Rule::Not(l) => match *l {
                Rule::Char(c) => seq!['!', c],
                _ => seq!['!', '('] + l.text_in(0) + seq![')'],
            },
            Rule::And(l, r) => l.text_in(3) + seq![' ', '+', ' '] + r.text_in(3),
            Rule::Or(l, r) => l.text_in(2) + seq![' ', '|', ' '] + r.text_in(2),
            Rule::Xor(l, r) => l.text_in(1) + seq![' ', '^', ' '] + r.text_in(1),
            Rule::IfThen(l, r) => l.text_in(1) + seq![' ', '=', '>', ' '] + r.text_in(1),
            Rule::IfAndOnlyIf(l, r) => l.text_in(1) + seq![' ', '<', '=', '>', ' '] + r.text_in(1),
        }
    }

    /// The text of a tree that stands where operators binding looser than
    /// `ctx` need parentheses.
    pub open spec fn text_in(self, ctx: nat) -> Seq<char>
        decreases self, 1nat,
    {
        if self.prec() < ctx {
            seq!['('] + self.body_text() + seq![')']
        } else {
            self.body_text()
        }
    }

    /// The canonical text of a tree.
    pub open spec fn text(self) -> Seq<char> {
        self.text_in(0)
    }

    /// `out` followed by the text of the tree, without parentheses around it.
    fn write_body(&self, out: Vec<char>) -> (r: Vec<char>)
        ensures
            r@ == out@ + self.body_text(),
        decreases self, 0nat,
    {
        let mut out = out;
        let ghost start = out@;
        match self {
            Rule::Char(c) => {
                out.push(*c);
                assert(out@ =~= start + self.body_text());
                out
            },
            Rule::Not(l) => match &**l {
                Rule::Char(c) => {
                    out.push('!');
                    out.push(*c);
                    assert(out@ =~= start + self.body_text());
                    out
                },
                _ => {
                    out.push('!');
                    out.push('(');
                    let mut o = l.write_text(out, 0);
                    o.push(')');
                    assert(o@ =~= start + self.body_text());
                    o
                },
            },
            Rule::And(l, r) => {
                let mut o = l.write_text(out, 3);
                o.push(' ');
                o.push('+');
                o.push(' ');
                let o = r.write_text(o, 3);
                assert(o@ =~= start + self.body_text());
                o
            },
            Rule::Or(l, r) => {
                let mut o = l.write_text(out, 2);
                o.push(' ');
                o.push('|');
                o.push(' ');
                let o = r.write_text(o, 2);
                assert(o@ =~= start + self.body_text());
                o
            },
            Rule::Xor(l, r) => {
                let mut o = l.write_text(out, 1);
                o.push(' ');
                o.push('^');
                o.push(' ');
                let o = r.write_text(o, 1);
                assert(o@ =~= start + self.body_text());
                o
            },
            Rule::IfThen(l, r) => {
                let mut o = l.write_text(out, 1);
                o.push(' ');
                o.push('=');
                o.push('>');
                o.push(' ');
                let o = r.write_text(o, 1);
                assert(o@ =~= start + self.body_text());
                o
            },
            Rule::IfAndOnlyIf(l, r) => {
                let mut o = l.write_text(out, 1);
                o.push(' ');
                o.push('<');
                o.push('=');
                o.push('>');
                o.push(' ');
                let o = r.write_text(o, 1);
                assert(o@ =~= start + self.body_text());
                o
            },
        }
    }

    /// `out` followed by the text of the tree in context `ctx`.
    fn write_text(&self, out: Vec<char>, ctx: u8) -> (r: Vec<char>)
        ensures
            r@ == out@ + self.text_in(ctx as nat),
        decreases self, 1nat,
    {
        let p: u8 = match self {
            Rule::Char(_) => 4,
            Rule::Not(_) => 4,
            Rule::And(_, _) => 3,
            Rule::Or(_, _) => 2,
            Rule::Xor(_, _) => 1,
            _ => 0,
        };
        if p < ctx {
            let mut out = out;
            let ghost start = out@;
            out.push('(');
            let mut out = self.write_body(out);
            out.push(')');
            assert(out@ =~= start + self.text_in(ctx as nat));
            out
        } else {
            self.write_body(out)
        }
    }

    /// The canonical text of the tree: operators bind from `!` (tightest)
    /// through `+`, `|` and `^` to `=>` and `<=>`; a subtree is put in
    /// parentheses only where it binds looser than its place asks, and a
    /// negation of anything but an atom always is.
    pub fn to_string(&self) -> (r: String)
        ensures
            r@ == self.text(),
    {
        let v = self.write_text(Vec::new(), 0);
        assert(v@ =~= self.text());
        chars_to_string(&v)
    }
}

/// Stores that ask for nothing merge into one that asks for nothing.
proof fn lemma_merge_pairs_nothing_unknown(ls: Seq<FactsView>, rs: Seq<FactsView>)
    requires
        forall|i: int| 0 <= i < ls.len() ==> (#[trigger] ls[i]).unknown == Set::<char>::empty(),
        forall|i: int| 0 <= i < rs.len() ==> (#[trigger] rs[i]).unknown == Set::<char>::empty(),
    ensures
        forall|i: int|
            0 <= i < merge_pairs(ls, rs).len() ==> (#[trigger] merge_pairs(ls, rs)[i]).unknown
                == Set::<char>::empty(),
{
    assert forall|i: int| 0 <= i < merge_pairs(ls, rs).len() implies (#[trigger] merge_pairs(
        ls,
        rs,
    )[i]).unknown == Set::<char>::empty() by {
        let x = merge_pairs(ls, rs)[i];
        assert(merge_pairs(ls, rs).contains(x));
        lemma_merge_pairs_from(ls, rs, x);
        let (k, m) = choose|k: int, m: int|
            0 <= k < ls.len() && 0 <= m < rs.len() && (#[trigger] ls[k]).merge(#[trigger] rs[m])
                == Some(x);
        assert(x.unknown =~= Set::<char>::empty());
    }
}

/// The assignments of a formula ask for no atoms.
pub proof fn lemma_enumerate_nothing_unknown(e: Rule)
    ensures
        forall|i: int|
            0 <= i < e.enumerate().len() ==> (#[trigger] e.enumerate()[i]).unknown == Set::<
                char,
            >::empty(),
    decreases e,
{
    match e {
        Rule::Char(c) => {
            let s = seq![only_true(c)];
            assert(e.enumerate() == s);
            assert forall|i: int| 0 <= i < e.enumerate().len() implies (
            #[trigger] e.enumerate()[i]).unknown == Set::<char>::empty() by {
                assert(i == 0);
            }
        },
        Rule::Not(l) => {
            lemma_enumerate_nothing_unknown(*l);
            assert forall|i: int| 0 <= i < e.enumerate().len() implies (
            #[trigger] e.enumerate()[i]).unknown == Set::<char>::empty() by {
                assert(e.enumerate()[i] == l.enumerate()[i].invert());
            }
        },
        Rule::And(l, r) => {
            lemma_enumerate_nothing_unknown(*l);
            lemma_enumerate_nothing_unknown(*r);
            lemma_merge_pairs_nothing_unknown(l.enumerate(), r.enumerate());
        },
        Rule::Or(l, r) => {
            lemma_enumerate_nothing_unknown(*l);
            lemma_enumerate_nothing_unknown(*r);
            lemma_merge_pairs_nothing_unknown(l.enumerate(), r.enumerate());
            let a = l.enumerate();
            let b = r.enumerate();
            let p = merge_pairs(a, b);
            assert forall|i: int| 0 <= i < e.enumerate().len() implies (
            #[trigger] e.enumerate()[i]).unknown == Set::<char>::empty() by {
                if i < a.len() {
                    assert(e.enumerate()[i] == a[i]);
                } else if i < a.len() + b.len() {
                    assert(e.enumerate()[i] == b[i - a.len()]);
                } else {
                    assert(e.enumerate()[i] == p[i - a.len() - b.len()]);
                }
            }
        },
        Rule::Xor(l, r) => {
            lemma_enumerate_nothing_unknown(*l);
            lemma_enumerate_nothing_unknown(*r);
            let il = invert_each(l.enumerate());
            let ir = invert_each(r.enumerate());
            assert forall|i: int| 0 <= i < ir.len() implies (#[trigger] ir[i]).unknown == Set::<
                char,
            >::empty() by {
                assert(ir[i] == r.enumerate()[i].invert());
            }
            assert forall|i: int| 0 <= i < il.len() implies (#[trigger] il[i]).unknown == Set::<
                char,
            >::empty() by {
                assert(il[i] == l.enumerate()[i].invert());
            }
            lemma_merge_pairs_nothing_unknown(l.enumerate(), ir);
            lemma_merge_pairs_nothing_unknown(il, r.enumerate());
            let a = merge_pairs(l.enumerate(), ir);
            let b = merge_pairs(il, r.enumerate());
            assert forall|i: int| 0 <= i < e.enumerate().len() implies (
            #[trigger] e.enumerate()[i]).unknown == Set::<char>::empty() by {
                if i < a.len() {
                    assert(e.enumerate()[i] == a[i]);
                } else {
                    assert(e.enumerate()[i] == b[i - a.len()]);
                }
            }
        },
        _ => {},
    }
}

} // verus!
