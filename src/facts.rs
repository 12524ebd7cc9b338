use vstd::prelude::*;

verus! {

broadcast use vstd::seq_lib::group_seq_properties;

/// What a fact store says, as three sets of atoms.
pub struct FactsView {
    pub yes: Set<char>,
    pub no: Set<char>,
    pub unknown: Set<char>,
}

impl FactsView {
    /// No atom is both true and false, and no unknown atom is known.
    pub open spec fn wf(self) -> bool {
        &&& self.yes.disjoint(self.no)
        &&& self.unknown.disjoint(self.yes)
        &&& self.unknown.disjoint(self.no)
    }

    /// The atoms with a determined value.
    pub open spec fn known(self) -> Set<char> {
        self.yes + self.no
    }

    /// Union of both stores, or `None` where an atom would be both true and false.
    pub open spec fn merge(self, other: FactsView) -> Option<FactsView> {
        let yes = self.yes + other.yes;
        let no = self.no + other.no;
        if yes.disjoint(no) {
            Some(FactsView { yes, no, unknown: (self.unknown + other.unknown) - yes - no })
        } else {
            None
        }
    }

    /// True atoms become false and false ones true.
    pub open spec fn invert(self) -> FactsView {
        FactsView { yes: self.no, no: self.yes, unknown: self.unknown }
    }

    /// The store that knows nothing and asks for nothing.
    pub open spec fn empty() -> FactsView {
        FactsView { yes: Set::empty(), no: Set::empty(), unknown: Set::empty() }
    }
}

/// The view of an optional store.
pub open spec fn option_view(r: Option<Facts>) -> Option<FactsView> {
    match r {
        Some(f) => Some(f@),
        None => None,
    }
}

/// A tri-state fact store: atoms known true, known false, and still to be found.
#[derive(Debug)]
pub struct Facts {
    pub yes: Vec<char>,
    pub no: Vec<char>,
    pub unknown: Vec<char>,
}

impl View for Facts {
    type V = FactsView;

    open spec fn view(&self) -> FactsView {
        FactsView { yes: self.yes@.to_set(), no: self.no@.to_set(), unknown: self.unknown@.to_set() }
    }
}

/// Whether `c` occurs in `v`.
pub(crate) fn contains_atom(v: &[char], c: char) -> (r: bool)
    ensures
        r == v@.contains(c),
{
    let mut i: usize = 0;
    while i < v.len()
        invariant
            0 <= i <= v.len(),
            forall|k: int| 0 <= k < i ==> v@[k] != c,
        decreases v.len() - i,
    {
        if v[i] == c {
            return true;
        }
        i += 1;
    }
    false
}

/// `dst` followed by each atom of `src` that is in neither `skip_a` nor `skip_b`
/// and not yet there.
pub(crate) fn add_unless(dst: Vec<char>, src: &[char], skip_a: &[char], skip_b: &[char]) -> (r: Vec<char>)
    requires
        dst@.no_duplicates(),
    ensures
        r@.no_duplicates(),
        r@.to_set() == dst@.to_set() + (src@.to_set() - skip_a@.to_set() - skip_b@.to_set()),
{
    let mut dst = dst;
    let ghost start = dst@;
    let mut i: usize = 0;
    while i < src.len()
        invariant
            0 <= i <= src.len(),
            dst@.no_duplicates(),
            forall|x: char|
                dst@.contains(x) <==> (start.contains(x) || (src@.subrange(0, i as int).contains(
                    x) && !skip_a@.contains(x) && !skip_b@.contains(x))),
        decreases src.len() - i,
    {
        let c = src[i];
        let ghost before = dst@;
        if !contains_atom(skip_a, c) && !contains_atom(skip_b, c) && !contains_atom(
            dst.as_slice(),
            c,
        ) {
            dst.push(c);
        }
        let ghost seen = src@.subrange(0, i as int);
        i += 1;
        proof {
            assert(src@.subrange(0, i as int) =~= seen.push(c));
            assert forall|x: char|
                dst@.contains(x) <==> (start.contains(x) || (src@.subrange(0, i as int).contains(x)
                    && !skip_a@.contains(x) && !skip_b@.contains(x))) by {
                assert(before.contains(x) <==> (start.contains(x) || (seen.contains(x)
                    && !skip_a@.contains(x) && !skip_b@.contains(x))));
                assert(seen.push(c).contains(x) <==> (seen.contains(x) || x == c));
            }
        }
    }
    assert(src@.subrange(0, i as int) =~= src@);
    assert forall|x: char|
        dst@.to_set().contains(x) <==> (start.to_set() + (src@.to_set() - skip_a@.to_set()
            - skip_b@.to_set())).contains(x) by {
        assert(dst@.contains(x) <==> (start.contains(x) || (src@.contains(x)
            && !skip_a@.contains(x) && !skip_b@.contains(x))));
    }
    assert(dst@.to_set() =~= start.to_set() + (src@.to_set() - skip_a@.to_set()
        - skip_b@.to_set()));
    dst
}

/// `src` without repetitions.
fn distinct(src: &[char]) -> (r: Vec<char>)
    ensures
        r@.no_duplicates(),
        r@.to_set() == src@.to_set(),
{
    let r = add_unless(Vec::new(), src, &[], &[]);
    assert(r@.to_set() =~= src@.to_set());
    r
}

/// Whether some atom of `v` occurs in `w`.
pub(crate) fn overlaps(v: &[char], w: &[char]) -> (r: bool)
    ensures
        r == !v@.to_set().disjoint(w@.to_set()),
{
    let mut i: usize = 0;
    while i < v.len()
        invariant
            0 <= i <= v.len(),
            forall|k: int| 0 <= k < i ==> !w@.contains(#[trigger] v@[k]),
        decreases v.len() - i,
    {
        if contains_atom(w, v[i]) {
            assert(v@.to_set().contains(v@[i as int]));
            return true;
        }
        i += 1;
    }
    assert forall|x: char| v@.to_set().contains(x) implies !w@.to_set().contains(x) by {
        let k = choose|k: int| 0 <= k < v@.len() && v@[k] == x;
    }
    false
}

/// A sequence without repetitions holds something exactly when it is not empty.
pub(crate) proof fn lemma_empty_set(s: Seq<char>)
    ensures
        (s.to_set() == Set::<char>::empty()) == (s.len() == 0),
{
    if s.len() == 0 {
        assert(s.to_set() =~= Set::<char>::empty());
    } else {
        assert(s.to_set().contains(s[0]));
    }
}

impl Facts {
    /// No atom is listed twice, and the view is consistent.
    pub open spec fn wf(&self) -> bool {
        &&& self.yes@.no_duplicates()
        &&& self.no@.no_duplicates()
        &&& self.unknown@.no_duplicates()
        &&& self@.wf()
    }

    /// A store of the given true and false atoms that still has to find the
    /// `unknown` ones; those already true or false are dropped from it.
    pub fn new(yes: &[char], no: &[char], unknown: &[char]) -> (r: Facts)
        requires
            yes@.to_set().disjoint(no@.to_set()),
        ensures
            r.wf(),
            r@ == (FactsView {
                yes: yes@.to_set(),
                no: no@.to_set(),
                unknown: unknown@.to_set() - yes@.to_set() - no@.to_set(),
            }),
    {
        let y = distinct(yes);
        let n = distinct(no);
        let u = add_unless(Vec::new(), unknown, yes, no);
        assert(u@.to_set() =~= unknown@.to_set() - yes@.to_set() - no@.to_set());
        Facts { yes: y, no: n, unknown: u }
    }

    /// Merge `self` with `other`: `None` where an atom would be both true and
    /// false; otherwise the unions, with every known atom taken out of `unknown`.
    pub fn merge(&self, other: &Facts) -> (r: Option<Facts>)
        ensures
            option_view(r) == self@.merge(other@),
            r matches Some(f) ==> f.wf(),
    {
        let yes = add_unless(distinct(self.yes.as_slice()), other.yes.as_slice(), &[], &[]);
        let no = add_unless(distinct(self.no.as_slice()), other.no.as_slice(), &[], &[]);
        assert(yes@.to_set() =~= self@.yes + other@.yes);
        assert(no@.to_set() =~= self@.no + other@.no);
        if overlaps(yes.as_slice(), no.as_slice()) {
            return None;
        }
        let unknown = add_unless(
            Vec::new(),
            self.unknown.as_slice(),
            yes.as_slice(),
            no.as_slice(),
        );
        let unknown = add_unless(unknown, other.unknown.as_slice(), yes.as_slice(), no.as_slice());
        let r = Facts { yes, no, unknown };
        assert(r@.unknown =~= (self@.unknown + other@.unknown) - r@.yes - r@.no);
        Some(r)
    }

    /// A copy with the same atoms in the same places.
    pub fn copy(&self) -> (r: Facts)
        ensures
            r.yes@ == self.yes@,
            r.no@ == self.no@,
            r.unknown@ == self.unknown@,
    {
        Facts { yes: copy_atoms(&self.yes), no: copy_atoms(&self.no), unknown: copy_atoms(&self.unknown) }
    }

    /// Make true facts false and false facts true.
    pub fn invert(&self) -> (r: Facts)
        ensures
            r@ == self@.invert(),
            self.wf() ==> r.wf(),
    {
        Facts { yes: copy_atoms(&self.no), no: copy_atoms(&self.yes), unknown: copy_atoms(&self.unknown) }
    }

    /// Whether each of the chosen sets is empty.
    pub fn is_empty(&self, check_yes: bool, check_no: bool, check_unknown: bool) -> (r: bool)
        ensures
            r == ((check_yes ==> self@.yes == Set::<char>::empty()) && (check_no ==> self@.no
                == Set::<char>::empty()) && (check_unknown ==> self@.unknown
                == Set::<char>::empty())),
    {
        proof {
            lemma_empty_set(self.yes@);
            lemma_empty_set(self.no@);
            lemma_empty_set(self.unknown@);
        }
        if check_yes && self.yes.len() != 0 {
            return false;
        }
        if check_no && self.no.len() != 0 {
            return false;
        }
        if check_unknown && self.unknown.len() != 0 {
            return false;
        }
        true
    }

    /// Whether `c` is known true.
    pub fn is_yes(&self, c: char) -> (r: bool)
        ensures
            r == self@.yes.contains(c),
    {
        contains_atom(self.yes.as_slice(), c)
    }

    /// Whether `c` is known false.
    pub fn is_no(&self, c: char) -> (r: bool)
        ensures
            r == self@.no.contains(c),
    {
        contains_atom(self.no.as_slice(), c)
    }

    /// Whether `c` is still to be found.
    pub fn is_unknown(&self, c: char) -> (r: bool)
        ensures
            r == self@.unknown.contains(c),
    {
        contains_atom(self.unknown.as_slice(), c)
    }

    /// Remove from the true atoms of `self` those that `other` knows.
    pub fn remove_contained(&mut self, other: &Facts)
        ensures
            final(self)@ == (FactsView { yes: old(self)@.yes - other@.known(), ..old(self)@ }),
            old(self).wf() ==> final(self).wf(),
    {
        let yes = add_unless(Vec::new(), self.yes.as_slice(), other.yes.as_slice(), other.no.as_slice());
        assert(yes@.to_set() =~= self@.yes - other@.known());
        self.yes = yes;
    }
}

/// A copy of `v`.
pub(crate) fn copy_atoms(v: &Vec<char>) -> (r: Vec<char>)
    ensures
        r@ == v@,
{
    let mut r: Vec<char> = Vec::new();
    let mut i: usize = 0;
    while i < v.len()
        invariant
            0 <= i <= v.len(),
            r@ == v@.subrange(0, i as int),
        decreases v.len() - i,
    {
        r.push(v[i]);
        i += 1;
    }
    r
}

/// Merging does not depend on the order of the two stores.
pub proof fn lemma_merge_commutative(a: FactsView, b: FactsView)
    ensures
        a.merge(b) == b.merge(a),
{
    assert(a.yes + b.yes =~= b.yes + a.yes);
    assert(a.no + b.no =~= b.no + a.no);
    assert(a.unknown + b.unknown =~= b.unknown + a.unknown);
}

/// Merging three stores gives the same result however it is grouped, and
/// fails for one grouping exactly when it fails for the other.
pub proof fn lemma_merge_associative(a: FactsView, b: FactsView, c: FactsView)
    ensures
        match a.merge(b) {
            Some(ab) => ab.merge(c),
            None => None,
        } == match b.merge(c) {
            Some(bc) => a.merge(bc),
            None => None,
        },
{
    let yes = a.yes + b.yes + c.yes;
    let no = a.no + b.no + c.no;
    assert(a.yes + (b.yes + c.yes) =~= yes);
    assert(a.no + (b.no + c.no) =~= no);
    if !(a.yes + b.yes).disjoint(a.no + b.no) {
        let x = choose|x: char| (a.yes + b.yes).contains(x) && (a.no + b.no).contains(x);
        assert(yes.contains(x) && no.contains(x));
    }
    if !(b.yes + c.yes).disjoint(b.no + c.no) {
        let x = choose|x: char| (b.yes + c.yes).contains(x) && (b.no + c.no).contains(x);
        assert(yes.contains(x) && no.contains(x));
    }
    if yes.disjoint(no) {
        let u = (a.unknown + b.unknown + c.unknown) - yes - no;
        assert(((a.unknown + b.unknown) - (a.yes + b.yes) - (a.no + b.no) + c.unknown) - yes - no
            =~= u);
        assert((a.unknown + ((b.unknown + c.unknown) - (b.yes + c.yes) - (b.no + c.no))) - yes - no
            =~= u);
    }
}

/// A consistent store merged with itself is itself.
pub proof fn lemma_merge_idempotent(a: FactsView)
    requires
        a.wf(),
    ensures
        a.merge(a) == Some(a),
{
    assert(a.yes + a.yes =~= a.yes);
    assert(a.no + a.no =~= a.no);
    assert((a.unknown + a.unknown) - a.yes - a.no =~= a.unknown);
}

/// Inverting twice gives the store back.
pub proof fn lemma_invert_involutive(f: FactsView)
    ensures
        f.invert().invert() == f,
{
}

/// Every successful merge is consistent.
pub proof fn lemma_merge_wf(a: FactsView, b: FactsView)
    ensures
        a.merge(b) matches Some(m) ==> m.wf(),
{
}

/// Relies on `String`'s `FromIterator<&char>`: the string holds the
/// characters in order.
#[verifier::external_body]
pub(crate) fn chars_to_string(v: &Vec<char>) -> (r: String)
    ensures
        r@ == v@,
{
    v.iter().collect()
}

/// Each atom comes before every later one.
pub open spec fn strictly_sorted(q: Seq<char>) -> bool {
    forall|i: int, j: int| 0 <= i < j < q.len() ==> (q[i] as u32) < (q[j] as u32)
}

/// The atoms of `q` separated by a comma and a space.
pub open spec fn list_text(q: Seq<char>) -> Seq<char>
    decreases q.len(),
{
    if q.len() == 0 {
        Seq::empty()
    } else if q.len() == 1 {
        seq![q[0]]
    } else {
        list_text(q.drop_last()) + seq![',', ' ', q.last()]
    }
}

/// A labelled list of atoms, or nothing where there are none.
pub open spec fn section_text(label: Seq<char>, q: Seq<char>) -> Seq<char> {
    if q.len() == 0 {
        Seq::empty()
    } else {
        seq![' '] + label + seq![':', ' '] + list_text(q) + seq![' ']
    }
}

/// The text of a store whose true, false and unknown atoms are listed in `y`,
/// `n` and `u`.
pub open spec fn facts_text(y: Seq<char>, n: Seq<char>, u: Seq<char>) -> Seq<char> {
    seq!['('] + section_text(seq!['t', 'r', 'u', 'e'], y) + section_text(
        seq!['f', 'a', 'l', 's', 'e'],
        n,
    ) + section_text(seq!['u', 'n', 'k', 'n', 'o', 'w', 'n'], u) + seq![')']
}

/// The atoms of `v` in increasing order, each once.
fn sorted_atoms(v: &Vec<char>) -> (r: Vec<char>)
    ensures
        strictly_sorted(r@),
        r@.to_set() == v@.to_set(),
{
    let mut r: Vec<char> = Vec::new();
    let mut i: usize = 0;
    while i < v.len()
        invariant
            0 <= i <= v.len(),
            strictly_sorted(r@),
            r@.to_set() == v@.subrange(0, i as int).to_set(),
        decreases v.len() - i,
    {
        let c = v[i];
        let mut k: usize = 0;
        while k < r.len()
            invariant
                0 <= k <= r.len(),
                forall|m: int| 0 <= m < k ==> (r@[m] as u32) < (c as u32),
            ensures
                0 <= k <= r.len(),
                forall|m: int| 0 <= m < k ==> (r@[m] as u32) < (c as u32),
                k < r.len() ==> (r@[k as int] as u32) >= (c as u32),
            decreases r.len() - k,
        {
            if (r[k] as u32) >= (c as u32) {
                break;
            }
            k += 1;
        }
        let ghost before = r@;
        if k == r.len() || r[k] != c {
            proof {
                if k < r.len() {
                    vstd::utf8::char_u32_cast(before[k as int], before[k as int] as u32);
                    vstd::utf8::char_u32_cast(c, c as u32);
                }
            }
            r.insert(k, c);
            proof {
                before.insert_ensures(k as int, c);
                assert forall|a: int, b: int| 0 <= a < b < r@.len() implies (r@[a] as u32) < (
                r@[b] as u32) by {
                    if b < k {
                        assert(r@[a] == before[a] && r@[b] == before[b]);
                    } else if b == k {
                        assert(r@[a] == before[a]);
                    } else if a < k {
                        assert(r@[a] == before[a] && r@[b] == before[b - 1]);
                        assert((before[k as int] as u32) > (c as u32));
                        if b - 1 > k {
                            assert((before[k as int] as u32) < (before[b - 1] as u32));
                        }
                    } else if a == k {
                        assert(r@[b] == before[b - 1]);
                        assert((before[k as int] as u32) > (c as u32));
                        if b - 1 > k {
                            assert((before[k as int] as u32) < (before[b - 1] as u32));
                        }
                    } else {
                        assert(r@[a] == before[a - 1] && r@[b] == before[b - 1]);
                    }
                }
                assert(r@.to_set() =~= before.to_set().insert(c)) by {
                    assert forall|x: char| r@.contains(x) implies before.to_set().insert(c).contains(
                        x,
                    ) by {
                        let m = choose|m: int| 0 <= m < r@.len() && r@[m] == x;
                        if m < k {
                            assert(before[m] == x);
                        } else if m > k {
                            assert(before[m - 1] == x);
                        }
                    }
                    assert forall|x: char| before.to_set().insert(c).contains(x) implies r@.contains(
                        x,
                    ) by {
                        if x == c {
                            assert(r@[k as int] == c);
                        } else {
                            let m = choose|m: int| 0 <= m < before.len() && before[m] == x;
                            if m < k {
                                assert(r@[m] == x);
                            } else {
                                assert(r@[m + 1] == x);
                            }
                        }
                    }
                }
            }
        } else {
            assert(before.to_set() =~= before.to_set().insert(c)) by {
                assert(before.contains(c));
            }
        }
        assert(v@.subrange(0, i + 1) =~= v@.subrange(0, i as int).push(c));
        assert(v@.subrange(0, i + 1).to_set() =~= v@.subrange(0, i as int).to_set().insert(c));
        i += 1;
    }
    assert(v@.subrange(0, i as int) =~= v@);
    r
}

/// `out` followed by the atoms of `q` separated by a comma and a space.
fn write_list(out: Vec<char>, q: &Vec<char>) -> (r: Vec<char>)
    ensures
        r@ == out@ + list_text(q@),
{
    let mut out = out;
    let ghost start = out@;
    let mut i: usize = 0;
    while i < q.len()
        invariant
            0 <= i <= q.len(),
            out@ == start + list_text(q@.subrange(0, i as int)),
        decreases q.len() - i,
    {
        let ghost done = q@.subrange(0, i as int);
        let ghost next = q@.subrange(0, i + 1);
        assert(next.drop_last() =~= done);
        if i == 0 {
            out.push(q[i]);
            assert(list_text(next) =~= seq![q@[0]]);
        } else {
            out.push(',');
            out.push(' ');
            out.push(q[i]);
        }
        assert(out@ =~= start + list_text(next));
        i += 1;
    }
    assert(q@.subrange(0, i as int) =~= q@);
    out
}

/// `out` followed by the section `label` of the atoms of `q`.
fn write_section(out: Vec<char>, label: &Vec<char>, q: &Vec<char>) -> (r: Vec<char>)
    ensures
        r@ == out@ + section_text(label@, q@),
{
    if q.len() == 0 {
        assert(out@ =~= out@ + section_text(label@, q@));
        return out;
    }
    let mut out = out;
    let ghost start = out@;
    out.push(' ');
    let mut i: usize = 0;
    while i < label.len()
        invariant
            0 <= i <= label.len(),
            out@ == start + seq![' '] + label@.subrange(0, i as int),
        decreases label.len() - i,
    {
        out.push(label[i]);
        assert(label@.subrange(0, i + 1) =~= label@.subrange(0, i as int).push(label@[i as int]));
        assert(out@ =~= start + seq![' '] + label@.subrange(0, i + 1));
        i += 1;
    }
    assert(label@.subrange(0, i as int) =~= label@);
    out.push(':');
    out.push(' ');
    let mut out = write_list(out, q);
    out.push(' ');
    assert(out@ =~= start + section_text(label@, q@));
    out
}

/// The characters of a label.
fn label(s: &[char]) -> (r: Vec<char>)
    ensures
        r@ == s@,
{
    let mut r: Vec<char> = Vec::new();
    let mut i: usize = 0;
    while i < s.len()
        invariant
            0 <= i <= s.len(),
            r@ == s@.subrange(0, i as int),
        decreases s.len() - i,
    {
        r.push(s[i]);
        i += 1;
    }
    assert(s@.subrange(0, i as int) =~= s@);
    r
}

impl Facts {
    /// The text of the store: each non-empty set with its label, its atoms
    /// in increasing order.
    pub fn to_string(&self) -> (r: String)
        ensures
            exists|y: Seq<char>, n: Seq<char>, u: Seq<char>|
                strictly_sorted(y) && y.to_set() == self@.yes && strictly_sorted(n) && n.to_set()
                    == self@.no && strictly_sorted(u) && u.to_set() == self@.unknown && r@
                    == facts_text(y, n, u),
    {
        let y = sorted_atoms(&self.yes);
        let n = sorted_atoms(&self.no);
        let u = sorted_atoms(&self.unknown);
        let mut out: Vec<char> = Vec::new();
        out.push('(');
        let out = write_section(out, &label(&['t', 'r', 'u', 'e']), &y);
        let out = write_section(out, &label(&['f', 'a', 'l', 's', 'e']), &n);
        let mut out = write_section(out, &label(&['u', 'n', 'k', 'n', 'o', 'w', 'n']), &u);
        out.push(')');
        assert(out@ =~= facts_text(y@, n@, u@));
        chars_to_string(&out)
    }
}

/// Whether no atom occurs twice in `v`.
fn no_repeats(v: &[char]) -> (r: bool)
    ensures
        r == v@.no_duplicates(),
{
    let mut i: usize = 0;
    while i < v.len()
        invariant
            0 <= i <= v.len(),
            forall|a: int, b: int| 0 <= a < b < v@.len() && a < i ==> v@[a] != v@[b],
        decreases v.len() - i,
    {
        let mut j: usize = i + 1;
        while j < v.len()
            invariant
                i < j <= v.len(),
                i < v.len(),
                forall|a: int, b: int| 0 <= a < b < v@.len() && a < i ==> v@[a] != v@[b],
                forall|b: int| i < b < j ==> v@[i as int] != v@[b],
            decreases v.len() - j,
        {
            if v[i] == v[j] {
                return false;
            }
            j += 1;
        }
        i += 1;
    }
    true
}

impl Facts {
    /// Whether the store is consistent: no atom listed twice, none both true
    /// and false, none unknown that is known.
    pub fn is_well_formed(&self) -> (r: bool)
        ensures
            r == self.wf(),
    {
        no_repeats(self.yes.as_slice()) && no_repeats(self.no.as_slice()) && no_repeats(
            self.unknown.as_slice(),
        ) && !overlaps(self.yes.as_slice(), self.no.as_slice()) && !overlaps(
            self.unknown.as_slice(),
            self.yes.as_slice(),
        ) && !overlaps(self.unknown.as_slice(), self.no.as_slice())
    }
}

} // verus!
