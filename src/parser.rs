use vstd::prelude::*;
use vstd::string::StrSliceExecFns;

use crate::facts::{Facts, FactsView};
use crate::rule::Rule;
use crate::session::Query;

verus! {

/// What the parser wanted where it stopped.
#[derive(Debug, Clone, Copy, PartialEq, Eq, Structural)]
pub enum Expected {
    /// A letter, `!` or `(`.
    Operand,
    /// A closing parenthesis.
    CloseParen,
    /// `=>` or `<=>`.
    Arrow,
    /// A letter.
    Letter,
    /// The end of the line.
    End,
}

/// Where and why a line could not be read.
#[derive(Debug, Clone, Copy, PartialEq, Eq, Structural)]
pub struct ParseError {
    /// The character position at which reading stopped.
    pub offset: usize,
    pub expected: Expected,
}

/// A query as the grammar reads it, with the atoms of a fact list as a view.
pub enum QueryView {
    Rule(Rule),
    Given(FactsView),
    Find(FactsView),
    Dump,
    Delete(Rule),
}

/// What a parse of an expression gives: the tree and where it ends, or where
/// it stopped and what it wanted there.
pub type ExprResult = Result<(Rule, int), (int, Expected)>;

/// A space or a tab.
pub open spec fn is_ws(c: char) -> bool {
    c == ' ' || c == '\t'
}

/// An ASCII letter of either case.
pub open spec fn is_letter(c: char) -> bool {
    ('a' <= c && c <= 'z') || ('A' <= c && c <= 'Z')
}

/// A lower-case letter made upper case; anything else unchanged.
pub open spec fn upper(c: char) -> char {
    if 'a' <= c && c <= 'z' {
        ((c as u32 - 32) as u8) as char
    } else {
        c
    }
}

/// The first position from `p` on that is not a space or a tab.
pub open spec fn skip_ws(s: Seq<char>, p: int) -> int
    decreases s.len() - p,
{
    if 0 <= p < s.len() && is_ws(s[p]) {
        skip_ws(s, p + 1)
    } else {
        p
    }
}

/// The operator of a binding level: `+` binds tightest, then `|`, then `^`.
pub open spec fn op_char(lvl: nat) -> char {
    if lvl == 1 {
        '+'
    } else if lvl == 2 {
        '|'
    } else {
        '^'
    }
}

/// The tree of a binary operator of a binding level.
pub open spec fn combine(lvl: nat, l: Rule, r: Rule) -> Rule {
    if lvl == 1 {
        Rule::And(Box::new(l), Box::new(r))
    } else if lvl == 2 {
        Rule::Or(Box::new(l), Box::new(r))
    } else {
        Rule::Xor(Box::new(l), Box::new(r))
    }
}

/// An expression of binding level `lvl` from `p` on. Level 0 is an operand
/// with the spaces around it: a letter (made upper case), `!` and an operand,
/// or an expression of level 3 in parentheses. Level 1 to 3 is a list of
/// expressions of the level below joined by the level's operator, grouped
/// from the left.
pub open spec fn parse_expr(s: Seq<char>, p: int, lvl: nat) -> ExprResult
    decreases (s.len() - p) as nat, 2 * lvl + 1,
{
    if lvl == 0 {
        let q = skip_ws(s, p);
        if q < p || q >= s.len() {
            Err((q, Expected::Operand))
        } else if s[q] == '(' {
            match parse_expr(s, q + 1, 3) {
                Ok((e, mid)) => {
                    let stop = skip_ws(s, mid);
                    if 0 <= stop < s.len() && s[stop] == ')' {
                        Ok((e, skip_ws(s, stop + 1)))
                    } else {
                        Err((stop, Expected::CloseParen))
                    }
                },
                Err(x) => Err(x),
            }
        } else if is_letter(s[q]) {
            Ok((Rule::Char(upper(s[q])), skip_ws(s, q + 1)))
        } else if s[q] == '!' {
            match parse_expr(s, q + 1, 0) {
                Ok((e, mid)) => Ok((Rule::Not(Box::new(e)), mid)),
                Err(x) => Err(x),
            }
        } else {
            Err((q, Expected::Operand))
        }
    } else {
        match parse_expr(s, p, (lvl - 1) as nat) {
            Ok((l, mid)) => if p < mid <= s.len() {
                parse_tail(s, mid, lvl, l)
            } else {
                Err((mid, Expected::Operand))
            },
            Err(x) => Err(x),
        }
    }
}

/// The rest of a list of level `lvl` after `acc`: each operator of the level
/// followed by an expression of the level below.
pub open spec fn parse_tail(s: Seq<char>, p: int, lvl: nat, acc: Rule) -> ExprResult
    decreases (s.len() - p) as nat, 2 * lvl,
{
    if lvl > 0 && 0 <= p < s.len() && s[p] == op_char(lvl) {
        match parse_expr(s, p + 1, (lvl - 1) as nat) {
            Ok((r, stop)) => if p < stop <= s.len() {
                parse_tail(s, stop, lvl, combine(lvl, acc, r))
            } else {
                Err((stop, Expected::Operand))
            },
            Err(x) => Err(x),
        }
    } else {
        Ok((acc, p))
    }
}

/// A rule from `p` on: an expression, `=>` or `<=>`, and an expression.
pub open spec fn parse_rule(s: Seq<char>, p: int) -> ExprResult {
    match parse_expr(s, p, 3) {
        Ok((l, mid)) => if 0 <= mid && mid + 1 < s.len() && s[mid] == '=' && s[mid + 1] == '>' {
            match parse_expr(s, mid + 2, 3) {
                Ok((r, stop)) => Ok((Rule::IfThen(Box::new(l), Box::new(r)), stop)),
                Err(x) => Err(x),
            }
        } else if 0 <= mid && mid + 2 < s.len() && s[mid] == '<' && s[mid + 1] == '=' && s[mid + 2]
            == '>' {
            match parse_expr(s, mid + 3, 3) {
                Ok((r, stop)) => Ok((Rule::IfAndOnlyIf(Box::new(l), Box::new(r)), stop)),
                Err(x) => Err(x),
            }
        } else {
            Err((mid, Expected::Arrow))
        },
        Err(x) => Err(x),
    }
}

/// The first position from `p` on that does not hold a letter.
pub open spec fn letters_end(s: Seq<char>, p: int) -> int
    decreases s.len() - p,
{
    if 0 <= p < s.len() && is_letter(s[p]) {
        letters_end(s, p + 1)
    } else {
        p
    }
}

/// The upper-case forms of the characters of `s`.
pub open spec fn upper_set(s: Seq<char>) -> Set<char> {
    s.map_values(|c: char| upper(c)).to_set()
}

/// Whether `s` starts with `w`.
pub open spec fn starts_with(s: Seq<char>, w: Seq<char>) -> bool {
    w.len() <= s.len() && s.subrange(0, w.len() as int) == w
}

/// A rule from `p` on that runs to the end of the line.
pub open spec fn whole_rule(s: Seq<char>, p: int) -> Result<Rule, (int, Expected)> {
    match parse_rule(s, p) {
        Ok((r, q)) => if q == s.len() {
            Ok(r)
        } else {
            Err((q, Expected::End))
        },
        Err(x) => Err(x),
    }
}

/// A line of input: `=` and letters (the true facts), `?` and at least one
/// letter (the atoms to find), `dump`, `delete`, spaces and a rule, or a rule.
pub open spec fn parse_query_spec(s: Seq<char>) -> Result<QueryView, (int, Expected)> {
    if s.len() > 0 && s[0] == '=' {
        let e = letters_end(s, 1);
        if e == s.len() {
            Ok(
                QueryView::Given(
                    FactsView {
                        yes: upper_set(s.subrange(1, e)),
                        no: Set::empty(),
                        unknown: Set::empty(),
                    },
                ),
            )
        } else {
            Err((e, Expected::Letter))
        }
    } else if s.len() > 0 && s[0] == '?' {
        let e = letters_end(s, 1);
        if e == s.len() && e > 1 {
            Ok(
                QueryView::Find(
                    FactsView {
                        yes: Set::empty(),
                        no: Set::empty(),
                        unknown: upper_set(s.subrange(1, e)),
                    },
                ),
            )
        } else {
            Err((e, Expected::Letter))
        }
    } else if s == seq!['d', 'u', 'm', 'p'] {
        Ok(QueryView::Dump)
    } else if starts_with(s, seq!['d', 'e', 'l', 'e', 't', 'e']) && s.len() > 6 && is_ws(s[6]) {
        match whole_rule(s, 6) {
            Ok(r) => Ok(QueryView::Delete(r)),
            Err(x) => Err(x),
        }
    } else {
        match whole_rule(s, 0) {
            Ok(r) => Ok(QueryView::Rule(r)),
            Err(x) => Err(x),
        }
    }
}

/// The view of a query.
pub open spec fn query_view(q: Query) -> QueryView {
    match q {
        Query::Rule(r) => QueryView::Rule(r),
        Query::Given(f) => QueryView::Given(f@),
        Query::Find(f) => QueryView::Find(f@),
        Query::Dump => QueryView::Dump,
        Query::Delete(r) => QueryView::Delete(r),
    }
}

/// An executable parse result as positions of the grammar.
pub open spec fn lift(r: Result<(Rule, usize), ParseError>) -> ExprResult {
    match r {
        Ok((e, p)) => Ok((e, p as int)),
        Err(x) => Err((x.offset as int, x.expected)),
    }
}

/// `c` made upper case if it is a lower-case letter.
fn upper_exec(c: char) -> (r: char)
    ensures
        r == upper(c),
{
    if 'a' <= c && c <= 'z' {
        ((c as u32 - 32) as u8) as char
    } else {
        c
    }
}

/// Whether `c` is an ASCII letter.
fn is_letter_exec(c: char) -> (r: bool)
    ensures
        r == is_letter(c),
{
    ('a' <= c && c <= 'z') || ('A' <= c && c <= 'Z')
}

/// The first position from `p` on that is not a space or a tab.
fn skip_ws_exec(s: &Vec<char>, p: usize) -> (r: usize)
    requires
        p <= s.len(),
    ensures
        r as int == skip_ws(s@, p as int),
        p <= r <= s.len(),
{
    let mut i = p;
    while i < s.len() && (s[i] == ' ' || s[i] == '\t')
        invariant
            p <= i <= s.len(),
            skip_ws(s@, i as int) == skip_ws(s@, p as int),
        decreases s.len() - i,
    {
        i += 1;
    }
    i
}

/// An expression of binding level `lvl` from `p` on.
fn parse_expr_exec(s: &Vec<char>, p: usize, lvl: u8) -> (r: Result<(Rule, usize), ParseError>)
    requires
        p <= s.len(),
        lvl <= 3,
    ensures
        lift(r) == parse_expr(s@, p as int, lvl as nat),
        r matches Ok((e, q)) ==> q <= s.len() && e.is_formula(),
    decreases (s@.len() - p) as nat, 2 * lvl + 1,
{
    if lvl == 0 {
        let q = skip_ws_exec(s, p);
        if q >= s.len() {
            Err(ParseError { offset: q, expected: Expected::Operand })
        } else if s[q] == '(' {
            match parse_expr_exec(s, q + 1, 3) {
                Ok((e, mid)) => {
                    let stop = skip_ws_exec(s, mid);
                    if stop < s.len() && s[stop] == ')' {
                        Ok((e, skip_ws_exec(s, stop + 1)))
                    } else {
                        Err(ParseError { offset: stop, expected: Expected::CloseParen })
                    }
                },
                Err(x) => Err(x),
            }
        } else if is_letter_exec(s[q]) {
            Ok((Rule::Char(upper_exec(s[q])), skip_ws_exec(s, q + 1)))
        } else if s[q] == '!' {
            match parse_expr_exec(s, q + 1, 0) {
                Ok((e, mid)) => Ok((Rule::Not(Box::new(e)), mid)),
                Err(x) => Err(x),
            }
        } else {
            Err(ParseError { offset: q, expected: Expected::Operand })
        }
    } else {
        match parse_expr_exec(s, p, lvl - 1) {
            Ok((l, mid)) => if mid > p {
                parse_tail_exec(s, mid, lvl, l)
            } else {
                Err(ParseError { offset: mid, expected: Expected::Operand })
            },
            Err(x) => Err(x),
        }
    }
}

/// The rest of a list of level `lvl` after `acc`.
fn parse_tail_exec(s: &Vec<char>, p: usize, lvl: u8, acc: Rule) -> (r: Result<(Rule, usize), ParseError>)
    requires
        p <= s.len(),
        1 <= lvl <= 3,
        acc.is_formula(),
    ensures
        lift(r) == parse_tail(s@, p as int, lvl as nat, acc),
        r matches Ok((e, q)) ==> q <= s.len() && e.is_formula(),
    decreases (s@.len() - p) as nat, 2 * lvl,
{
    let op = if lvl == 1 {
        '+'
    } else if lvl == 2 {
        '|'
    } else {
        '^'
    };
    if p < s.len() && s[p] == op {
        match parse_expr_exec(s, p + 1, lvl - 1) {
            Ok((r, stop)) => if stop > p {
                let next = if lvl == 1 {
                    Rule::And(Box::new(acc), Box::new(r))
                } else if lvl == 2 {
                    Rule::Or(Box::new(acc), Box::new(r))
                } else {
                    Rule::Xor(Box::new(acc), Box::new(r))
                };
                parse_tail_exec(s, stop, lvl, next)
            } else {
                Err(ParseError { offset: stop, expected: Expected::Operand })
            },
            Err(x) => Err(x),
        }
    } else {
        Ok((acc, p))
    }
}

/// A rule from `p` on.
fn parse_rule_exec(s: &Vec<char>, p: usize) -> (r: Result<(Rule, usize), ParseError>)
    requires
        p <= s.len(),
    ensures
        lift(r) == parse_rule(s@, p as int),
        r matches Ok((e, q)) ==> q <= s.len() && e.is_rule(),
{
    match parse_expr_exec(s, p, 3) {
        Ok((l, mid)) => if s.len() - mid > 1 && s[mid] == '=' && s[mid + 1] == '>' {
            match parse_expr_exec(s, mid + 2, 3) {
                Ok((r, stop)) => Ok((Rule::IfThen(Box::new(l), Box::new(r)), stop)),
                Err(x) => Err(x),
            }
        } else if s.len() - mid > 2 && s[mid] == '<' && s[mid + 1] == '=' && s[mid + 2] == '>' {
            match parse_expr_exec(s, mid + 3, 3) {
                Ok((r, stop)) => Ok((Rule::IfAndOnlyIf(Box::new(l), Box::new(r)), stop)),
                Err(x) => Err(x),
            }
        } else {
            Err(ParseError { offset: mid, expected: Expected::Arrow })
        },
        Err(x) => Err(x),
    }
}

/// An executable query result as the grammar sees it.
pub open spec fn result_view(r: Result<Query, ParseError>) -> Result<QueryView, (int, Expected)> {
    match r {
        Ok(q) => Ok(query_view(q)),
        Err(x) => Err((x.offset as int, x.expected)),
    }
}

/// The fact lists in a query are consistent.
pub open spec fn query_wf(q: Query) -> bool {
    match q {
        Query::Given(f) => f.wf(),
        Query::Find(f) => f.wf(),
        Query::Rule(r) => r.is_rule(),
        Query::Delete(r) => r.is_rule(),
        Query::Dump => true,
    }
}

/// The first position from `p` on that does not hold a letter.
fn letters_end_exec(s: &Vec<char>, p: usize) -> (r: usize)
    requires
        p <= s.len(),
    ensures
        r as int == letters_end(s@, p as int),
        p <= r <= s.len(),
{
    let mut i = p;
    while i < s.len() && is_letter_exec(s[i])
        invariant
            p <= i <= s.len(),
            letters_end(s@, i as int) == letters_end(s@, p as int),
        decreases s.len() - i,
    {
        i += 1;
    }
    i
}

/// The upper-case forms of the characters of `s` from `from` to `to`.
fn upper_letters(s: &Vec<char>, from: usize, to: usize) -> (r: Vec<char>)
    requires
        from <= to <= s.len(),
    ensures
        r@ == s@.subrange(from as int, to as int).map_values(|c: char| upper(c)),
{
    let mut r: Vec<char> = Vec::new();
    let mut i = from;
    while i < to
        invariant
            from <= i <= to <= s.len(),
            r@ == s@.subrange(from as int, i as int).map_values(|c: char| upper(c)),
        decreases to - i,
    {
        r.push(upper_exec(s[i]));
        assert(s@.subrange(from as int, i + 1).map_values(|c: char| upper(c)) =~= s@.subrange(
            from as int,
            i as int,
        ).map_values(|c: char| upper(c)).push(upper(s@[i as int])));
        i += 1;
    }
    r
}

/// Whether `s` holds the characters of `w` from position 0 on.
fn starts_with_exec(s: &Vec<char>, w: &[char]) -> (r: bool)
    ensures
        r == starts_with(s@, w@),
{
    if w.len() > s.len() {
        return false;
    }
    let mut i: usize = 0;
    while i < w.len()
        invariant
            0 <= i <= w.len() <= s.len(),
            s@.subrange(0, i as int) == w@.subrange(0, i as int),
        decreases w.len() - i,
    {
        if s[i] != w[i] {
            assert(s@.subrange(0, w.len() as int)[i as int] != w@[i as int]);
            return false;
        }
        assert(s@.subrange(0, i + 1) =~= s@.subrange(0, i as int).push(s@[i as int]));
        assert(w@.subrange(0, i + 1) =~= w@.subrange(0, i as int).push(w@[i as int]));
        i += 1;
    }
    assert(w@.subrange(0, i as int) =~= w@);
    true
}

/// A rule from `p` on that runs to the end of the line.
fn whole_rule_exec(s: &Vec<char>, p: usize) -> (r: Result<Rule, ParseError>)
    requires
        p <= s.len(),
    ensures
        match (r, whole_rule(s@, p as int)) {
            (Ok(a), Ok(b)) => a == b,
            (Err(x), Err(y)) => (x.offset as int, x.expected) == y,
            _ => false,
        },
        r matches Ok(e) ==> e.is_rule(),
{
    match parse_rule_exec(s, p) {
        Ok((r, q)) => if q == s.len() {
            Ok(r)
        } else {
            Err(ParseError { offset: q, expected: Expected::End })
        },
        Err(x) => Err(x),
    }
}

/// The characters of a string.
fn chars_of(line: &str) -> (r: Vec<char>)
    ensures
        r@ == line@,
{
    let n = line.unicode_len();
    let mut r: Vec<char> = Vec::new();
    let mut i: usize = 0;
    while i < n
        invariant
            0 <= i <= n,
            n == line@.len(),
            r@ == line@.subrange(0, i as int),
        decreases n - i,
    {
        r.push(line.get_char(i));
        assert(line@.subrange(0, i + 1) =~= line@.subrange(0, i as int).push(line@[i as int]));
        i += 1;
    }
    assert(line@.subrange(0, i as int) =~= line@);
    r
}

/// Read one line of input as a query, or say where it stopped and what it
/// wanted there.
pub fn parse_query(line: &str) -> (r: Result<Query, ParseError>)
    ensures
        result_view(r) == parse_query_spec(line@),
        r matches Ok(q) ==> query_wf(q),
{
    let s = chars_of(line);
    if s.len() > 0 && s[0] == '=' {
        let e = letters_end_exec(&s, 1);
        if e == s.len() {
            let ups = upper_letters(&s, 1, e);
            let f = Facts::new(ups.as_slice(), &[], &[]);
            assert(f@.no =~= Set::<char>::empty());
            assert(f@.unknown =~= Set::<char>::empty());
            Ok(Query::Given(f))
        } else {
            Err(ParseError { offset: e, expected: Expected::Letter })
        }
    } else if s.len() > 0 && s[0] == '?' {
        let e = letters_end_exec(&s, 1);
        if e == s.len() && e > 1 {
            let ups = upper_letters(&s, 1, e);
            let f = Facts::new(&[], &[], ups.as_slice());
            assert(f@.yes =~= Set::<char>::empty());
            assert(f@.no =~= Set::<char>::empty());
            assert(f@.unknown =~= upper_set(s@.subrange(1, e as int)));
            Ok(Query::Find(f))
        } else {
            Err(ParseError { offset: e, expected: Expected::Letter })
        }
    } else if s.len() == 4 && s[0] == 'd' && s[1] == 'u' && s[2] == 'm' && s[3] == 'p' {
        assert(s@ =~= seq!['d', 'u', 'm', 'p']);
        Ok(Query::Dump)
    } else if starts_with_exec(&s, &['d', 'e', 'l', 'e', 't', 'e']) && s.len() > 6 && (s[6] == ' '
        || s[6] == '\t') {
        assert(s@ != seq!['d', 'u', 'm', 'p']);
        match whole_rule_exec(&s, 6) {
            Ok(r) => Ok(Query::Delete(r)),
            Err(x) => Err(x),
        }
    } else {
        proof {
            if s@ == seq!['d', 'u', 'm', 'p'] {
                assert(s@[0] == 'd');
            }
        }
        match whole_rule_exec(&s, 0) {
            Ok(r) => Ok(Query::Rule(r)),
            Err(x) => Err(x),
        }
    }
}

} // verus!
