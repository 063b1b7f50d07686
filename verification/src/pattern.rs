//! Path patterns for `select`: the dotted/indexed source form, its
//! parser, and the prefix matcher over a path's components.
//!
//! A pattern names a location the way a path renders: a leading
//! identifier followed by any chain of `.ident` and `[n]` tokens, as in
//! `a.b.c` or `xs[0].c`. Identifiers are ASCII letters, digits and `_`,
//! not starting with a digit; an index is the canonical decimal form of
//! an integer. The empty source text is the empty pattern, which
//! matches every path.

use crate::path::comps_view;
use crate::path::Kind;
use crate::path::Path;
use vstd::prelude::*;
use vstd::string::StrSliceExecFns;

verus! {

/// The components of `s` that take part in matching: everything but the
/// `Kind::Anonymous` ones, order kept.
pub open spec fn visible(s: Seq<(Kind, Seq<char>)>) -> Seq<(Kind, Seq<char>)>
    decreases s.len(),
{
    if s.len() == 0 {
        Seq::empty()
    } else if s.last().0 == Kind::Anonymous {
        visible(s.drop_last())
    } else {
        visible(s.drop_last()).push(s.last())
    }
}

/// Whether a path with components `p` matches the pattern `q`: the
/// components of `q` are, kind and text both, a prefix of the
/// `Kind::Anonymous`-free components of `p`.
pub open spec fn matches_pattern(p: Seq<(Kind, Seq<char>)>, q: Seq<(Kind, Seq<char>)>) -> bool {
    visible(p).len() >= q.len() && visible(p).take(q.len() as int) == q
}

pub proof fn lemma_visible_push(s: Seq<(Kind, Seq<char>)>, c: (Kind, Seq<char>))
    ensures
        visible(s.push(c)) == if c.0 == Kind::Anonymous {
            visible(s)
        } else {
            visible(s).push(c)
        },
{
    assert(s.push(c).drop_last() =~= s);
    assert(s.push(c).last() == c);
}

pub proof fn lemma_visible_cat(a: Seq<(Kind, Seq<char>)>, b: Seq<(Kind, Seq<char>)>)
    ensures
        visible(a + b) == visible(a) + visible(b),
    decreases b.len(),
{
    if b.len() == 0 {
        assert(a + b =~= a);
        assert(visible(b) =~= Seq::<(Kind, Seq<char>)>::empty());
        assert(visible(a) + visible(b) =~= visible(a));
    } else {
        lemma_visible_cat(a, b.drop_last());
        assert((a + b).drop_last() =~= a + b.drop_last());
        assert((a + b).last() == b.last());
        if b.last().0 == Kind::Anonymous {
            assert(visible(a + b) == visible(a) + visible(b.drop_last()));
            assert(visible(b) == visible(b.drop_last()));
        } else {
            assert(visible(a + b) == (visible(a) + visible(b.drop_last())).push(b.last()));
            assert(visible(a) + visible(b.drop_last()).push(b.last()) =~= (visible(a) + visible(
                b.drop_last(),
            )).push(b.last()));
            assert(visible(b) == visible(b.drop_last()).push(b.last()));
        }
    }
}

/// Law: a pattern selects a path exactly when, component by component,
/// kind and text both, it equals the start of the path once the
/// `Kind::Anonymous` components are dropped.
pub proof fn lemma_matches_componentwise(p: Seq<(Kind, Seq<char>)>, q: Seq<(Kind, Seq<char>)>)
    ensures
        matches_pattern(p, q) <==> (visible(p).len() >= q.len() && forall|j: int|
            0 <= j < q.len() ==> visible(p)[j] == q[j]),
{
    if visible(p).len() >= q.len() {
        if forall|j: int| 0 <= j < q.len() ==> visible(p)[j] == q[j] {
            assert(visible(p).take(q.len() as int) =~= q);
        }
        if matches_pattern(p, q) {
            assert forall|j: int| 0 <= j < q.len() implies visible(p)[j] == q[j] by {
                assert(visible(p).take(q.len() as int)[j] == q[j]);
            }
        }
    }
}

/// Whether `c` may start an identifier: an ASCII letter or `_`.
pub open spec fn is_ident_start(c: char) -> bool {
    ('a' as u32 <= c as u32 && c as u32 <= 'z' as u32) || ('A' as u32 <= c as u32 && c as u32
        <= 'Z' as u32) || c == '_'
}

/// Whether `c` is an ASCII decimal digit.
pub open spec fn is_digit(c: char) -> bool {
    '0' as u32 <= c as u32 && c as u32 <= '9' as u32
}

/// Whether `c` may continue an identifier.
pub open spec fn is_ident_char(c: char) -> bool {
    is_ident_start(c) || is_digit(c)
}

/// The end of the identifier-character run that starts at `i`.
pub open spec fn ident_end(s: Seq<char>, i: int) -> int
    decreases s.len() - i,
{
    if 0 <= i < s.len() && is_ident_char(s[i]) {
        ident_end(s, i + 1)
    } else {
        i
    }
}

/// The end of the digit run that starts at `i`.
pub open spec fn digits_end(s: Seq<char>, i: int) -> int
    decreases s.len() - i,
{
    if 0 <= i < s.len() && is_digit(s[i]) {
        digits_end(s, i + 1)
    } else {
        i
    }
}

pub proof fn lemma_ident_end(s: Seq<char>, i: int)
    requires
        0 <= i <= s.len(),
    ensures
        i <= ident_end(s, i) <= s.len(),
        forall|k: int| i <= k < ident_end(s, i) ==> is_ident_char(s[k]),
        ident_end(s, i) == s.len() || !is_ident_char(s[ident_end(s, i)]),
        (i < s.len() && is_ident_char(s[i])) ==> ident_end(s, i) > i,
    decreases s.len() - i,
{
    if i < s.len() && is_ident_char(s[i]) {
        lemma_ident_end(s, i + 1);
    }
}

pub proof fn lemma_digits_end(s: Seq<char>, i: int)
    requires
        0 <= i <= s.len(),
    ensures
        i <= digits_end(s, i) <= s.len(),
        forall|k: int| i <= k < digits_end(s, i) ==> is_digit(s[k]),
        digits_end(s, i) == s.len() || !is_digit(s[digits_end(s, i)]),
    decreases s.len() - i,
{
    if i < s.len() && is_digit(s[i]) {
        lemma_digits_end(s, i + 1);
    }
}

/// The chain of `.ident` and `[n]` tokens that starts at `i`, or
/// nothing where the text from `i` on is not such a chain. An index
/// must be canonical: no leading zero unless it is `0` itself.
pub open spec fn parse_tail(s: Seq<char>, i: int) -> Option<Seq<(Kind, Seq<char>)>>
    decreases s.len() - i,
    via parse_tail_decreases
{
    if i < 0 || i > s.len() {
        Option::None
    } else if i == s.len() {
        Option::Some(Seq::empty())
    } else if s[i] == '.' {
        let j = ident_end(s, i + 1);
        if j > i + 1 {
            match parse_tail(s, j) {
                Option::Some(rest) => Option::Some(
                    seq![(Kind::Key, s.subrange(i + 1, j))] + rest,
                ),
                Option::None => Option::None,
            }
        } else {
            Option::None
        }
    } else if s[i] == '[' {
        let j = digits_end(s, i + 1);
        if j > i + 1 && j < s.len() && s[j] == ']' && (s[i + 1] != '0' || j == i + 2) {
            match parse_tail(s, j + 1) {
                Option::Some(rest) => Option::Some(
                    seq![(Kind::Index, s.subrange(i + 1, j))] + rest,
                ),
                Option::None => Option::None,
            }
        } else {
            Option::None
        }
    } else {
        Option::None
    }
}

#[via_fn]
proof fn parse_tail_decreases(s: Seq<char>, i: int) {
    if 0 <= i < s.len() {
        if s[i] == '.' {
            lemma_ident_end(s, i + 1);
        } else if s[i] == '[' {
            lemma_digits_end(s, i + 1);
        }
    }
}

/// The components named by a whole pattern source: empty text is the
/// empty pattern; anything else is an identifier followed by a chain of
/// `.ident` and `[n]` tokens.
pub open spec fn parse_pattern(s: Seq<char>) -> Option<Seq<(Kind, Seq<char>)>> {
    if s.len() == 0 {
        Option::Some(Seq::empty())
    } else if !is_ident_start(s[0]) {
        Option::None
    } else {
        let j = ident_end(s, 0);
        match parse_tail(s, j) {
            Option::Some(rest) => Option::Some(seq![(Kind::Key, s.subrange(0, j))] + rest),
            Option::None => Option::None,
        }
    }
}

fn is_ident_start_exec(c: char) -> (r: bool)
    ensures
        r == is_ident_start(c),
{
    let u = c as u32;
    ('a' as u32 <= u && u <= 'z' as u32) || ('A' as u32 <= u && u <= 'Z' as u32) || c == '_'
}

fn is_digit_exec(c: char) -> (r: bool)
    ensures
        r == is_digit(c),
{
    let u = c as u32;
    '0' as u32 <= u && u <= '9' as u32
}

fn is_ident_char_exec(c: char) -> (r: bool)
    ensures
        r == is_ident_char(c),
{
    is_ident_start_exec(c) || is_digit_exec(c)
}

fn ident_end_exec(s: &str, n: usize, i: usize) -> (j: usize)
    requires
        n == s@.len(),
        i <= n,
    ensures
        j == ident_end(s@, i as int),
        i <= j <= n,
    decreases n - i,
{
    if i < n && is_ident_char_exec(s.get_char(i)) {
        ident_end_exec(s, n, i + 1)
    } else {
        i
    }
}

fn digits_end_exec(s: &str, n: usize, i: usize) -> (j: usize)
    requires
        n == s@.len(),
        i <= n,
    ensures
        j == digits_end(s@, i as int),
        i <= j <= n,
    decreases n - i,
{
    if i < n && is_digit_exec(s.get_char(i)) {
        digits_end_exec(s, n, i + 1)
    } else {
        i
    }
}

/// Parses the token chain at `i` and pushes its components onto `acc`.
fn parse_tail_exec(s: &str, n: usize, i: usize, acc: &mut Vec<(Kind, String)>) -> (ok: bool)
    requires
        n == s@.len(),
        i <= n,
    ensures
        ok == (parse_tail(s@, i as int) is Some),
        parse_tail(s@, i as int) matches Option::Some(rest) ==> comps_view(final(acc)@)
            == comps_view(old(acc)@) + rest,
    decreases n - i,
{
    if i == n {
        proof {
            assert(comps_view(acc@) =~= comps_view(old(acc)@) + Seq::<(Kind, Seq<char>)>::empty());
        }
        return true;
    }
    let c = s.get_char(i);
    if c == '.' {
        proof {
            lemma_ident_end(s@, i as int + 1);
        }
        let j = ident_end_exec(s, n, i + 1);
        if j == i + 1 {
            return false;
        }
        let text = s.substring_char(i + 1, j).to_owned();
        let ghost comp = (Kind::Key, s@.subrange(i as int + 1, j as int));
        let ghost before = acc@;
        acc.push((Kind::Key, text));
        proof {
            assert(comps_view(acc@) =~= comps_view(before).push(comp));
        }
        let ghost mid = acc@;
        let ok = parse_tail_exec(s, n, j, acc);
        proof {
            match parse_tail(s@, j as int) {
                Option::Some(rest) => {
                    assert(comps_view(acc@) == comps_view(mid) + rest);
                    assert(comps_view(before).push(comp) + rest =~= comps_view(before) + (
                    seq![comp] + rest));
                },
                Option::None => {
                },
            }
        }
        ok
    } else if c == '[' {
        proof {
            lemma_digits_end(s@, i as int + 1);
        }
        let j = digits_end_exec(s, n, i + 1);
        if j == i + 1 || j == n {
            return false;
        }
        let close = s.get_char(j);
        if close != ']' {
            return false;
        }
        if s.get_char(i + 1) == '0' && j != i + 2 {
            return false;
        }
        let text = s.substring_char(i + 1, j).to_owned();
        let ghost comp = (Kind::Index, s@.subrange(i as int + 1, j as int));
        let ghost before = acc@;
        acc.push((Kind::Index, text));
        proof {
            assert(comps_view(acc@) =~= comps_view(before).push(comp));
        }
        let ghost mid = acc@;
        let ok = parse_tail_exec(s, n, j + 1, acc);
        proof {
            match parse_tail(s@, j as int + 1) {
                Option::Some(rest) => {
                    assert(comps_view(acc@) == comps_view(mid) + rest);
                    assert(comps_view(before).push(comp) + rest =~= comps_view(before) + (
                    seq![comp] + rest));
                },
                Option::None => {
                },
            }
        }
        ok
    } else {
        false
    }
}

/// A parsed pattern: `Key` and `Index` components only, root first.
#[derive(Debug)]
pub struct Pattern {
    components: Vec<(Kind, String)>,
}

impl View for Pattern {
    type V = Seq<(Kind, Seq<char>)>;

    closed spec fn view(&self) -> Seq<(Kind, Seq<char>)> {
        comps_view(self.components@)
    }
}

impl Pattern {
    /// Parses a pattern from its source form, or nothing where the text
    /// does not follow the pattern grammar.
    pub fn parse(s: &str) -> (r: Option<Pattern>)
        ensures
            match parse_pattern(s@) {
                Option::Some(cs) => r matches Option::Some(p) && p@ == cs,
                Option::None => r is None,
            },
    {
        let n = s.unicode_len();
        if n == 0 {
            let p = Pattern { components: Vec::new() };
            proof {
                assert(p@ =~= Seq::<(Kind, Seq<char>)>::empty());
            }
            return Option::Some(p);
        }
        if !is_ident_start_exec(s.get_char(0)) {
            return Option::None;
        }
        proof {
            lemma_ident_end(s@, 0);
        }
        let j = ident_end_exec(s, n, 0);
        let text = s.substring_char(0, j).to_owned();
        let mut acc: Vec<(Kind, String)> = Vec::new();
        let ghost comp = (Kind::Key, s@.subrange(0, j as int));
        acc.push((Kind::Key, text));
        proof {
            assert(comps_view(acc@) =~= Seq::<(Kind, Seq<char>)>::empty().push(comp));
        }
        let ghost mid = acc@;
        let ok = parse_tail_exec(s, n, j, &mut acc);
        if ok {
            let p = Pattern { components: acc };
            proof {
                match parse_tail(s@, j as int) {
                    Option::Some(rest) => {
                        assert(comps_view(p.components@) == comps_view(mid) + rest);
                        assert(Seq::<(Kind, Seq<char>)>::empty().push(comp) + rest =~= seq![comp]
                            + rest);
                    },
                    Option::None => {
                    },
                }
            }
            Option::Some(p)
        } else {
            Option::None
        }
    }

    /// Whether `path` matches this pattern: the pattern's components
    /// are a prefix of the path's non-anonymous components.
    pub fn matches(&self, path: &Path) -> (r: bool)
        ensures
            r == matches_pattern(path@, self@),
    {
        let comps = path.components();
        let ghost p = path@;
        let ghost q = self@;
        let m = self.components.len();
        if m == 0 {
            proof {
                assert(visible(p).take(0) =~= q);
            }
            return true;
        }
        let n = comps.len();
        proof {
            assert(comps_view(comps@).len() == p.len());
        }
        let mut i: usize = 0;
        let mut k: usize = 0;
        while i < n
            invariant
                p == path@,
                q == self@,
                n == comps@.len(),
                comps_view(comps@) == p,
                comps_view(self.components@) == q,
                n == p.len(),
                m == self.components@.len(),
                m == q.len(),
                0 < m,
                i <= n,
                k < m,
                visible(p.take(i as int)) == q.take(k as int),
            decreases n - i,
        {
            let ghost vi = visible(p.take(i as int));
            proof {
                assert(p[i as int] == (comps@[i as int].0, comps@[i as int].1@));
                assert(p.take(i as int + 1) =~= p.take(i as int).push(p[i as int]));
                lemma_visible_push(p.take(i as int), p[i as int]);
            }
            let ck = comps[i].0;
            if ck == Kind::Anonymous {
                i = i + 1;
            } else {
                proof {
                    assert(q[k as int] == (self.components@[k as int].0, self.components@[k
                        as int].1@));
                }
                let kind_eq = ck == self.components[k].0;
                let text_eq = comps[i].1 == self.components[k].1;
                if kind_eq && text_eq {
                    proof {
                        assert(p[i as int] == q[k as int]);
                        assert(q.take(k as int + 1) =~= q.take(k as int).push(q[k as int]));
                        assert(visible(p.take(i as int + 1)) == q.take(k as int + 1));
                    }
                    k = k + 1;
                    i = i + 1;
                    if k == m {
                        proof {
                            assert(q.take(m as int) =~= q);
                            assert(p =~= p.take(i as int) + p.skip(i as int));
                            lemma_visible_cat(p.take(i as int), p.skip(i as int));
                            assert(visible(p) == visible(p.take(i as int)) + visible(
                                p.skip(i as int),
                            ));
                            assert(visible(p).len() >= m);
                            assert(visible(p).take(m as int) =~= q);
                        }
                        return true;
                    }
                } else {
                    proof {
                        assert(p[i as int] != q[k as int]);
                        assert(visible(p.take(i as int + 1)) == vi.push(p[i as int]));
                        assert(visible(p.take(i as int + 1))[k as int] == p[i as int]);
                        assert(p =~= p.take(i as int + 1) + p.skip(i as int + 1));
                        lemma_visible_cat(p.take(i as int + 1), p.skip(i as int + 1));
                        assert(visible(p)[k as int] == p[i as int]);
                        if matches_pattern(p, q) {
                            assert(visible(p).take(q.len() as int)[k as int] == q[k as int]);
                            assert(false);
                        }
                    }
                    return false;
                }
            }
        }
        proof {
            assert(p.take(n as int) =~= p);
            assert(visible(p).len() == k < m);
        }
        false
    }
}

} // verus!
