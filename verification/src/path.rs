//! Locations inside a nested value: kind-tagged text components over a
//! persistent list.

use crate::list::chain_seq;
use crate::list::chain_seq_at;
use crate::list::List;
use crate::list::Node;
use std::borrow::Cow;
use std::sync::Arc;
use vstd::prelude::*;
use vstd::std_specs::cmp::PartialEqSpec;
use vstd::string::StringExecFns;

verus! {

/// The kind of one path component: a named field, a positional index,
/// or an anonymous root that renders as nothing.
#[derive(Clone, Copy, Debug, PartialEq, Eq, Hash, PartialOrd, Ord, Structural)]
pub enum Kind {
    Anonymous,
    Key,
    Index,
}

/// The marker for an anonymous root: a component with empty text and
/// kind `Kind::Anonymous`.
#[derive(Debug, Default)]
pub struct NoKey;

/// The decimal character for one digit value below ten.
pub open spec fn digit_char(d: nat) -> char {
    if d == 0 {
        '0'
    } else if d == 1 {
        '1'
    } else if d == 2 {
        '2'
    } else if d == 3 {
        '3'
    } else if d == 4 {
        '4'
    } else if d == 5 {
        '5'
    } else if d == 6 {
        '6'
    } else if d == 7 {
        '7'
    } else if d == 8 {
        '8'
    } else {
        '9'
    }
}

/// The canonical decimal form of a number: no sign, no leading zero
/// except for the number zero itself.
pub open spec fn decimal_digits(n: nat) -> Seq<char>
    decreases n,
{
    if n < 10 {
        seq![digit_char(n)]
    } else {
        decimal_digits(n / 10).push(digit_char(n % 10))
    }
}

/// Relies on `compact_str::ToCompactString` for `usize`: the returned
/// text is the canonical decimal form of the number.
#[verifier::external_body]
fn usize_decimal(n: usize) -> (r: String)
    ensures
        r@ == decimal_digits(n as nat),
{
    compact_str::ToCompactString::to_compact_string(&n).as_str().to_owned()
}

/// Relies on `Cow::as_ref` for `str`: a borrow of the contained text.
#[verifier::external_body]
fn cow_text(c: &Cow<'_, str>) -> (r: String)
    ensures
        r@ == c@,
{
    c.as_ref().to_owned()
}

pub trait Sealed {}

/// A type that can stand as one path component: it carries a fixed
/// `Kind` and renders itself as the component's text.
pub trait PathComponentKind: Sealed {
    /// The kind every component of this type carries.
    spec fn kind_spec() -> Kind;

    /// The text this value renders as.
    spec fn text_view(&self) -> Seq<char>;

    /// The kind tag of this component type.
    fn component_kind() -> (k: Kind)
        ensures
            k == Self::kind_spec(),
    ;

    /// The component text of this value.
    fn to_text(&self) -> (t: String)
        ensures
            t@ == self.text_view(),
    ;
}

impl Sealed for usize {

}

impl PathComponentKind for usize {
    open spec fn kind_spec() -> Kind {
        Kind::Index
    }

    open spec fn text_view(&self) -> Seq<char> {
        decimal_digits(*self as nat)
    }

    fn component_kind() -> (k: Kind) {
        Kind::Index
    }

    fn to_text(&self) -> (t: String) {
        usize_decimal(*self)
    }
}

impl<'a> Sealed for &'a str {

}

impl<'a> PathComponentKind for &'a str {
    open spec fn kind_spec() -> Kind {
        Kind::Key
    }

    open spec fn text_view(&self) -> Seq<char> {
        (*self)@
    }

    fn component_kind() -> (k: Kind) {
        Kind::Key
    }

    fn to_text(&self) -> (t: String) {
        (*self).to_owned()
    }
}

impl Sealed for String {

}

impl PathComponentKind for String {
    open spec fn kind_spec() -> Kind {
        Kind::Key
    }

    open spec fn text_view(&self) -> Seq<char> {
        self@
    }

    fn component_kind() -> (k: Kind) {
        Kind::Key
    }

    fn to_text(&self) -> (t: String) {
        self.clone()
    }
}

impl<'a> Sealed for Cow<'a, str> {

}

impl<'a> PathComponentKind for Cow<'a, str> {
    open spec fn kind_spec() -> Kind {
        Kind::Key
    }

    open spec fn text_view(&self) -> Seq<char> {
        self@
    }

    fn component_kind() -> (k: Kind) {
        Kind::Key
    }

    fn to_text(&self) -> (t: String) {
        cow_text(self)
    }
}

impl Sealed for NoKey {

}

impl PathComponentKind for NoKey {
    open spec fn kind_spec() -> Kind {
        Kind::Anonymous
    }

    open spec fn text_view(&self) -> Seq<char> {
        Seq::empty()
    }

    fn component_kind() -> (k: Kind) {
        Kind::Anonymous
    }

    fn to_text(&self) -> (t: String) {
        String::new()
    }
}

impl<'a, T: PathComponentKind> Sealed for &'a T {

}

impl<'a, T: PathComponentKind> PathComponentKind for &'a T {
    open spec fn kind_spec() -> Kind {
        T::kind_spec()
    }

    open spec fn text_view(&self) -> Seq<char> {
        (**self).text_view()
    }

    fn component_kind() -> (k: Kind) {
        T::component_kind()
    }

    fn to_text(&self) -> (t: String) {
        (**self).to_text()
    }
}

/// The abstract form of a stored component sequence: each text replaced
/// by the characters it holds.
pub open spec fn comps_view(s: Seq<(Kind, String)>) -> Seq<(Kind, Seq<char>)> {
    Seq::new(s.len(), |i: int| (s[i].0, s[i].1@))
}

/// Whether some component in `s` is a `Key` or an `Index`. Only after
/// one of those does a later `Key` need its `.` separator.
pub open spec fn has_visible(s: Seq<(Kind, Seq<char>)>) -> bool {
    exists|i: int| 0 <= i < s.len() && s[i].0 != Kind::Anonymous
}

/// How one component renders: its bare text for `Kind::Anonymous`; the text
/// after a `.` for a `Key` that follows a `Key` or `Index` component;
/// the text in brackets for an `Index`.
pub open spec fn render_one(kind: Kind, text: Seq<char>, follows_visible: bool) -> Seq<char> {
    match kind {
        Kind::Anonymous => text,
        Kind::Key => if follows_visible {
            seq!['.'] + text
        } else {
            text
        },
        Kind::Index => seq!['['] + text + seq![']'],
    }
}

/// The rendering of a whole component sequence, root first.
pub open spec fn render_components(s: Seq<(Kind, Seq<char>)>) -> Seq<char>
    decreases s.len(),
{
    if s.len() == 0 {
        Seq::empty()
    } else {
        render_components(s.drop_last()) + render_one(
            s.last().0,
            s.last().1,
            has_visible(s.drop_last()),
        )
    }
}

/// A location inside a nested value: an ordered sequence of kind-tagged
/// text components. Extending and cloning are constant-time; every
/// existing path is left untouched by both.
#[derive(Debug, Hash)]
pub struct Path {
    components: List<(Kind, String)>,
}

impl View for Path {
    type V = Seq<(Kind, Seq<char>)>;

    closed spec fn view(&self) -> Seq<(Kind, Seq<char>)> {
        comps_view(self.components@)
    }
}

impl Path {
    /// The path with no components; it renders as the empty string.
    pub fn empty() -> (r: Self)
        ensures
            r@ == Seq::<(Kind, Seq<char>)>::empty(),
    {
        let r = Path { components: List::new() };
        proof {
            assert(r@ =~= Seq::<(Kind, Seq<char>)>::empty());
        }
        r
    }

    /// The number of components, in constant time.
    pub fn len(&self) -> (r: usize)
        ensures
            r == self@.len(),
    {
        self.components.len()
    }

    pub fn is_empty(&self) -> (r: bool)
        ensures
            r == (self@.len() == 0),
    {
        self.components.is_empty()
    }

    /// A path of one component, whose kind is fixed by the component's
    /// type.
    pub fn new<C: PathComponentKind>(component: C) -> (r: Self)
        ensures
            r@ == seq![(C::kind_spec(), component.text_view())],
    {
        let kind = C::component_kind();
        let text = component.to_text();
        let r = Path { components: List::new().append((kind, text)) };
        proof {
            assert(r@ =~= seq![(C::kind_spec(), component.text_view())]);
        }
        r
    }

    /// A new path with `component` appended as the deepest segment. The
    /// new path shares all of `self`'s cells; `self` is unchanged.
    pub fn join<C: PathComponentKind>(&self, component: C) -> (r: Self)
        requires
            self@.len() < usize::MAX,
        ensures
            r@ == self@.push((C::kind_spec(), component.text_view())),
    {
        let kind = C::component_kind();
        let text = component.to_text();
        let r = Path { components: self.components.append((kind, text)) };
        proof {
            assert(r@ =~= self@.push((C::kind_spec(), component.text_view())));
        }
        r
    }

    /// The components root-first, each with its kind and a copy of its
    /// text.
    pub fn components(&self) -> (r: Vec<(Kind, String)>)
        ensures
            comps_view(r@) == self@,
    {
        let mut out: Vec<(Kind, String)> = Vec::new();
        collect_chain(self.components.head(), &mut out);
        proof {
            assert(comps_view(Seq::<(Kind, String)>::empty()) + self@ =~= self@);
            assert(comps_view(Seq::<(Kind, String)>::empty()) =~= Seq::<(
                Kind,
                Seq<char>,
            )>::empty());
        }
        out
    }

    /// The rendered, root-first form: dotted keys, bracketed indices,
    /// nothing for anonymous roots.
    pub fn to_string(&self) -> (r: String)
        ensures
            r@ == render_components(self@),
    {
        let mut out = String::new();
        render_chain(self.components.head(), &mut out);
        proof {
            assert(Seq::<char>::empty() + render_components(self@) =~= render_components(self@));
        }
        out
    }
}

impl Clone for Path {
    /// A clone shares every cell with the original.
    fn clone(&self) -> (r: Self)
        ensures
            r@ == self@,
    {
        Path { components: self.components.clone() }
    }
}

impl PartialEq for Path {
    fn eq(&self, other: &Path) -> (r: bool) {
        chain_eq(self.components.head(), other.components.head())
    }
}

impl Eq for Path {

}

impl vstd::std_specs::cmp::PartialEqSpecImpl for Path {
    open spec fn obeys_eq_spec() -> bool {
        true
    }

    open spec fn eq_spec(&self, other: &Path) -> bool {
        self@ == other@
    }
}

/// Copies the components of a chain into `out`, root first.
fn collect_chain(link: &Option<Arc<Node<(Kind, String)>>>, out: &mut Vec<(Kind, String)>)
    ensures
        comps_view(final(out)@) == comps_view(old(out)@) + comps_view(chain_seq(*link)),
    decreases chain_seq(*link).len(),
{
    match link {
        Option::None => {
            proof {
                assert(comps_view(out@) =~= comps_view(old(out)@) + comps_view(chain_seq(*link)));
            }
        },
        Option::Some(node) => {
            collect_chain(&node.prev, out);
            let ghost mid = out@;
            let text = node.value.1.clone();
            out.push((node.value.0, text));
            proof {
                assert(chain_seq(*link) == chain_seq(node.prev).push(node.value));
                assert(comps_view(mid.push((node.value.0, text))) =~= comps_view(mid).push(
                    (node.value.0, node.value.1@),
                ));
                assert(comps_view(chain_seq(node.prev).push(node.value)) =~= comps_view(
                    chain_seq(node.prev),
                ).push((node.value.0, node.value.1@)));
                assert(comps_view(out@) =~= comps_view(old(out)@) + comps_view(chain_seq(*link)));
            }
        },
    }
}

/// Renders a chain root-first into `out`; the result says whether any
/// component so far was a `Key` or an `Index`.
fn render_chain(link: &Option<Arc<Node<(Kind, String)>>>, out: &mut String) -> (started: bool)
    ensures
        final(out)@ == old(out)@ + render_components(comps_view(chain_seq(*link))),
        started == has_visible(comps_view(chain_seq(*link))),
    decreases chain_seq(*link).len(),
{
    match link {
        Option::None => {
            proof {
                assert(comps_view(chain_seq(*link)) =~= Seq::<(Kind, Seq<char>)>::empty());
                assert(final(out)@ =~= old(out)@ + render_components(
                    comps_view(chain_seq(*link)),
                ));
            }
            false
        },
        Option::Some(node) => {
            let ghost whole = comps_view(chain_seq_at(link));
            let ghost prefix = comps_view(chain_seq_at(&node.prev));
            let ghost comp = (node.value.0, node.value.1@);
            proof {
                assert(chain_seq(*link) == chain_seq(node.prev).push(node.value));
                assert(whole =~= prefix.push(comp));
                assert(prefix.push(comp).drop_last() =~= prefix);
                assert(render_components(whole) == render_components(prefix) + render_one(
                    comp.0,
                    comp.1,
                    has_visible(prefix),
                ));
            }
            let started = render_chain(&node.prev, out);
            match node.value.0 {
                Kind::Anonymous => {
                    out.append(node.value.1.as_str());
                    proof {
                        assert(out@ =~= old(out)@ + render_components(whole));
                        if has_visible(prefix) {
                            let j = choose|j: int|
                                0 <= j < prefix.len() && prefix[j].0 != Kind::Anonymous;
                            assert(whole[j] == prefix[j]);
                            assert(has_visible(whole));
                        }
                        if has_visible(whole) {
                            let j = choose|j: int|
                                0 <= j < whole.len() && whole[j].0 != Kind::Anonymous;
                            assert(j < prefix.len()) by {
                                if j == whole.len() - 1 {
                                    assert(whole[j] == comp);
                                }
                            }
                            assert(prefix[j] == whole[j]);
                            assert(has_visible(prefix));
                        }
                        assert(has_visible(whole) == has_visible(prefix));
                    }
                    started
                },
                Kind::Key => {
                    if started {
                        out.append(".");
                        out.append(node.value.1.as_str());
                        proof {
                            reveal_strlit(".");
                            assert(("."@) =~= seq!['.']);
                            assert(out@ =~= old(out)@ + render_components(whole));
                        }
                    } else {
                        out.append(node.value.1.as_str());
                        proof {
                            assert(out@ =~= old(out)@ + render_components(whole));
                        }
                    }
                    proof {
                        assert(whole[whole.len() - 1].0 != Kind::Anonymous);
                        assert(has_visible(whole));
                    }
                    true
                },
                Kind::Index => {
                    out.append("[");
                    out.append(node.value.1.as_str());
                    out.append("]");
                    proof {
                        reveal_strlit("[");
                        reveal_strlit("]");
                        assert(("["@) =~= seq!['[']);
                        assert(("]"@) =~= seq![']']);
                        assert(out@ =~= old(out)@ + render_components(whole));
                        assert(whole[whole.len() - 1].0 != Kind::Anonymous);
                        assert(has_visible(whole));
                    }
                    true
                },
            }
        },
    }
}

/// Compares two chains by their component sequences: kinds and texts,
/// position by position.
fn chain_eq(a: &Option<Arc<Node<(Kind, String)>>>, b: &Option<Arc<Node<(Kind, String)>>>) -> (r:
    bool)
    ensures
        r == (comps_view(chain_seq(*a)) == comps_view(chain_seq(*b))),
    decreases chain_seq(*a).len(),
{
    match (a, b) {
        (Option::None, Option::None) => {
            proof {
                assert(comps_view(chain_seq(*a)) =~= comps_view(chain_seq(*b)));
            }
            true
        },
        (Option::Some(x), Option::Some(y)) => {
            let ghost wa = comps_view(chain_seq_at(a));
            let ghost wb = comps_view(chain_seq_at(b));
            let ghost pa = comps_view(chain_seq_at(&x.prev));
            let ghost pb = comps_view(chain_seq_at(&y.prev));
            let ghost ca = (x.value.0, x.value.1@);
            let ghost cb = (y.value.0, y.value.1@);
            proof {
                assert(chain_seq(*a) == chain_seq(x.prev).push(x.value));
                assert(chain_seq(*b) == chain_seq(y.prev).push(y.value));
                assert(wa =~= pa.push(ca));
                assert(wb =~= pb.push(cb));
                assert(pa.push(ca).drop_last() =~= pa);
                assert(pb.push(cb).drop_last() =~= pb);
            }
            let kinds_eq = x.value.0 == y.value.0;
            let texts_eq = x.value.1 == y.value.1;
            if kinds_eq && texts_eq {
                let r = chain_eq(&x.prev, &y.prev);
                proof {
                    assert(ca == cb);
                    if pa == pb {
                        assert(wa == wb);
                    } else {
                        assert(wa.drop_last() == pa);
                        assert(wb.drop_last() == pb);
                        assert(wa != wb);
                    }
                }
                r
            } else {
                proof {
                    assert(ca != cb);
                    assert(wa.last() == ca);
                    assert(wb.last() == cb);
                    assert(wa != wb);
                }
                false
            }
        },
        (Option::Some(x), Option::None) => {
            proof {
                assert(chain_seq(*a) == chain_seq(x.prev).push(x.value));
                assert(comps_view(chain_seq(*a)).len() != comps_view(chain_seq(*b)).len());
            }
            false
        },
        (Option::None, Option::Some(y)) => {
            proof {
                assert(chain_seq(*b) == chain_seq(y.prev).push(y.value));
                assert(comps_view(chain_seq(*a)).len() != comps_view(chain_seq(*b)).len());
            }
            false
        },
    }
}

/// The separator emitted before a component of the given kind: `.` for
/// a `Key`, `[` for an `Index`, nothing for `Kind::Anonymous`.
pub open spec fn sep_of(kind: Kind) -> Seq<char> {
    match kind {
        Kind::Anonymous => Seq::empty(),
        Kind::Key => seq!['.'],
        Kind::Index => seq!['['],
    }
}

/// The closing bracket emitted after an `Index` component.
pub open spec fn close_of(kind: Kind) -> Seq<char> {
    if kind == Kind::Index {
        seq![']']
    } else {
        Seq::empty()
    }
}

/// Law: the empty path has no components, and joining one component
/// grows a path's length by exactly one.
pub proof fn lemma_path_length(p: Seq<(Kind, Seq<char>)>, c: (Kind, Seq<char>))
    ensures
        Seq::<(Kind, Seq<char>)>::empty().len() == 0,
        p.push(c).len() == p.len() + 1,
{
}

/// Law: the empty path renders as the empty string.
pub proof fn lemma_render_empty()
    ensures
        render_components(Seq::<(Kind, Seq<char>)>::empty()) == Seq::<char>::empty(),
{
}

/// Law: a path of one component renders as that component alone, with
/// no separator in front of it.
pub proof fn lemma_render_single(c: (Kind, Seq<char>))
    ensures
        render_components(seq![c]) == render_one(c.0, c.1, false),
{
    let s = seq![c];
    assert(s.drop_last() =~= Seq::<(Kind, Seq<char>)>::empty());
    assert(!has_visible(s.drop_last()));
    assert(s.last() == c);
    assert(render_components(Seq::<(Kind, Seq<char>)>::empty()) == Seq::<char>::empty());
    assert(Seq::<char>::empty() + render_one(c.0, c.1, false) =~= render_one(c.0, c.1, false));
}

/// Law: rendering a joined path appends the new component's separator,
/// text, and closing bracket to the rendering of the old path. A `Key`
/// joined onto a path with no `Key` or `Index` component renders
/// without its `.` separator, so that case is left out.
pub proof fn lemma_render_join(p: Seq<(Kind, Seq<char>)>, c: (Kind, Seq<char>))
    requires
        c.0 == Kind::Key ==> has_visible(p),
    ensures
        render_components(p.push(c)) == render_components(p) + sep_of(c.0) + c.1 + close_of(c.0),
{
    assert(p.push(c).drop_last() =~= p);
    assert(p.push(c).last() == c);
    let r = render_components(p);
    match c.0 {
        Kind::Anonymous => {
            assert(r + render_one(c.0, c.1, has_visible(p)) =~= r + sep_of(c.0) + c.1 + close_of(
                c.0,
            ));
        },
        Kind::Key => {
            assert(r + render_one(c.0, c.1, has_visible(p)) =~= r + sep_of(c.0) + c.1 + close_of(
                c.0,
            ));
        },
        Kind::Index => {
            assert(r + render_one(c.0, c.1, has_visible(p)) =~= r + sep_of(c.0) + c.1 + close_of(
                c.0,
            ));
        },
    }
}

/// Law: two paths are equal exactly when their component sequences are
/// equal, however their cells are shared.
pub proof fn lemma_path_eq_congruence(p: Path, q: Path)
    ensures
        p.eq_spec(&q) <==> p@ == q@,
{
}

} // verus!

