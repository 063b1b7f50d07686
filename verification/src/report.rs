//! The report: `(Path, Error)` pairs in insertion order, with a prefix
//! query over the paths.

use crate::error::Error;
use crate::path::render_components;
use crate::path::Kind;
use crate::path::Path;
use crate::pattern::matches_pattern;
use crate::pattern::visible;
use crate::pattern::Pattern;
use vstd::prelude::*;
use vstd::string::StringExecFns;

verus! {

/// The abstract form of one report entry: the path's components and the
/// error's message.
pub type EntryView = (Seq<(Kind, Seq<char>)>, Seq<char>);

/// A report of validation errors: `(Path, Error)` pairs held in
/// insertion order. A path may appear many times; nothing is ever
/// removed, deduplicated or reordered.
#[derive(Debug)]
pub struct Report {
    errors: Vec<(Path, Error)>,
}

impl View for Report {
    type V = Seq<EntryView>;

    closed spec fn view(&self) -> Seq<EntryView> {
        Seq::new(self.errors@.len(), |i: int| (self.errors@[i].0@, self.errors@[i].1@))
    }
}

/// The rendering of one report line: `path: message` and a newline.
pub open spec fn render_entry(e: EntryView) -> Seq<char> {
    render_components(e.0) + seq![':', ' '] + e.1 + seq!['\n']
}

/// The rendering of a whole report: one line per entry, in order.
pub open spec fn render_report(entries: Seq<EntryView>) -> Seq<char>
    decreases entries.len(),
{
    if entries.len() == 0 {
        Seq::empty()
    } else {
        render_report(entries.drop_last()) + render_entry(entries.last())
    }
}

/// The messages of the entries whose path matches `q`, in order.
pub open spec fn selected(entries: Seq<EntryView>, q: Seq<(Kind, Seq<char>)>) -> Seq<Seq<char>>
    decreases entries.len(),
{
    if entries.len() == 0 {
        Seq::empty()
    } else {
        let rest = selected(entries.drop_last(), q);
        if matches_pattern(entries.last().0, q) {
            rest.push(entries.last().1)
        } else {
            rest
        }
    }
}

impl Report {
    /// An empty report.
    pub fn new() -> (r: Self)
        ensures
            r@ == Seq::<EntryView>::empty(),
    {
        let r = Report { errors: Vec::new() };
        proof {
            assert(r@ =~= Seq::<EntryView>::empty());
        }
        r
    }

    /// Appends one `(path, error)` pair at the end; everything already
    /// in the report keeps its position.
    pub fn append(&mut self, path: Path, error: Error)
        ensures
            final(self)@ == old(self)@.push((path@, error@)),
    {
        let ghost p = path@;
        let ghost e = error@;
        self.errors.push((path, error));
        proof {
            assert(self@ =~= old(self)@.push((p, e)));
        }
    }

    /// A borrow of the entries, in insertion order.
    pub fn iter(&self) -> (r: &Vec<(Path, Error)>)
        ensures
            r@.len() == self@.len(),
            forall|i: int| 0 <= i < r@.len() ==> (r@[i].0@, r@[i].1@) == self@[i],
    {
        &self.errors
    }

    /// The number of entries.
    pub fn len(&self) -> (r: usize)
        ensures
            r == self@.len(),
    {
        self.errors.len()
    }

    /// Whether the report holds no entries.
    pub fn is_empty(&self) -> (r: bool)
        ensures
            r == (self@.len() == 0),
    {
        self.errors.is_empty()
    }

    /// The rendered report: each entry as `path: message` on a line of
    /// its own.
    pub fn to_string(&self) -> (r: String)
        ensures
            r@ == render_report(self@),
    {
        let mut out = String::new();
        let n = self.errors.len();
        let mut i: usize = 0;
        proof {
            assert(self@.take(0) =~= Seq::<EntryView>::empty());
        }
        while i < n
            invariant
                i <= n,
                n == self@.len(),
                n == self.errors@.len(),
                out@ == render_report(self@.take(i as int)),
            decreases n - i,
        {
            let pair = &self.errors[i];
            let path_str = pair.0.to_string();
            out.append(path_str.as_str());
            out.append(": ");
            out.append(pair.1.message());
            out.append("\n");
            proof {
                reveal_strlit(": ");
                reveal_strlit("\n");
                assert((": "@) =~= seq![':', ' ']);
                assert(("\n"@) =~= seq!['\n']);
                assert(self@[i as int] == (self.errors@[i as int].0@, self.errors@[i as int].1@));
                assert(render_report(self@.take(i as int + 1)) == render_report(
                    self@.take(i as int),
                ) + render_entry(self@[i as int])) by {
                    assert(self@.take(i as int + 1).drop_last() =~= self@.take(i as int));
                    assert(self@.take(i as int + 1).last() == self@[i as int]);
                }
                assert(out@ =~= render_report(self@.take(i as int + 1)));
            }
            i = i + 1;
        }
        proof {
            assert(self@.take(n as int) =~= self@);
        }
        out
    }

    /// The errors whose path matches `pattern`, in insertion order.
    pub fn select<'a>(&'a self, pattern: &Pattern) -> (r: Vec<&'a Error>)
        ensures
            r@.len() == selected(self@, pattern@).len(),
            forall|i: int| 0 <= i < r@.len() ==> r@[i]@ == selected(self@, pattern@)[i],
    {
        let mut r: Vec<&Error> = Vec::new();
        let n = self.errors.len();
        let mut i: usize = 0;
        proof {
            assert(self@.take(0) =~= Seq::<EntryView>::empty());
        }
        while i < n
            invariant
                i <= n,
                n == self@.len(),
                n == self.errors@.len(),
                r@.len() == selected(self@.take(i as int), pattern@).len(),
                forall|j: int|
                    0 <= j < r@.len() ==> r@[j]@ == selected(self@.take(i as int), pattern@)[j],
            decreases n - i,
        {
            let pair = &self.errors[i];
            let is_match = pattern.matches(&pair.0);
            proof {
                assert(self@[i as int] == (self.errors@[i as int].0@, self.errors@[i as int].1@));
                assert(self@.take(i as int + 1).drop_last() =~= self@.take(i as int));
                assert(self@.take(i as int + 1).last() == self@[i as int]);
            }
            if is_match {
                r.push(&pair.1);
                proof {
                    assert(selected(self@.take(i as int + 1), pattern@) == selected(
                        self@.take(i as int),
                        pattern@,
                    ).push(self@[i as int].1));
                }
            } else {
                proof {
                    assert(selected(self@.take(i as int + 1), pattern@) == selected(
                        self@.take(i as int),
                        pattern@,
                    ));
                }
            }
            i = i + 1;
        }
        proof {
            assert(self@.take(n as int) =~= self@);
        }
        r
    }
}

/// Law: entries keep the exact order of `append` calls: appending
/// leaves every existing entry at its position and places the new entry
/// last.
pub proof fn lemma_append_order(entries: Seq<EntryView>, e: EntryView)
    ensures
        entries.push(e).len() == entries.len() + 1,
        forall|i: int| 0 <= i < entries.len() ==> entries.push(e)[i] == entries[i],
        entries.push(e)[entries.len() as int] == e,
{
}

/// Law: `selected` holds exactly the errors of the matching entries,
/// in order: an entry's error is selected iff the pattern's components
/// are a prefix of the path's non-anonymous components, kind and text
/// both.
pub proof fn lemma_select_prefix(entries: Seq<EntryView>, q: Seq<(Kind, Seq<char>)>)
    ensures
        selected(entries, q) == entries.filter(|e: EntryView| matches_pattern(e.0, q)).map_values(
            |e: EntryView| e.1,
        ),
    decreases entries.len(),
{
    let pred = |e: EntryView| matches_pattern(e.0, q);
    let getmsg = |e: EntryView| e.1;
    reveal_with_fuel(Seq::filter, 2);
    if entries.len() == 0 {
        assert(entries.filter(pred) =~= Seq::<EntryView>::empty());
        assert(entries.filter(pred).map_values(getmsg) =~= Seq::<Seq<char>>::empty());
    } else {
        let butlast = entries.drop_last();
        lemma_select_prefix(butlast, q);
        if pred(entries.last()) {
            assert(entries.filter(pred) == butlast.filter(pred).push(entries.last()));
            assert(butlast.filter(pred).push(entries.last()).map_values(getmsg) =~= butlast.filter(
                pred,
            ).map_values(getmsg).push(entries.last().1));
        } else {
            assert(entries.filter(pred) == butlast.filter(pred));
        }
    }
}

/// Law: the empty pattern selects every error, in insertion order.
pub proof fn lemma_select_empty_pattern(entries: Seq<EntryView>)
    ensures
        selected(entries, Seq::empty()) == entries.map_values(|e: EntryView| e.1),
    decreases entries.len(),
{
    let getmsg = |e: EntryView| e.1;
    if entries.len() == 0 {
        assert(entries.map_values(getmsg) =~= Seq::<Seq<char>>::empty());
    } else {
        let butlast = entries.drop_last();
        lemma_select_empty_pattern(butlast);
        assert(matches_pattern(entries.last().0, Seq::empty())) by {
            assert(visible(entries.last().0).take(0) =~= Seq::<(Kind, Seq<char>)>::empty());
        }
        assert(entries.map_values(getmsg) =~= butlast.map_values(getmsg).push(entries.last().1));
    }
}

} // verus!
