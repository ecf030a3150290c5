//! Ordered attribute lookup tables.
//!
//! A table fixes a sequence of attribute names and, for each, the render-side
//! name (an element tag, a class prefix or a style key) it translates to.

use crate::attr_val::{AttrV, AttrVal};
use crate::attributes::Attributes;
use vstd::prelude::*;

verus! {

/// An ordered list of attribute names, each with its render-side translation.
pub struct AttributesLookup {
    entries: Vec<(String, String)>,
}

impl AttributesLookup {
    /// The table's content: pairs of attribute name and translation, in
    /// priority order.
    pub closed spec fn pairs(&self) -> Seq<(Seq<char>, Seq<char>)> {
        self.entries@.map(|i: int, e: (String, String)| (e.0@, e.1@))
    }

    /// An empty table; `length` is the expected number of entries.
    pub fn new(length: usize) -> (r: AttributesLookup)
        ensures
            r.pairs() == Seq::<(Seq<char>, Seq<char>)>::empty(),
    {
        let _ = length;
        let r = AttributesLookup { entries: Vec::new() };
        proof {
            assert(r.pairs() =~= Seq::<(Seq<char>, Seq<char>)>::empty());
        }
        r
    }

    /// Appends one attribute name with its translation.
    pub fn fill_one(&mut self, attrib: &str, html_tag: &str)
        ensures
            final(self).pairs() == old(self).pairs().push((attrib@, html_tag@)),
    {
        self.entries.push((attrib.to_owned(), html_tag.to_owned()));
        proof {
            assert(self.pairs() =~= old(self).pairs().push((attrib@, html_tag@)));
        }
    }

    /// Number of entries.
    pub fn len(&self) -> (r: usize)
        ensures
            r == self.pairs().len(),
    {
        self.entries.len()
    }

    /// The attribute name at `i`.
    pub fn key_at(&self, i: usize) -> (r: &str)
        requires
            i < self.pairs().len(),
        ensures
            r@ == self.pairs()[i as int].0,
    {
        self.entries[i].0.as_str()
    }

    /// The translation at `i`.
    pub fn tag_at(&self, i: usize) -> (r: &str)
        requires
            i < self.pairs().len(),
        ensures
            r@ == self.pairs()[i as int].1,
    {
        self.entries[i].1.as_str()
    }
}

/// The pairs of translation and value selected by walking `tbl` in order and
/// keeping the attribute names that `attrs` sets.
pub open spec fn selected_view(
    tbl: Seq<(Seq<char>, Seq<char>)>,
    attrs: Map<Seq<char>, AttrV>,
) -> Seq<(Seq<char>, AttrV)>
    decreases tbl.len(),
{
    if tbl.len() == 0 {
        Seq::empty()
    } else {
        let rest = selected_view(tbl.drop_first(), attrs);
        if attrs.contains_key(tbl[0].0) {
            seq![(tbl[0].1, attrs[tbl[0].0])] + rest
        } else {
            rest
        }
    }
}

/// The view of a selected pair list.
pub open spec fn pairs_view(v: Seq<(String, AttrVal)>) -> Seq<(Seq<char>, AttrV)> {
    v.map(|i: int, e: (String, AttrVal)| (e.0@, e.1@))
}

/// Walks a lookup table over a set of attributes.
pub struct Attributor {}

impl Attributor {
    /// The translations and values of the attributes of `attr` that `lookup`
    /// lists, in the table's order.
    pub fn selected(attr: &Attributes, lookup: &AttributesLookup) -> (r: Vec<(String, AttrVal)>)
        requires
            attr.wf(),
        ensures
            pairs_view(r@) == selected_view(lookup.pairs(), attr@),
    {
        let n = lookup.len();
        let mut out: Vec<(String, AttrVal)> = Vec::new();
        let mut i: usize = 0;
        while i < n
            invariant
                attr.wf(),
                n == lookup.pairs().len(),
                i <= n,
                pairs_view(out@) == selected_view(lookup.pairs().take(i as int), attr@),
            decreases n - i,
        {
            let ghost prev = out@;
            let key = lookup.key_at(i);
            match attr.get(key) {
                Some(v) => {
                    out.push((lookup.tag_at(i).to_owned(), v.clone()));
                },
                None => {},
            }
            proof {
                let t0 = lookup.pairs().take(i as int);
                let t1 = lookup.pairs().take(i + 1);
                lemma_selected_snoc(t0, lookup.pairs()[i as int], attr@);
                assert(t1 =~= t0.push(lookup.pairs()[i as int]));
                assert(pairs_view(out@) =~= selected_view(t1, attr@));
            }
            i = i + 1;
        }
        proof {
            assert(lookup.pairs().take(n as int) =~= lookup.pairs());
        }
        out
    }

    /// All attribute names of the table, in order.
    pub fn all_key(lookup: &AttributesLookup) -> (r: Vec<String>)
        ensures
            r@.map(|i: int, s: String| s@) == lookup.pairs().map(
                |i: int, e: (Seq<char>, Seq<char>)| e.0,
            ),
    {
        let n = lookup.len();
        let mut out: Vec<String> = Vec::new();
        let mut i: usize = 0;
        while i < n
            invariant
                n == lookup.pairs().len(),
                i <= n,
                out@.len() == i,
                forall|j: int| 0 <= j < i ==> (#[trigger] out@[j])@ == lookup.pairs()[j].0,
            decreases n - i,
        {
            out.push(lookup.key_at(i).to_owned());
            i = i + 1;
        }
        proof {
            assert(out@.map(|i: int, s: String| s@) =~= lookup.pairs().map(
                |i: int, e: (Seq<char>, Seq<char>)| e.0,
            ));
        }
        out
    }
}

/// Selecting over a table extended on the right appends the new entry's pair
/// when its attribute is set.
proof fn lemma_selected_snoc(
    tbl: Seq<(Seq<char>, Seq<char>)>,
    e: (Seq<char>, Seq<char>),
    attrs: Map<Seq<char>, AttrV>,
)
    ensures
        selected_view(tbl.push(e), attrs) == if attrs.contains_key(e.0) {
            selected_view(tbl, attrs).push((e.1, attrs[e.0]))
        } else {
            selected_view(tbl, attrs)
        },
    decreases tbl.len(),
{
    let whole = tbl.push(e);
    assert(whole.len() == tbl.len() + 1);
    assert(whole[tbl.len() as int] == e);
    if tbl.len() == 0 {
        assert(whole[0] == e);
        assert(whole.drop_first() =~= Seq::<(Seq<char>, Seq<char>)>::empty());
        assert(selected_view(whole.drop_first(), attrs) == Seq::<(Seq<char>, AttrV)>::empty());
        assert(selected_view(tbl, attrs) == Seq::<(Seq<char>, AttrV)>::empty());
        if attrs.contains_key(whole[0].0) {
            assert(selected_view(whole, attrs) == seq![(whole[0].1, attrs[whole[0].0])]
                + selected_view(whole.drop_first(), attrs));
            assert(selected_view(whole, attrs) =~= selected_view(tbl, attrs).push(
                (e.1, attrs[e.0]),
            ));
        } else {
            assert(selected_view(whole, attrs) == selected_view(whole.drop_first(), attrs));
        }
    } else {
        assert(whole.drop_first() =~= tbl.drop_first().push(e));
        lemma_selected_snoc(tbl.drop_first(), e, attrs);
        assert(whole[0] == tbl[0]);
        if attrs.contains_key(e.0) {
            assert(selected_view(whole, attrs) =~= selected_view(tbl, attrs).push(
                (e.1, attrs[e.0]),
            ));
        } else {
            assert(selected_view(whole, attrs) =~= selected_view(tbl, attrs));
        }
    }
}

} // verus!
