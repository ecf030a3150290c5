//! Formatting attributes: a mapping from attribute names to values.
//!
//! Attributes abstract to a finite map from name to [`AttrV`].  The map is
//! stored as a key-unique association list; all contracts speak of the map.

use crate::attr_val::{AttrV, AttrVal};
use vstd::prelude::*;

verus! {

/// The finite map denoted by an association list; a later entry for the same
/// key wins, though well-formed lists never hold one.
pub open spec fn map_of(entries: Seq<(String, AttrVal)>) -> Map<Seq<char>, AttrV>
    decreases entries.len(),
{
    if entries.len() == 0 {
        Map::empty()
    } else {
        map_of(entries.drop_last()).insert(entries.last().0@, entries.last().1@)
    }
}

/// No two entries share a key.
pub open spec fn keys_unique(entries: Seq<(String, AttrVal)>) -> bool {
    forall|i: int, j: int|
        0 <= i < j < entries.len() ==> (#[trigger] entries[i]).0@ != (#[trigger] entries[j]).0@
}

/// Every attribute of `a` is set to the same value in `b`.
pub open spec fn covered_by(a: Map<Seq<char>, AttrV>, b: Map<Seq<char>, AttrV>) -> bool {
    forall|k: Seq<char>| #[trigger] a.dom().contains(k) ==> b.dom().contains(k) && b[k] == a[k]
}

/// A name-to-value mapping carried by an edit operation or stored on a node.
pub struct Attributes {
    entries: Vec<(String, AttrVal)>,
}

impl View for Attributes {
    type V = Map<Seq<char>, AttrV>;

    closed spec fn view(&self) -> Map<Seq<char>, AttrV> {
        map_of(self.entries@)
    }
}

/// A key is in the map exactly when some entry carries it.
proof fn lemma_contains(entries: Seq<(String, AttrVal)>, k: Seq<char>)
    ensures
        map_of(entries).contains_key(k) <==> exists|i: int|
            0 <= i < entries.len() && (#[trigger] entries[i]).0@ == k,
    decreases entries.len(),
{
    if entries.len() > 0 {
        lemma_contains(entries.drop_last(), k);
        if entries.last().0@ == k {
            assert((#[trigger] entries[entries.len() - 1]).0@ == k);
        } else {
            if map_of(entries).contains_key(k) {
                let i = choose|i: int|
                    0 <= i < entries.drop_last().len() && (#[trigger] entries.drop_last()[i]).0@
                        == k;
                assert((#[trigger] entries[i]).0@ == k);
            }
            if exists|i: int| 0 <= i < entries.len() && (#[trigger] entries[i]).0@ == k {
                let i = choose|i: int| 0 <= i < entries.len() && (#[trigger] entries[i]).0@ == k;
                assert(i < entries.len() - 1);
                assert((#[trigger] entries.drop_last()[i]).0@ == k);
            }
        }
    }
}

/// Under key uniqueness each entry's value is the map's value for its key.
proof fn lemma_get(entries: Seq<(String, AttrVal)>, i: int)
    requires
        keys_unique(entries),
        0 <= i < entries.len(),
    ensures
        map_of(entries).contains_key(entries[i].0@),
        map_of(entries)[entries[i].0@] == entries[i].1@,
    decreases entries.len(),
{
    lemma_contains(entries, entries[i].0@);
    if i < entries.len() - 1 {
        assert(keys_unique(entries.drop_last())) by {
            assert(forall|a: int, b: int|
                0 <= a < b < entries.drop_last().len() ==> (#[trigger] entries.drop_last()[a]).0@
                    == entries[a].0@ && (#[trigger] entries.drop_last()[b]).0@ == entries[b].0@);
        }
        assert(entries.drop_last()[i] == entries[i]);
        lemma_get(entries.drop_last(), i);
        assert(entries[i].0@ != entries.last().0@);
    }
}

/// The map's domain is finite and no larger than the entry list.
proof fn lemma_dom_card(entries: Seq<(String, AttrVal)>)
    ensures
        map_of(entries).dom().finite(),
        map_of(entries).dom().len() <= entries.len(),
        keys_unique(entries) ==> map_of(entries).dom().len() == entries.len(),
    decreases entries.len(),
{
    if entries.len() > 0 {
        lemma_dom_card(entries.drop_last());
        if keys_unique(entries) {
            assert(keys_unique(entries.drop_last())) by {
                assert(forall|a: int, b: int|
                    0 <= a < b < entries.drop_last().len() ==> (
                    #[trigger] entries.drop_last()[a]).0@ == entries[a].0@ && (
                    #[trigger] entries.drop_last()[b]).0@ == entries[b].0@);
            }
            lemma_contains(entries.drop_last(), entries.last().0@);
            assert(forall|i: int|
                0 <= i < entries.drop_last().len() ==> (#[trigger] entries.drop_last()[i]).0@
                    != entries.last().0@);
            assert(!map_of(entries.drop_last()).contains_key(entries.last().0@));
        }
    }
}

/// Restates [`lemma_get`] in terms of an attribute set's view, so that the
/// view's own lookup terms appear for the solver.
proof fn attr_get(a: &Attributes, i: int)
    requires
        a.wf(),
        0 <= i < a.entries@.len(),
    ensures
        a@.contains_key(a.entries@[i].0@),
        a@[a.entries@[i].0@] == a.entries@[i].1@,
{
    lemma_get(a.entries@, i);
}

impl Attributes {
    /// The association list is key-unique.
    pub closed spec fn wf(&self) -> bool {
        keys_unique(self.entries@)
    }

    /// An empty attribute set.
    pub fn new() -> (r: Attributes)
        ensures
            r@ == Map::<Seq<char>, AttrV>::empty(),
            r.wf(),
    {
        Attributes { entries: Vec::new() }
    }

    /// Number of attributes held.
    pub fn len(&self) -> (r: usize)
        requires
            self.wf(),
        ensures
            r == self@.dom().len(),
    {
        proof {
            lemma_dom_card(self.entries@);
        }
        self.entries.len()
    }

    /// True when no attribute is set.
    pub fn is_empty(&self) -> (r: bool)
        requires
            self.wf(),
        ensures
            r == (self@ == Map::<Seq<char>, AttrV>::empty()),
    {
        proof {
            lemma_dom_card(self.entries@);
            if self.entries@.len() == 0 {
                assert(self@ =~= Map::<Seq<char>, AttrV>::empty());
            } else {
                lemma_get(self.entries@, 0);
                assert(self@ != Map::<Seq<char>, AttrV>::empty());
            }
        }
        self.entries.len() == 0
    }

    /// Sets `key` to `val`, replacing any existing value for `key`.
    pub fn insert(&mut self, key: &str, val: AttrVal)
        requires
            old(self).wf(),
        ensures
            final(self).wf(),
            final(self)@ == old(self)@.insert(key@, val@),
    {
        let owned: String = key.to_owned();
        let n = self.entries.len();
        let mut i: usize = 0;
        while i < n
            invariant
                n == self.entries.len(),
                i <= n,
                self.entries@ == old(self).entries@,
                old(self).wf(),
                forall|j: int| 0 <= j < i ==> (#[trigger] self.entries@[j]).0@ != key@,
                owned@ == key@,
            decreases n - i,
        {
            if self.entries[i].0 == owned {
                proof {
                    assert(old(self).entries@[i as int].0@ == key@);
                }
                self.entries.set(i, (owned, val));
                proof {
                    let e0 = old(self).entries@;
                    let e1 = self.entries@;
                    assert(forall|j: int|
                        0 <= j < e1.len() ==> (#[trigger] e1[j]).0@ == e0[j].0@);
                    assert forall|a: int, b: int| 0 <= a < b < e1.len() implies (
                    #[trigger] e1[a]).0@ != (#[trigger] e1[b]).0@ by {
                        assert(e0[a].0@ != e0[b].0@);
                    }
                    assert forall|k: Seq<char>| true implies map_of(e1).contains_key(k)
                        == old(self)@.insert(key@, val@).contains_key(k) by {
                        lemma_contains(e1, k);
                        lemma_contains(e0, k);
                        if k == key@ {
                            assert((#[trigger] e1[i as int]).0@ == k);
                            assert((#[trigger] e0[i as int]).0@ == k);
                        } else {
                            if map_of(e1).contains_key(k) {
                                let j = choose|j: int|
                                    0 <= j < e1.len() && (#[trigger] e1[j]).0@ == k;
                                assert((#[trigger] e0[j]).0@ == k);
                            }
                            if map_of(e0).contains_key(k) {
                                let j = choose|j: int|
                                    0 <= j < e0.len() && (#[trigger] e0[j]).0@ == k;
                                assert((#[trigger] e1[j]).0@ == k);
                            }
                        }
                    }
                    assert forall|k: Seq<char>| map_of(e1).contains_key(k) implies map_of(e1)[k]
                        == old(self)@.insert(key@, val@)[k] by {
                        lemma_contains(e1, k);
                        let j = choose|j: int| 0 <= j < e1.len() && (#[trigger] e1[j]).0@ == k;
                        lemma_get(e1, j);
                        if k == key@ {
                            assert(j == i) by {
                                if j != i {
                                    assert(e0[j].0@ == k && e0[i as int].0@ == k);
                                    assert(false);
                                }
                            }
                        } else {
                            assert(j != i);
                            assert(e1[j] == e0[j]);
                            lemma_get(e0, j);
                        }
                    }
                    assert(map_of(e1) =~= old(self)@.insert(key@, val@));
                }
                return ;
            }
            i = i + 1;
        }
        self.entries.push((owned, val));
        proof {
            let e0 = old(self).entries@;
            let e1 = self.entries@;
            assert(e1.drop_last() =~= e0);
            assert forall|a: int, b: int| 0 <= a < b < e1.len() implies (#[trigger] e1[a]).0@ != (
            #[trigger] e1[b]).0@ by {
                if b < e1.len() - 1 {
                    assert(e0[a].0@ != e0[b].0@);
                } else {
                    assert(e1[a].0@ == e0[a].0@ && e1[b].0@ == key@);
                }
            }
        }
    }

    /// Looks the value for `key` up.
    pub fn get(&self, key: &str) -> (r: Option<&AttrVal>)
        requires
            self.wf(),
        ensures
            match r {
                Some(v) => self@.contains_key(key@) && v@ == self@[key@],
                None => !self@.contains_key(key@),
            },
    {
        let owned: String = key.to_owned();
        let n = self.entries.len();
        let mut i: usize = 0;
        while i < n
            invariant
                self.wf(),
                n == self.entries.len(),
                i <= n,
                forall|j: int| 0 <= j < i ==> (#[trigger] self.entries@[j]).0@ != key@,
                owned@ == key@,
            decreases n - i,
        {
            if self.entries[i].0 == owned {
                proof {
                    lemma_get(self.entries@, i as int);
                }
                return Some(&self.entries[i].1);
            }
            i = i + 1;
        }
        proof {
            lemma_contains(self.entries@, key@);
        }
        None
    }

    /// True when `key` is set.
    pub fn contains_key(&self, key: &str) -> (r: bool)
        requires
            self.wf(),
        ensures
            r == self@.contains_key(key@),
    {
        self.get(key).is_some()
    }

    /// Removes `key` if present.
    pub fn remove(&mut self, key: &str)
        requires
            old(self).wf(),
        ensures
            final(self).wf(),
            final(self)@ == old(self)@.remove(key@),
    {
        let owned: String = key.to_owned();
        let n = self.entries.len();
        let mut i: usize = 0;
        while i < n
            invariant
                n == self.entries.len(),
                i <= n,
                self.entries@ == old(self).entries@,
                old(self).wf(),
                forall|j: int| 0 <= j < i ==> (#[trigger] self.entries@[j]).0@ != key@,
                owned@ == key@,
            decreases n - i,
        {
            if self.entries[i].0 == owned {
                self.entries.remove(i);
                proof {
                    let e0 = old(self).entries@;
                    let e1 = self.entries@;
                    assert(e1 =~= e0.subrange(0, i as int) + e0.subrange(i + 1, e0.len() as int));
                    assert forall|a: int, b: int| 0 <= a < b < e1.len() implies (
                    #[trigger] e1[a]).0@ != (#[trigger] e1[b]).0@ by {
                        let a0: int = if a < i { a } else { a + 1 };
                        let b0: int = if b < i { b } else { b + 1 };
                        assert(e1[a].0@ == e0[a0].0@ && e1[b].0@ == e0[b0].0@);
                    }
                    assert forall|k: Seq<char>| true implies map_of(e1).contains_key(k) == old(
                        self,
                    )@.remove(key@).contains_key(k) by {
                        lemma_contains(e1, k);
                        lemma_contains(e0, k);
                        if k != key@ {
                            if map_of(e0).contains_key(k) {
                                let j = choose|j: int|
                                    0 <= j < e0.len() && (#[trigger] e0[j]).0@ == k;
                                let j1: int = if j < i {
                                    j
                                } else {
                                    j - 1
                                };
                                assert(j != i);
                                assert((#[trigger] e1[j1]).0@ == k);
                            }
                            if map_of(e1).contains_key(k) {
                                let j = choose|j: int|
                                    0 <= j < e1.len() && (#[trigger] e1[j]).0@ == k;
                                let j0: int = if j < i {
                                    j
                                } else {
                                    j + 1
                                };
                                assert((#[trigger] e0[j0]).0@ == k);
                            }
                        } else {
                            if map_of(e1).contains_key(k) {
                                let j = choose|j: int|
                                    0 <= j < e1.len() && (#[trigger] e1[j]).0@ == k;
                                let j0: int = if j < i {
                                    j
                                } else {
                                    j + 1
                                };
                                assert((#[trigger] e0[j0]).0@ == k);
                                assert(false);
                            }
                        }
                    }
                    assert forall|k: Seq<char>| map_of(e1).contains_key(k) implies map_of(e1)[k]
                        == old(self)@.remove(key@)[k] by {
                        lemma_contains(e1, k);
                        let j = choose|j: int| 0 <= j < e1.len() && (#[trigger] e1[j]).0@ == k;
                        lemma_get(e1, j);
                        let j0: int = if j < i {
                            j
                        } else {
                            j + 1
                        };
                        assert(e1[j] == e0[j0]);
                        lemma_get(e0, j0);
                    }
                    assert(map_of(e1) =~= old(self)@.remove(key@));
                }
                return ;
            }
            i = i + 1;
        }
        proof {
            lemma_contains(self.entries@, key@);
            assert(self@ =~= old(self)@.remove(key@));
        }
    }

    /// True when every attribute of `self` is set to the same value in
    /// `other`.
    fn is_covered_by(&self, other: &Attributes) -> (r: bool)
        requires
            self.wf(),
            other.wf(),
        ensures
            r == covered_by(self@, other@),
    {
        let n = self.entries.len();
        let mut i: usize = 0;
        while i < n
            invariant
                self.wf(),
                other.wf(),
                n == self.entries.len(),
                i <= n,
                forall|j: int|
                    0 <= j < i ==> other@.contains_key((#[trigger] self.entries@[j]).0@)
                        && other@[self.entries@[j].0@] == self.entries@[j].1@,
            decreases n - i,
        {
            let (k, v) = &self.entries[i];
            match other.get(k.as_str()) {
                Some(w) => {
                    if !v.eq_val(w) {
                        proof {
                            attr_get(self, i as int);
                        }
                        return false;
                    }
                },
                None => {
                    proof {
                        attr_get(self, i as int);
                    }
                    return false;
                },
            }
            proof {
                attr_get(self, i as int);
            }
            i = i + 1;
        }
        proof {
            assert forall|k: Seq<char>| #[trigger] self@.dom().contains(k) implies
                other@.contains_key(k) && other@[k] == self@[k] by {
                lemma_contains(self.entries@, k);
                let j = choose|j: int|
                    0 <= j < self.entries@.len() && (#[trigger] self.entries@[j]).0@ == k;
                attr_get(self, j);
            }
        }
        true
    }

    /// True when both sets hold exactly the same attributes.
    pub fn is_equal(&self, other: &Attributes) -> (r: bool)
        requires
            self.wf(),
            other.wf(),
        ensures
            r == (self@ == other@),
    {
        let r = self.is_covered_by(other) && other.is_covered_by(self);
        proof {
            if r {
                assert(self@.dom() =~= other@.dom());
                assert(self@ =~= other@);
            }
        }
        r
    }
}

impl Clone for Attributes {
    /// A clone denotes the same attribute map.
    fn clone(&self) -> (r: Self)
        ensures
            r@ == self@,
            r.wf() == self.wf(),
    {
        let n = self.entries.len();
        let mut out: Vec<(String, AttrVal)> = Vec::new();
        let mut i: usize = 0;
        while i < n
            invariant
                n == self.entries.len(),
                i <= n,
                out@.len() == i,
                forall|j: int| 0 <= j < i ==> #[trigger] out@[j] == self.entries@[j],
            decreases n - i,
        {
            let (k, v) = &self.entries[i];
            out.push((k.clone(), v.clone()));
            i = i + 1;
        }
        proof {
            assert(out@ =~= self.entries@);
        }
        Attributes { entries: out }
    }
}

impl Default for Attributes {
    /// The default attribute set is empty.
    fn default() -> (r: Attributes)
        ensures
            r@ == Map::<Seq<char>, AttrV>::empty(),
            r.wf(),
    {
        Attributes::new()
    }
}

/// The composition of `incoming` onto `base`: incoming values win, and unless
/// `keep_null` is set every clearing marker removes its key from the result.
pub open spec fn spec_compose(
    base: Map<Seq<char>, AttrV>,
    incoming: Map<Seq<char>, AttrV>,
    keep_null: bool,
) -> Map<Seq<char>, AttrV> {
    let merged = base.union_prefer_right(incoming);
    if keep_null {
        merged
    } else {
        merged.restrict(Set::new(|k: Seq<char>| !(merged[k] is Null)))
    }
}

/// Composes `incoming` onto `base`; see [`spec_compose`].
pub fn compose(base: &Attributes, incoming: &Attributes, keep_null: bool) -> (r: Attributes)
    requires
        base.wf(),
        incoming.wf(),
    ensures
        r.wf(),
        r@ == spec_compose(base@, incoming@, keep_null),
{
    let mut merged = base.clone();
    let n = incoming.entries.len();
    let mut i: usize = 0;
    while i < n
        invariant
            incoming.wf(),
            merged.wf(),
            n == incoming.entries.len(),
            i <= n,
            merged@ == base@.union_prefer_right(map_of(incoming.entries@.take(i as int))),
        decreases n - i,
    {
        let (k, v) = &incoming.entries[i];
        merged.insert(k.as_str(), v.clone());
        proof {
            let t1 = incoming.entries@.take(i + 1);
            assert(t1.drop_last() =~= incoming.entries@.take(i as int));
            assert(merged@ =~= base@.union_prefer_right(map_of(t1)));
        }
        i = i + 1;
    }
    proof {
        assert(incoming.entries@.take(n as int) =~= incoming.entries@);
    }
    if keep_null {
        return merged;
    }
    let m = merged.entries.len();
    let mut out = Attributes::new();
    let ghost target = spec_compose(base@, incoming@, false);
    let mut i: usize = 0;
    while i < m
        invariant
            merged.wf(),
            out.wf(),
            m == merged.entries.len(),
            i <= m,
            merged@ == base@.union_prefer_right(incoming@),
            out@ == map_of(merged.entries@.take(i as int)).restrict(
                Set::new(|k: Seq<char>| !(merged@[k] is Null)),
            ),
        decreases m - i,
    {
        let (k, v) = &merged.entries[i];
        proof {
            lemma_get(merged.entries@, i as int);
            lemma_contains(merged.entries@.take(i as int), k@);
            assert(forall|j: int|
                0 <= j < i ==> (#[trigger] merged.entries@.take(i as int)[j]).0@
                    == merged.entries@[j].0@);
            assert(!map_of(merged.entries@.take(i as int)).contains_key(k@));
        }
        if !v.is_null() {
            out.insert(k.as_str(), v.clone());
        }
        proof {
            let t1 = merged.entries@.take(i + 1);
            assert(t1.drop_last() =~= merged.entries@.take(i as int));
            assert(map_of(t1) == map_of(merged.entries@.take(i as int)).insert(k@, v@));
            assert(out@ =~= map_of(t1).restrict(Set::new(|q: Seq<char>| !(merged@[q] is Null))));
        }
        i = i + 1;
    }
    proof {
        assert(merged.entries@.take(m as int) =~= merged.entries@);
        assert(out@ =~= spec_compose(base@, incoming@, false));
    }
    out
}

/// Composing the same attributes twice is the same as composing them once.
pub proof fn lemma_compose_idempotent(
    a: Map<Seq<char>, AttrV>,
    b: Map<Seq<char>, AttrV>,
)
    ensures
        spec_compose(spec_compose(a, b, false), b, false) == spec_compose(a, b, false),
{
    assert(spec_compose(spec_compose(a, b, false), b, false) =~= spec_compose(a, b, false));
}

/// No attribute is set to the clearing marker; stored attributes always
/// satisfy this, as composing strips the marker.
pub open spec fn null_free(m: Map<Seq<char>, AttrV>) -> bool {
    forall|k: Seq<char>| m.contains_key(k) ==> !((#[trigger] m[k]) is Null)
}

/// Toggling one attribute is the identity: composing a value onto attributes
/// that do not carry its key, then composing the clearing marker for the
/// same key, restores the original attributes.
pub proof fn lemma_compose_toggle(
    a: Map<Seq<char>, AttrV>,
    k: Seq<char>,
    v: AttrV,
)
    requires
        !a.contains_key(k),
        !(v is Null),
        null_free(a),
    ensures
        spec_compose(
            spec_compose(a, Map::<Seq<char>, AttrV>::empty().insert(k, v), false),
            Map::<Seq<char>, AttrV>::empty().insert(k, AttrV::Null),
            false,
        ) == a,
{
    let on = Map::<Seq<char>, AttrV>::empty().insert(k, v);
    let off = Map::<Seq<char>, AttrV>::empty().insert(k, AttrV::Null);
    assert(spec_compose(spec_compose(a, on, false), off, false) =~= a);
}

} // verus!
