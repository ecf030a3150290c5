//! An ordered stream of edit operations.

use crate::attributes::Attributes;
use crate::doc_node::{attr_char, leaf_chars, leaf_v, AttrChar};
use crate::operations::DeltaOperation;
use vstd::prelude::*;

verus! {

/// The attributed characters an operation stream of single-line text inserts
/// describes, in order.
pub open spec fn ops_chars(ops: Seq<DeltaOperation>) -> Seq<AttrChar>
    decreases ops.len(),
{
    if ops.len() == 0 {
        Seq::empty()
    } else {
        leaf_chars(leaf_v(ops[0].text(), ops[0].attrs())) + ops_chars(ops.drop_first())
    }
}

/// Splitting an operation stream splits its characters.
pub proof fn lemma_ops_chars_concat(a: Seq<DeltaOperation>, b: Seq<DeltaOperation>)
    ensures
        ops_chars(a + b) == ops_chars(a) + ops_chars(b),
    decreases a.len(),
{
    if a.len() == 0 {
        assert(a + b =~= b);
        assert(ops_chars(a) + ops_chars(b) =~= ops_chars(b));
    } else {
        assert((a + b).drop_first() =~= a.drop_first() + b);
        assert((a + b)[0] == a[0]);
        lemma_ops_chars_concat(a.drop_first(), b);
        assert(ops_chars(a + b) =~= ops_chars(a) + ops_chars(b));
    }
}

/// Extending an operation stream by one operation appends its characters.
pub proof fn lemma_ops_chars_snoc(ops: Seq<DeltaOperation>, op: DeltaOperation)
    ensures
        ops_chars(ops.push(op)) == ops_chars(ops) + leaf_chars(leaf_v(op.text(), op.attrs())),
{
    assert(ops.push(op) =~= ops + seq![op]);
    lemma_ops_chars_concat(ops, seq![op]);
    assert(seq![op].len() == 1);
    assert(seq![op][0] == op);
    assert(seq![op].drop_first() =~= Seq::<DeltaOperation>::empty());
    assert(ops_chars(Seq::<DeltaOperation>::empty()) == Seq::<AttrChar>::empty());
    assert(ops_chars(seq![op]) =~= leaf_chars(leaf_v(op.text(), op.attrs())));
}

/// An ordered sequence of edit operations, consumed or produced by the
/// engine.
pub struct Delta {
    ops: Vec<DeltaOperation>,
}

impl Delta {
    /// The operations held, in order.
    pub closed spec fn ops(&self) -> Seq<DeltaOperation> {
        self.ops@
    }

    /// Every operation held is well formed.
    pub closed spec fn wf(&self) -> bool {
        forall|i: int| 0 <= i < self.ops@.len() ==> (#[trigger] self.ops@[i]).wf()
    }

    /// An empty stream.
    pub fn new() -> (r: Delta)
        ensures
            r.ops() == Seq::<DeltaOperation>::empty(),
            r.wf(),
    {
        Delta { ops: Vec::new() }
    }

    /// Appends one operation.
    pub fn push(&mut self, op: DeltaOperation)
        requires
            old(self).wf(),
            op.wf(),
        ensures
            final(self).wf(),
            final(self).ops() == old(self).ops().push(op),
    {
        self.ops.push(op);
    }

    /// Appends an insert of `txt` without attributes; when the stream
    /// already ends in a plain text insert, the text is appended onto it, so
    /// the stream stays in its minimal form.
    pub fn insert(&mut self, txt: &str)
        requires
            old(self).wf(),
        ensures
            final(self).wf(),
            final(self).ops().len() >= 1,
            final(self).ops().last()@.kind is Insert,
            final(self).ops().last().is_text_insert(),
            final(self).ops().last().attrs() == Map::<
                Seq<char>,
                crate::attr_val::AttrV,
            >::empty(),
            (if old(self).ops().len() > 0 && old(self).ops().last().is_text_insert()
                && old(self).ops().last().attrs() == Map::<
                Seq<char>,
                crate::attr_val::AttrV,
            >::empty() {
                final(self).ops() == old(self).ops().update(
                    old(self).ops().len() - 1,
                    final(self).ops().last(),
                ) && final(self).ops().last().text() == old(self).ops().last().text() + txt@
            } else {
                final(self).ops() == old(self).ops().push(final(self).ops().last())
                    && final(self).ops().last().text() == txt@
            }),
    {
        let n = self.ops.len();
        if n > 0 {
            let mergeable = {
                let last = &self.ops[n - 1];
                let is_plain_text = match last.get_op_kind() {
                    crate::operations::OpKind::Insert(v) => v.is_string(),
                    _ => false,
                };
                is_plain_text && last.get_attributes().is_empty()
            };
            if mergeable {
                let mut joined = self.ops[n - 1].text_str().to_owned();
                joined.append(txt);
                self.ops.set(n - 1, DeltaOperation::insert(joined.as_str()));
                return ;
            }
        }
        self.ops.push(DeltaOperation::insert(txt));
    }

    /// Appends an insert of `txt` carrying `attr`.
    pub fn insert_attr(&mut self, txt: &str, attr: Attributes)
        requires
            old(self).wf(),
            attr.wf(),
        ensures
            final(self).wf(),
            final(self).ops().len() == old(self).ops().len() + 1,
            final(self).ops() == old(self).ops().push(final(self).ops().last()),
            final(self).ops().last()@.kind == crate::operations::OpKindV::Insert(
                crate::operations::InsertV::Text(txt@),
            ),
            final(self).ops().last().attrs() == attr@,
    {
        self.ops.push(DeltaOperation::insert_attr(txt, attr));
    }

    /// Appends a retain of `n`.
    pub fn retain(&mut self, n: usize)
        requires
            old(self).wf(),
        ensures
            final(self).wf(),
            final(self).ops().len() == old(self).ops().len() + 1,
            final(self).ops() == old(self).ops().push(final(self).ops().last()),
            final(self).ops().last()@.kind == crate::operations::OpKindV::Retain(n as int),
            final(self).ops().last().attrs() == Map::<
                Seq<char>,
                crate::attr_val::AttrV,
            >::empty(),
    {
        self.ops.push(DeltaOperation::retain(n));
    }

    /// Appends a retain of `n` carrying `attr`.
    pub fn retain_attr(&mut self, n: usize, attr: Attributes)
        requires
            old(self).wf(),
            attr.wf(),
        ensures
            final(self).wf(),
            final(self).ops().len() == old(self).ops().len() + 1,
            final(self).ops() == old(self).ops().push(final(self).ops().last()),
            final(self).ops().last()@.kind == crate::operations::OpKindV::Retain(n as int),
            final(self).ops().last().attrs() == attr@,
    {
        self.ops.push(DeltaOperation::retain_attr(n, attr));
    }

    /// Appends a delete of `n`.
    pub fn delete(&mut self, n: usize)
        requires
            old(self).wf(),
        ensures
            final(self).wf(),
            final(self).ops().len() == old(self).ops().len() + 1,
            final(self).ops() == old(self).ops().push(final(self).ops().last()),
            final(self).ops().last()@.kind == crate::operations::OpKindV::Delete(n as int),
    {
        self.ops.push(DeltaOperation::delete(n));
    }

    /// Number of operations held.
    pub fn len(&self) -> (r: usize)
        ensures
            r == self.ops().len(),
    {
        self.ops.len()
    }

    /// The operation at `i`.
    pub fn get(&self, i: usize) -> (r: &DeltaOperation)
        requires
            i < self.ops().len(),
        ensures
            *r == self.ops()[i as int],
    {
        &self.ops[i]
    }

    /// The first operation, if any.
    pub fn first(&self) -> (r: Option<&DeltaOperation>)
        ensures
            match r {
                Some(op) => self.ops().len() > 0 && *op == self.ops()[0],
                None => self.ops().len() == 0,
            },
    {
        if self.ops.len() > 0 {
            Some(&self.ops[0])
        } else {
            None
        }
    }

    /// The operations held, as a borrowed list.
    pub fn get_ops_ref(&self) -> (r: &Vec<DeltaOperation>)
        ensures
            r@ == self.ops(),
    {
        &self.ops
    }

    /// The operations held, surrendered in order.
    pub fn get_ops(self) -> (r: Vec<DeltaOperation>)
        ensures
            r@ == self.ops(),
            self.wf() ==> forall|i: int| 0 <= i < r@.len() ==> (#[trigger] r@[i]).wf(),
    {
        self.ops
    }
}

} // verus!
