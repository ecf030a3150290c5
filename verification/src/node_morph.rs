//! Tree morphing primitives: splitting, merging and deleting nodes, plus the
//! operation-level text edits they are built on.
//!
//! Every function here states how the document's attributed character stream
//! ([`blocks_chars`]) changes; the splitting and merging primitives preserve
//! it exactly.

use crate::cursor::{Cursor, CursorLocation, NodeAddr};
use crate::doc_node::{
    blocks_chars, blocks_view, doc_blocks_wf, leaf_chars, leaf_v, leaves_chars,
    lemma_chars_update_block, lemma_chars_update_leaf, lemma_leaf_chars_text_split, with_children,
    BlockNode, BlockV, LeafNode, LeafV,
};
use crate::error::Error;
use crate::formatter::{Formatter, TextFormat};
use crate::operations::{DeltaOperation, InsertV, OpKind, OpKindV, OpsVal};
use vstd::prelude::*;
use vstd::string::StrSliceExecFns;

verus! {

/// Splits one insert operation in two at a character index; both halves carry
/// the operation's attributes.  An embedded object cannot be split and is
/// reported as an error.
pub fn split_at(op: &DeltaOperation, index: usize) -> (r: Result<
    (DeltaOperation, DeltaOperation),
    Error,
>)
    requires
        op.wf(),
        op@.kind is Insert,
        op.is_text_insert() ==> index <= op.text().len(),
    ensures
        match r {
            Ok(pair) => op.is_text_insert() && pair.0.wf() && pair.1.wf()
                && pair.0@.kind == OpKindV::Insert(InsertV::Text(op.text().take(index as int)))
                && pair.1@.kind == OpKindV::Insert(InsertV::Text(op.text().skip(index as int)))
                && pair.0.attrs() == op.attrs() && pair.1.attrs() == op.attrs(),
            Err(_) => !op.is_text_insert(),
        },
{
    let s = match op.insert_value().str_val() {
        Ok(s) => s,
        Err(e) => {
            return Err(e);
        },
    };
    let total = s.unicode_len();
    let l = s.substring_char(0, index);
    let rr = s.substring_char(index, total);
    let mut left = DeltaOperation::insert(l);
    left.set_attributes(op.get_attributes().clone());
    let mut right = DeltaOperation::insert(rr);
    right.set_attributes(op.get_attributes().clone());
    Ok((left, right))
}

/// Concatenates the right insert operation onto the left one.  The result
/// keeps the left operation's attributes; if the right one's differ, they are
/// lost here, as the callers have already checked equality.
pub fn merge(left: &DeltaOperation, right: &DeltaOperation) -> (r: Result<DeltaOperation, Error>)
    requires
        left.wf(),
        right.wf(),
        left@.kind is Insert,
        right@.kind is Insert,
    ensures
        match r {
            Ok(op) => left.is_text_insert() && right.is_text_insert() && op.wf()
                && op@.kind == OpKindV::Insert(InsertV::Text(left.text() + right.text()))
                && op.attrs() == left.attrs(),
            Err(_) => !(left.is_text_insert() && right.is_text_insert()),
        },
{
    let ls = match left.insert_value().str_val() {
        Ok(s) => s,
        Err(e) => {
            return Err(e);
        },
    };
    let rs = match right.insert_value().str_val() {
        Ok(s) => s,
        Err(e) => {
            return Err(e);
        },
    };
    let mut joined = ls.to_owned();
    joined.append(rs);
    let mut op = DeltaOperation::insert(joined.as_str());
    op.set_attributes(left.get_attributes().clone());
    Ok(op)
}

/// Inserts a string into an insert operation at a character index; content
/// after the index moves behind the inserted string.
pub fn insert_at(op: &mut DeltaOperation, at: usize, s: &str) -> (r: Result<(), Error>)
    requires
        old(op).wf(),
        old(op)@.kind is Insert,
        old(op).is_text_insert() ==> at <= old(op).text().len(),
    ensures
        match r {
            Ok(_) => old(op).is_text_insert() && final(op).wf() && final(op)@.kind
                == OpKindV::Insert(
                InsertV::Text(old(op).text().take(at as int) + s@ + old(op).text().skip(at as int)),
            ) && final(op).attrs() == old(op).attrs(),
            Err(_) => !old(op).is_text_insert() && *final(op) == *old(op),
        },
{
    let txt = match op.insert_value().str_val() {
        Ok(t) => t,
        Err(e) => {
            return Err(e);
        },
    };
    let total = txt.unicode_len();
    let mut joined = txt.substring_char(0, at).to_owned();
    joined.append(s);
    joined.append(txt.substring_char(at, total));
    op.set_op_kind(OpKind::Insert(OpsVal::Text(joined)));
    Ok(())
}

/// Deletes `len` characters of an insert operation, starting at character
/// `at`.
pub fn delete_at(op: &mut DeltaOperation, at: usize, len: usize) -> (r: Result<(), Error>)
    requires
        old(op).wf(),
        old(op)@.kind is Insert,
        old(op).is_text_insert() ==> at + len <= old(op).text().len(),
    ensures
        match r {
            Ok(_) => old(op).is_text_insert() && final(op).wf() && final(op)@.kind
                == OpKindV::Insert(
                InsertV::Text(old(op).text().take(at as int) + old(op).text().skip(at + len)),
            ) && final(op).attrs() == old(op).attrs(),
            Err(_) => !old(op).is_text_insert() && *final(op) == *old(op),
        },
{
    let txt = match op.insert_value().str_val() {
        Ok(t) => t,
        Err(e) => {
            return Err(e);
        },
    };
    let total = txt.unicode_len();
    let mut joined = txt.substring_char(0, at).to_owned();
    joined.append(txt.substring_char(at + len, total));
    op.set_op_kind(OpKind::Insert(OpsVal::Text(joined)));
    Ok(())
}

/// The children of a block after the leaf at `l` is split at character
/// `index`: the two halves share the original leaf's attributes.
pub open spec fn split_leaf_children(ch: Seq<LeafV>, l: int, index: int) -> Seq<LeafV> {
    ch.take(l) + seq![
        leaf_v(ch[l].text.take(index), ch[l].attrs),
        leaf_v(ch[l].text.skip(index), ch[l].attrs),
    ] + ch.skip(l + 1)
}

/// Splits the leaf at `(b, l)` into two leaves at character `index`, both
/// sharing the original attributes; the right half becomes the next sibling.
/// The document's character stream is unchanged.
pub fn split_text_node(blocks: &mut Vec<BlockNode>, b: usize, l: usize, index: usize)
    requires
        doc_blocks_wf(old(blocks)@),
        b < old(blocks)@.len(),
        l < blocks_view(old(blocks)@)[b as int].children.len(),
        0 < index < blocks_view(old(blocks)@)[b as int].children[l as int].text.len(),
    ensures
        doc_blocks_wf(final(blocks)@),
        blocks_view(final(blocks)@) == blocks_view(old(blocks)@).update(
            b as int,
            (with_children(
                blocks_view(old(blocks)@)[b as int],
                split_leaf_children(
                    blocks_view(old(blocks)@)[b as int].children,
                    l as int,
                    index as int,
                ),
            )),
        ),
        blocks_chars(blocks_view(final(blocks)@)) == blocks_chars(blocks_view(old(blocks)@)),
{
    let ghost bs0 = blocks_view(old(blocks)@);
    let ghost ch0 = bs0[b as int].children;
    let ghost lf0 = ch0[l as int];
    let (left_op, right_op) = {
        let leaf = &blocks[b].children[l];
        let s = leaf.op.text_str();
        let total = s.unicode_len();
        let left_txt = s.substring_char(0, index);
        let right_txt = s.substring_char(index, total);
        let attrs = leaf.op.get_attributes();
        (
            DeltaOperation::insert_attr(left_txt, attrs.clone()),
            DeltaOperation::insert_attr(right_txt, attrs.clone()),
        )
    };
    let left_leaf = LeafNode { formatter: Formatter::Text(TextFormat::new()), op: left_op };
    let right_leaf = LeafNode { formatter: Formatter::Text(TextFormat::new()), op: right_op };
    let n = blocks[b].children.len();
    blocks[b].children.set(l, left_leaf);
    blocks[b].children.insert(l + 1, right_leaf);
    proof {
        let bs1 = blocks_view(blocks@);
        let ch1 = bs1[b as int].children;
        let repl = seq![
            leaf_v(lf0.text.take(index as int), lf0.attrs),
            leaf_v(lf0.text.skip(index as int), lf0.attrs),
        ];
        assert(ch1 =~= ch0.take(l as int) + repl + ch0.skip(l + 1));
        assert(blocks_view(blocks@) =~= bs0.update(b as int, with_children(bs0[b as int], ch1)));
        assert forall|i: int| 0 <= i < blocks@.len() implies (#[trigger] blocks@[i]).wf() by {
            if i != b {
                assert(blocks@[i] == old(blocks)@[i]);
            }
        }
        // The characters are unchanged: the two halves concatenate to the
        // original leaf's characters.
        lemma_chars_update_leaf(ch0, l as int, repl);
        crate::doc_node::lemma_leaves_chars_concat(
            seq![leaf_v(lf0.text.take(index as int), lf0.attrs)],
            seq![leaf_v(lf0.text.skip(index as int), lf0.attrs)],
        );
        assert(repl =~= seq![leaf_v(lf0.text.take(index as int), lf0.attrs)] + seq![
            leaf_v(lf0.text.skip(index as int), lf0.attrs),
        ]);
        crate::doc_node::lemma_leaves_chars_singleton(leaf_v(lf0.text.take(index as int), lf0.attrs));
        crate::doc_node::lemma_leaves_chars_singleton(leaf_v(lf0.text.skip(index as int), lf0.attrs));
        lemma_leaf_chars_text_split(lf0.text, lf0.attrs, index as int);
        assert(leaves_chars(ch1) == leaves_chars(ch0));
        lemma_chars_update_block(bs0, b as int, bs1[b as int]);
        assert(crate::doc_node::block_chars(bs1[b as int]) == crate::doc_node::block_chars(
            bs0[b as int],
        ));
        assert(blocks_chars(bs1) =~= blocks_chars(bs0));
    }
}

/// The children of a block after the leaves at `l` and `l + 1` merge: the
/// merged leaf holds the concatenated text under the left leaf's attributes.
pub open spec fn merge_leaf_children(ch: Seq<LeafV>, l: int) -> Seq<LeafV> {
    ch.take(l) + seq![leaf_v(ch[l].text + ch[l + 1].text, ch[l].attrs)] + ch.skip(l + 2)
}

/// Merges the leaf at `(b, l + 1)` onto the leaf at `(b, l)`, which keeps its
/// attributes.  When both leaves' attributes are equal -- the case the
/// callers establish -- the document's character stream is unchanged;
/// otherwise the right leaf's attributes are lost.
pub fn merge_text_node(blocks: &mut Vec<BlockNode>, b: usize, l: usize)
    requires
        doc_blocks_wf(old(blocks)@),
        b < old(blocks)@.len(),
        l + 1 < blocks_view(old(blocks)@)[b as int].children.len(),
    ensures
        doc_blocks_wf(final(blocks)@),
        blocks_view(final(blocks)@) == blocks_view(old(blocks)@).update(
            b as int,
            (with_children(
                blocks_view(old(blocks)@)[b as int],
                merge_leaf_children(blocks_view(old(blocks)@)[b as int].children, l as int),
            )),
        ),
        blocks_view(old(blocks)@)[b as int].children[l as int].attrs == blocks_view(old(blocks)@)[
            b as int
        ].children[l + 1].attrs ==> blocks_chars(blocks_view(final(blocks)@)) == blocks_chars(
            blocks_view(old(blocks)@),
        ),
{
    let ghost bs0 = blocks_view(old(blocks)@);
    let ghost ch0 = bs0[b as int].children;
    let n = blocks[b].children.len();
    let merged_op = {
        let left = &blocks[b].children[l];
        let right = &blocks[b].children[l + 1];
        match merge(&left.op, &right.op) {
            Ok(op) => op,
            Err(_) => unreached(),
        }
    };
    let merged = LeafNode { formatter: Formatter::Text(TextFormat::new()), op: merged_op };
    blocks[b].children.set(l, merged);
    blocks[b].children.remove(l + 1);
    proof {
        let bs1 = blocks_view(blocks@);
        let ch1 = bs1[b as int].children;
        assert(ch1 =~= merge_leaf_children(ch0, l as int));
        assert(blocks_view(blocks@) =~= bs0.update(b as int, with_children(bs0[b as int], ch1)));
        assert forall|i: int| 0 <= i < blocks@.len() implies (#[trigger] blocks@[i]).wf() by {
            if i != b {
                assert(blocks@[i] == old(blocks)@[i]);
            }
        }
        if ch0[l as int].attrs == ch0[l + 1].attrs {
            let a = ch0[l as int];
            let c = ch0[l + 1];
            let m = leaf_v(a.text + c.text, a.attrs);
            assert(ch0 =~= ch0.take(l as int) + seq![a, c] + ch0.skip(l + 2));
            crate::doc_node::lemma_leaves_chars_concat(
                ch0.take(l as int) + seq![a, c],
                ch0.skip(l + 2),
            );
            crate::doc_node::lemma_leaves_chars_concat(ch0.take(l as int), seq![a, c]);
            crate::doc_node::lemma_leaves_chars_pair(a, c);
            assert(ch1 =~= ch0.take(l as int) + seq![m] + ch0.skip(l + 2));
            crate::doc_node::lemma_leaves_chars_concat(
                ch0.take(l as int) + seq![m],
                ch0.skip(l + 2),
            );
            crate::doc_node::lemma_leaves_chars_concat(ch0.take(l as int), seq![m]);
            crate::doc_node::lemma_leaves_chars_singleton(m);
            crate::doc_node::lemma_leaf_chars_text_concat(a.text, c.text, a.attrs);
            assert(leaf_chars(leaf_v(a.text, a.attrs)) =~= leaf_chars(a));
            assert(leaf_chars(leaf_v(c.text, c.attrs)) =~= leaf_chars(c));
            assert(leaves_chars(ch1) == leaves_chars(ch0));
            lemma_chars_update_block(bs0, b as int, bs1[b as int]);
            assert(blocks_chars(bs1) =~= blocks_chars(bs0));
        }
    }
}

/// Deletes `length` characters of the leaf at `(b, l)` starting at character
/// `at`, leaving at least one character behind.  The document's character
/// stream loses exactly that range.
#[verifier::spinoff_prover]
#[verifier::rlimit(100)]
pub fn delete_text(blocks: &mut Vec<BlockNode>, b: usize, l: usize, at: usize, length: usize)
    requires
        doc_blocks_wf(old(blocks)@),
        b < old(blocks)@.len(),
        l < blocks_view(old(blocks)@)[b as int].children.len(),
        at + length <= blocks_view(old(blocks)@)[b as int].children[l as int].text.len(),
        length < blocks_view(old(blocks)@)[b as int].children[l as int].text.len(),
    ensures
        doc_blocks_wf(final(blocks)@),
        blocks_view(final(blocks)@) == blocks_view(old(blocks)@).update(
            b as int,
            (with_children(
                blocks_view(old(blocks)@)[b as int],
                blocks_view(old(blocks)@)[b as int].children.update(
                    l as int,
                    (leaf_v(
                        blocks_view(old(blocks)@)[b as int].children[l as int].text.take(at as int)
                            + blocks_view(old(blocks)@)[b as int].children[l as int].text.skip(
                            at + length,
                        ),
                        blocks_view(old(blocks)@)[b as int].children[l as int].attrs,
                    )),
                ),
            )),
        ),
        crate::doc_node::chars_removed(
            blocks_chars(blocks_view(old(blocks)@)),
            blocks_chars(blocks_view(final(blocks)@)),
            crate::cursor::leaf_start_offset(blocks_view(old(blocks)@), b as int, l as int)
                + at,
            length as int,
        ),
{
    let ghost bs0 = blocks_view(old(blocks)@);
    let ghost ch0 = bs0[b as int].children;
    let ghost lf0 = ch0[l as int];
    let new_op = {
        let leaf = &blocks[b].children[l];
        let mut op = leaf.op.clone();
        match delete_at(&mut op, at, length) {
            Ok(_) => {},
            Err(_) => {
                proof {
                    assert(false);
                }
            },
        }
        op
    };
    let new_leaf = LeafNode { formatter: Formatter::Text(TextFormat::new()), op: new_op };
    blocks[b].children.set(l, new_leaf);
    proof {
        let bs1 = blocks_view(blocks@);
        let ch1 = bs1[b as int].children;
        let nl = leaf_v(lf0.text.take(at as int) + lf0.text.skip(at + length), lf0.attrs);
        assert(ch1 =~= ch0.update(l as int, nl));
        assert(blocks_view(blocks@) =~= bs0.update(b as int, with_children(bs0[b as int], ch1)));
        assert forall|i: int| 0 <= i < blocks@.len() implies (#[trigger] blocks@[i]).wf() by {
            if i != b {
                assert(blocks@[i] == old(blocks)@[i]);
            } else {
                assert forall|j: int|
                    0 <= j < blocks@[i].children@.len() implies (
                #[trigger] blocks@[i].children@[j]).wf() by {
                    if j != l {
                        assert(blocks@[i].children@[j] == old(blocks)@[i].children@[j]);
                    }
                }
            }
        }
        // Assemble the stream as prefix + deleted range + suffix.
        lemma_chars_update_block(bs0, b as int, bs1[b as int]);
        assert(ch1 =~= ch0.take(l as int) + seq![nl] + ch0.skip(l + 1));
        crate::doc_node::lemma_chars_update_leaf(ch0, l as int, seq![nl]);
        crate::doc_node::lemma_leaves_chars_singleton(nl);
        crate::doc_node::lemma_leaf_chars_text_split3(lf0.text, lf0.attrs, at as int, at + length);
        crate::doc_node::lemma_leaf_chars_text_concat(
            lf0.text.take(at as int),
            lf0.text.skip(at + length),
            lf0.attrs,
        );
        let pre = blocks_chars(bs0.take(b as int)) + leaves_chars(ch0.take(l as int))
            + leaf_chars(leaf_v(lf0.text.take(at as int), lf0.attrs));
        let mid = leaf_chars(leaf_v(lf0.text.subrange(at as int, at + length), lf0.attrs));
        let post = leaf_chars(leaf_v(lf0.text.skip(at + length), lf0.attrs)) + leaves_chars(
            ch0.skip(l + 1),
        ) + seq![crate::doc_node::attr_char('\n', bs0[b as int].attrs)] + blocks_chars(
            bs0.skip(b + 1),
        );
        assert(leaf_chars(leaf_v(lf0.text, lf0.attrs)) =~= leaf_chars(lf0));
        assert(blocks_chars(bs0) =~= pre + mid + post);
        assert(blocks_chars(bs1) =~= pre + post);
        crate::doc_node::lemma_chars_removed_parts(pre, mid, post);
        assert(pre.len() == crate::cursor::leaf_start_offset(bs0, b as int, l as int) + at);
        assert(mid.len() == length);
    }
}

/// Inserts `txt` into the leaf at `(b, l)` at character `at`.  The document's
/// character stream gains those characters, carrying the leaf's attributes.
#[verifier::spinoff_prover]
#[verifier::rlimit(100)]
pub fn insert_text(blocks: &mut Vec<BlockNode>, b: usize, l: usize, at: usize, txt: &str)
    requires
        doc_blocks_wf(old(blocks)@),
        b < old(blocks)@.len(),
        l < blocks_view(old(blocks)@)[b as int].children.len(),
        at <= blocks_view(old(blocks)@)[b as int].children[l as int].text.len(),
        forall|i: int| 0 <= i < txt@.len() ==> txt@[i] != '\n',
        blocks_chars(blocks_view(old(blocks)@)).len() + txt@.len() <= usize::MAX,
    ensures
        doc_blocks_wf(final(blocks)@),
        blocks_view(final(blocks)@) == blocks_view(old(blocks)@).update(
            b as int,
            (with_children(
                blocks_view(old(blocks)@)[b as int],
                blocks_view(old(blocks)@)[b as int].children.update(
                    l as int,
                    (leaf_v(
                        blocks_view(old(blocks)@)[b as int].children[l as int].text.take(at as int)
                            + txt@ + blocks_view(old(blocks)@)[b as int].children[l as int].text.skip(
                            at as int,
                        ),
                        blocks_view(old(blocks)@)[b as int].children[l as int].attrs,
                    )),
                ),
            )),
        ),
        crate::doc_node::chars_inserted(
            blocks_chars(blocks_view(old(blocks)@)),
            blocks_chars(blocks_view(final(blocks)@)),
            crate::cursor::leaf_start_offset(blocks_view(old(blocks)@), b as int, l as int)
                + at,
            leaf_chars(
                leaf_v(txt@, blocks_view(old(blocks)@)[b as int].children[l as int].attrs),
            ),
        ),
{
    let ghost bs0 = blocks_view(old(blocks)@);
    let ghost ch0 = bs0[b as int].children;
    let ghost lf0 = ch0[l as int];
    let new_op = {
        let leaf = &blocks[b].children[l];
        let mut op = leaf.op.clone();
        match insert_at(&mut op, at, txt) {
            Ok(_) => {},
            Err(_) => {
                proof {
                    assert(false);
                }
            },
        }
        op
    };
    let new_leaf = LeafNode { formatter: Formatter::Text(TextFormat::new()), op: new_op };
    blocks[b].children.set(l, new_leaf);
    proof {
        let bs1 = blocks_view(blocks@);
        let ch1 = bs1[b as int].children;
        let nl = leaf_v(lf0.text.take(at as int) + txt@ + lf0.text.skip(at as int), lf0.attrs);
        assert(ch1 =~= ch0.update(l as int, nl));
        assert(blocks_view(blocks@) =~= bs0.update(b as int, with_children(bs0[b as int], ch1)));
        assert forall|i: int| 0 <= i < blocks@.len() implies (#[trigger] blocks@[i]).wf() by {
            if i != b {
                assert(blocks@[i] == old(blocks)@[i]);
            } else {
                assert forall|j: int|
                    0 <= j < blocks@[i].children@.len() implies (
                #[trigger] blocks@[i].children@[j]).wf() by {
                    if j != l {
                        assert(blocks@[i].children@[j] == old(blocks)@[i].children@[j]);
                    }
                }
            }
        }
        lemma_chars_update_block(bs0, b as int, bs1[b as int]);
        assert(ch1 =~= ch0.take(l as int) + seq![nl] + ch0.skip(l + 1));
        crate::doc_node::lemma_chars_update_leaf(ch0, l as int, seq![nl]);
        crate::doc_node::lemma_leaves_chars_singleton(nl);
        lemma_leaf_chars_text_split(lf0.text, lf0.attrs, at as int);
        crate::doc_node::lemma_leaf_chars_text_concat(
            lf0.text.take(at as int) + txt@,
            lf0.text.skip(at as int),
            lf0.attrs,
        );
        crate::doc_node::lemma_leaf_chars_text_concat(lf0.text.take(at as int), txt@, lf0.attrs);
        let pre = blocks_chars(bs0.take(b as int)) + leaves_chars(ch0.take(l as int))
            + leaf_chars(leaf_v(lf0.text.take(at as int), lf0.attrs));
        let mid = leaf_chars(leaf_v(txt@, lf0.attrs));
        let post = leaf_chars(leaf_v(lf0.text.skip(at as int), lf0.attrs)) + leaves_chars(
            ch0.skip(l + 1),
        ) + seq![crate::doc_node::attr_char('\n', bs0[b as int].attrs)] + blocks_chars(
            bs0.skip(b + 1),
        );
        assert(leaf_chars(leaf_v(lf0.text, lf0.attrs)) =~= leaf_chars(lf0));
        assert(blocks_chars(bs0) =~= pre + post);
        assert(blocks_chars(bs1) =~= pre + mid + post);
        crate::doc_node::lemma_chars_inserted_parts(pre, mid, post);
        assert(pre.len() == crate::cursor::leaf_start_offset(bs0, b as int, l as int) + at);
    }
}

/// All adjacent leaf pairs differ in attributes, except possibly the pairs
/// around index `j`.
pub open spec fn canonical_except(ch: Seq<LeafV>, j: int) -> bool {
    forall|i: int|
        0 <= i < ch.len() - 1 && i != j - 1 && i != j ==> (#[trigger] ch[i]).attrs != ch[i
            + 1].attrs
}

/// Deletes one whole node: a leaf, or an empty block.  The document's
/// character stream loses the node's characters.
#[verifier::spinoff_prover]
#[verifier::rlimit(100)]
pub fn delete_node(blocks: &mut Vec<BlockNode>, addr: NodeAddr)
    requires
        doc_blocks_wf(old(blocks)@),
        (match addr {
            NodeAddr::Leaf { block, leaf } => block < old(blocks)@.len() && leaf < blocks_view(
                old(blocks)@,
            )[block as int].children.len(),
            NodeAddr::Block { block } => block < old(blocks)@.len() && blocks_view(old(blocks)@)[
                block as int
            ].children.len() == 0,
        }),
    ensures
        doc_blocks_wf(final(blocks)@),
        (match addr {
            NodeAddr::Leaf { block, leaf } => {
                &&& blocks_view(final(blocks)@) == blocks_view(old(blocks)@).update(
                    block as int,
                    (with_children(
                        blocks_view(old(blocks)@)[block as int],
                        blocks_view(old(blocks)@)[block as int].children.take(leaf as int)
                            + blocks_view(old(blocks)@)[block as int].children.skip(leaf + 1),
                    )),
                )
                &&& crate::doc_node::chars_removed(
                    blocks_chars(blocks_view(old(blocks)@)),
                    blocks_chars(blocks_view(final(blocks)@)),
                    crate::cursor::leaf_start_offset(
                        blocks_view(old(blocks)@),
                        block as int,
                        leaf as int,
                    ),
                    blocks_view(old(blocks)@)[block as int].children[leaf as int].text.len()
                        as int,
                )
            },
            NodeAddr::Block { block } => {
                &&& blocks_view(final(blocks)@) == blocks_view(old(blocks)@).take(block as int)
                    + blocks_view(old(blocks)@).skip(block + 1)
                &&& crate::doc_node::chars_removed(
                    blocks_chars(blocks_view(old(blocks)@)),
                    blocks_chars(blocks_view(final(blocks)@)),
                    crate::cursor::block_start_offset(blocks_view(old(blocks)@), block as int),
                    1,
                )
            },
        }),
{
    let ghost bs0 = blocks_view(old(blocks)@);
    match addr {
        NodeAddr::Leaf { block, leaf } => {
            let ghost ch0 = bs0[block as int].children;
            let ghost lf0 = ch0[leaf as int];
            blocks[block].children.remove(leaf);
            proof {
                let bs1 = blocks_view(blocks@);
                let ch1 = bs1[block as int].children;
                assert(ch1 =~= ch0.take(leaf as int) + ch0.skip(leaf + 1));
                assert(blocks_view(blocks@) =~= bs0.update(
                    block as int,
                    with_children(bs0[block as int], ch1),
                ));
                assert forall|i: int| 0 <= i < blocks@.len() implies (
                #[trigger] blocks@[i]).wf() by {
                    if i != block {
                        assert(blocks@[i] == old(blocks)@[i]);
                    }
                }
                lemma_chars_update_block(bs0, block as int, bs1[block as int]);
                crate::doc_node::lemma_chars_update_leaf(ch0, leaf as int, Seq::empty());
                crate::doc_node::lemma_leaves_chars_concat(
                    ch0.take(leaf as int),
                    ch0.skip(leaf + 1),
                );
                let pre = blocks_chars(bs0.take(block as int)) + leaves_chars(
                    ch0.take(leaf as int),
                );
                let mid = leaf_chars(lf0);
                let post = leaves_chars(ch0.skip(leaf + 1)) + seq![
                    crate::doc_node::attr_char('\n', bs0[block as int].attrs),
                ] + blocks_chars(bs0.skip(block + 1));
                assert(blocks_chars(bs0) =~= pre + mid + post);
                assert(blocks_chars(bs1) =~= pre + post);
                crate::doc_node::lemma_chars_removed_parts(pre, mid, post);
                assert(pre.len() == crate::cursor::leaf_start_offset(
                    bs0,
                    block as int,
                    leaf as int,
                ));
            }
        },
        NodeAddr::Block { block } => {
            blocks.remove(block);
            proof {
                let bs1 = blocks_view(blocks@);
                assert(bs1 =~= bs0.take(block as int) + bs0.skip(block + 1));
                assert forall|i: int| 0 <= i < blocks@.len() implies (
                #[trigger] blocks@[i]).wf() by {
                    if i < block {
                        assert(blocks@[i] == old(blocks)@[i]);
                    } else {
                        assert(blocks@[i] == old(blocks)@[i + 1]);
                    }
                }
                crate::doc_node::lemma_blocks_chars_concat(
                    bs0.take(block as int),
                    bs0.skip(block + 1),
                );
                lemma_chars_update_block(bs0, block as int, bs0[block as int]);
                let pre = blocks_chars(bs0.take(block as int));
                let mid = crate::doc_node::block_chars(bs0[block as int]);
                let post = blocks_chars(bs0.skip(block + 1));
                assert(bs0.update(block as int, bs0[block as int]) =~= bs0);
                assert(blocks_chars(bs0) == pre + mid + post);
                assert(mid =~= seq![crate::doc_node::attr_char('\n', bs0[block as int].attrs)]);
                crate::doc_node::lemma_chars_removed_parts(pre, mid, post);
            }
        },
    }
}

/// Splits the block at `b` into two sibling blocks of identical format and
/// attributes at the boundary just before child `child_l`; the children from
/// `child_l` onward move to the new right-hand sibling.  The document gains
/// one line terminator, carrying the block's attributes, at the boundary.
#[verifier::spinoff_prover]
#[verifier::rlimit(100)]
pub fn split_block_before_child(blocks: &mut Vec<BlockNode>, b: usize, child_l: usize)
    requires
        doc_blocks_wf(old(blocks)@),
        b < old(blocks)@.len(),
        child_l <= blocks_view(old(blocks)@)[b as int].children.len(),
        blocks_chars(blocks_view(old(blocks)@)).len() + 1 <= usize::MAX,
    ensures
        doc_blocks_wf(final(blocks)@),
        blocks_view(final(blocks)@) == blocks_view(old(blocks)@).update(
            b as int,
            (with_children(
                blocks_view(old(blocks)@)[b as int],
                blocks_view(old(blocks)@)[b as int].children.take(child_l as int),
            )),
        ).insert(
            b + 1,
            (BlockV {
                fmt: blocks_view(old(blocks)@)[b as int].fmt,
                attrs: blocks_view(old(blocks)@)[b as int].attrs,
                children: blocks_view(old(blocks)@)[b as int].children.skip(child_l as int),
                placeholder: false,
            }),
        ),
        crate::doc_node::chars_inserted(
            blocks_chars(blocks_view(old(blocks)@)),
            blocks_chars(blocks_view(final(blocks)@)),
            crate::cursor::leaf_start_offset(blocks_view(old(blocks)@), b as int, child_l as int),
            seq![crate::doc_node::attr_char('\n', blocks_view(old(blocks)@)[b as int].attrs)],
        ),
{
    let ghost bs0 = blocks_view(old(blocks)@);
    let ghost ch0 = bs0[b as int].children;
    let n = blocks.len();
    let right_children = blocks[b].children.split_off(child_l);
    let right_block = BlockNode {
        formatter: blocks[b].formatter.clone(),
        op: blocks[b].op.clone(),
        children: right_children,
        placeholder: false,
    };
    blocks.insert(b + 1, right_block);
    proof {
        let bs1 = blocks_view(blocks@);
        let leftv = with_children(bs0[b as int], ch0.take(child_l as int));
        let rightv = BlockV {
            fmt: bs0[b as int].fmt,
            attrs: bs0[b as int].attrs,
            children: ch0.skip(child_l as int),
            placeholder: false,
        };
        assert(bs1 =~~= bs0.update(b as int, leftv).insert(b + 1, rightv));
        assert forall|i: int| 0 <= i < blocks@.len() implies (#[trigger] blocks@[i]).wf() by {
            if i < b {
                assert(blocks@[i] == old(blocks)@[i]);
            } else if i > b + 1 {
                assert(blocks@[i] == old(blocks)@[i - 1]);
            } else {
                assert(old(blocks)@[b as int].wf());
                assert forall|j: int|
                    0 <= j < blocks@[i].children@.len() implies (
                #[trigger] blocks@[i].children@[j]).wf() by {
                    if i == b {
                        assert(blocks@[i].children@[j] == old(blocks)@[b as int].children@[j]);
                    } else {
                        assert(blocks@[i].children@[j] == old(blocks)@[b as int].children@[j
                            + child_l]);
                    }
                }
            }
        }
        assert(bs1 =~~= bs0.take(b as int) + seq![leftv, rightv] + bs0.skip(b + 1));
        crate::doc_node::lemma_blocks_chars_concat(
            bs0.take(b as int) + seq![leftv, rightv],
            bs0.skip(b + 1),
        );
        crate::doc_node::lemma_blocks_chars_concat(bs0.take(b as int), seq![leftv, rightv]);
        crate::doc_node::lemma_blocks_chars_singleton(rightv);
        assert(seq![leftv, rightv].drop_first() =~= seq![rightv]);
        assert(blocks_chars(seq![leftv, rightv]) == crate::doc_node::block_chars(leftv)
            + crate::doc_node::block_chars(rightv));
        lemma_chars_update_block(bs0, b as int, bs0[b as int]);
        assert(bs0.update(b as int, bs0[b as int]) =~= bs0);
        assert(ch0 =~= ch0.take(child_l as int) + ch0.skip(child_l as int));
        crate::doc_node::lemma_leaves_chars_concat(
            ch0.take(child_l as int),
            ch0.skip(child_l as int),
        );
        let nl = seq![crate::doc_node::attr_char('\n', bs0[b as int].attrs)];
        let pre = blocks_chars(bs0.take(b as int)) + leaves_chars(ch0.take(child_l as int));
        let post = leaves_chars(ch0.skip(child_l as int)) + nl + blocks_chars(bs0.skip(b + 1));
        assert(blocks_chars(bs0) =~= pre + post);
        assert(blocks_chars(bs1) =~= pre + nl + post);
        crate::doc_node::lemma_chars_inserted_parts(pre, nl, post);
        assert(pre.len() == crate::cursor::leaf_start_offset(bs0, b as int, child_l as int));
    }
}

/// Merges the block at `b + 1` into the block at `b`: all of the right
/// block's children move onto the end of the left one, which keeps its own
/// format and attributes, and the right block is unlinked.
pub fn merge_block_node(blocks: &mut Vec<BlockNode>, b: usize)
    requires
        doc_blocks_wf(old(blocks)@),
        b + 1 < old(blocks)@.len(),
    ensures
        doc_blocks_wf(final(blocks)@),
        blocks_view(final(blocks)@) == blocks_view(old(blocks)@).update(
            b as int,
            (with_children(
                blocks_view(old(blocks)@)[b as int],
                blocks_view(old(blocks)@)[b as int].children + blocks_view(old(blocks)@)[b
                    + 1].children,
            )),
        ).remove(b + 1),
{
    let ghost bs0 = blocks_view(old(blocks)@);
    let n = blocks.len();
    let mut right_children = blocks[b + 1].children.split_off(0);
    blocks[b].children.append(&mut right_children);
    blocks.remove(b + 1);
    proof {
        let bs1 = blocks_view(blocks@);
        assert(bs0[b as int].children.take(bs0[b as int].children.len() as int) =~= bs0[
            b as int
        ].children);
        assert(bs0[b + 1].children.skip(0) =~= bs0[b + 1].children);
        assert(bs1 =~~= bs0.update(
            b as int,
            with_children(bs0[b as int], bs0[b as int].children + bs0[b + 1].children),
        ).remove(b + 1));
        assert forall|i: int| 0 <= i < blocks@.len() implies (#[trigger] blocks@[i]).wf() by {
            if i < b {
                assert(blocks@[i] == old(blocks)@[i]);
            } else if i > b {
                assert(blocks@[i] == old(blocks)@[i + 1]);
            } else {
                assert forall|j: int|
                    0 <= j < blocks@[i].children@.len() implies (
                #[trigger] blocks@[i].children@[j]).wf() by {
                    if j < old(blocks)@[b as int].children@.len() {
                        assert(blocks@[i].children@[j] == old(blocks)@[b as int].children@[j]);
                    } else {
                        assert(blocks@[i].children@[j] == old(blocks)@[b + 1].children@[j - old(
                            blocks,
                        )@[b as int].children@.len()]);
                    }
                }
            }
        }
    }
}

/// Where the merge pivot stands relative to the cursor.
enum MergeSpot {
    SpotBefore,
    SpotAfter,
    SpotAt,
}

/// The pivot leaf a three-way merge works around: the node before the
/// cursor, or the addressed node itself.
pub open spec fn pivot_of(loc: CursorLocation) -> int {
    match loc {
        CursorLocation::Before(NodeAddr::Leaf { leaf, .. }) => if leaf > 0 {
            leaf - 1
        } else {
            0
        },
        CursorLocation::After(NodeAddr::Leaf { leaf, .. }) => leaf as int,
        CursorLocation::At(NodeAddr::Leaf { leaf, .. }, _) => leaf as int,
        _ => 0,
    }
}

/// The cursor's location addresses a leaf.
pub open spec fn loc_is_leafy(loc: CursorLocation) -> bool {
    match loc {
        CursorLocation::Before(a) => a is Leaf,
        CursorLocation::After(a) => a is Leaf,
        CursorLocation::At(a, _) => a is Leaf,
        CursorLocation::Unset => false,
    }
}

/// The block a leafy location addresses.
pub open spec fn loc_block(loc: CursorLocation) -> int {
    match loc {
        CursorLocation::Before(NodeAddr::Leaf { block, .. }) => block as int,
        CursorLocation::After(NodeAddr::Leaf { block, .. }) => block as int,
        CursorLocation::At(NodeAddr::Leaf { block, .. }, _) => block as int,
        _ => 0,
    }
}

/// Merges the leaves adjacent to the cursor whose attributes match: first the
/// pivot with its right sibling, then the left sibling with the pivot.  When
/// nothing qualifies this is a no-op, not an error.  The document's character
/// stream is unchanged, the cursor keeps its absolute offset, and -- as every
/// leaf pair away from the pivot already differed -- the block leaves in
/// canonical form.
#[verifier::spinoff_prover]
#[verifier::rlimit(100)]
pub fn try_3_way_merge_text(blocks: &mut Vec<BlockNode>, cursor: &mut Cursor)
    requires
        doc_blocks_wf(old(blocks)@),
        loc_is_leafy(old(cursor).start),
        crate::cursor::loc_valid(blocks_view(old(blocks)@), old(cursor).start),
        canonical_except(
            blocks_view(old(blocks)@)[loc_block(old(cursor).start)].children,
            pivot_of(old(cursor).start),
        ),
    ensures
        doc_blocks_wf(final(blocks)@),
        final(blocks)@.len() == old(blocks)@.len(),
        forall|i: int|
            0 <= i < old(blocks)@.len() && i != loc_block(old(cursor).start)
                ==> blocks_view(final(blocks)@)[i] == blocks_view(old(blocks)@)[i],
        blocks_view(final(blocks)@)[loc_block(old(cursor).start)].fmt == blocks_view(
            old(blocks)@,
        )[loc_block(old(cursor).start)].fmt,
        blocks_view(final(blocks)@)[loc_block(old(cursor).start)].attrs == blocks_view(
            old(blocks)@,
        )[loc_block(old(cursor).start)].attrs,
        blocks_view(final(blocks)@)[loc_block(old(cursor).start)].placeholder == blocks_view(
            old(blocks)@,
        )[loc_block(old(cursor).start)].placeholder,
        blocks_view(final(blocks)@)[loc_block(old(cursor).start)].children.len() >= 1,
        forall|j: int|
            0 <= j < blocks_view(final(blocks)@)[loc_block(old(cursor).start)].children.len() - 1
                ==> (#[trigger] blocks_view(final(blocks)@)[loc_block(
                old(cursor).start,
            )].children[j]).attrs != blocks_view(final(blocks)@)[loc_block(
                old(cursor).start,
            )].children[j + 1].attrs,
        blocks_chars(blocks_view(final(blocks)@)) == blocks_chars(blocks_view(old(blocks)@)),
        final(cursor).stop == old(cursor).stop,
        final(cursor).retain == old(cursor).retain,
        loc_is_leafy(final(cursor).start),
        loc_block(final(cursor).start) == loc_block(old(cursor).start),
        crate::cursor::loc_valid(blocks_view(final(blocks)@), final(cursor).start),
        crate::cursor::loc_offset(blocks_view(final(blocks)@), final(cursor).start)
            == crate::cursor::loc_offset(blocks_view(old(blocks)@), old(cursor).start),
{
    let ghost bs0 = blocks_view(old(blocks)@);
    let ghost ch0 = bs0[loc_block(old(cursor).start)].children;
    let loc = cursor.get_location();
    let (b, pivot, spot, position): (usize, usize, MergeSpot, usize) = match loc {
        CursorLocation::Before(NodeAddr::Leaf { block, leaf }) => {
            if leaf > 0 {
                let p = blocks[block].children[leaf - 1].op_len();
                (block, leaf - 1, MergeSpot::SpotAfter, p)
            } else {
                (block, leaf, MergeSpot::SpotBefore, 0)
            }
        },
        CursorLocation::After(NodeAddr::Leaf { block, leaf }) => {
            let p = blocks[block].children[leaf].op_len();
            (block, leaf, MergeSpot::SpotAfter, p)
        },
        CursorLocation::At(NodeAddr::Leaf { block, leaf }, idx) => (
            block,
            leaf,
            MergeSpot::SpotAt,
            idx,
        ),
        _ => {
            proof {
                assert(false);
            }
            (0, 0, MergeSpot::SpotAt, 0)
        },
    };
    let ghost j = pivot as int;
    let ghost r_eq = j + 1 < ch0.len() && ch0[j].attrs == ch0[j + 1].attrs;
    let ghost l_eq = j > 0 && ch0[j - 1].attrs == ch0[j].attrs;
    proof {
        // Facts about the resolved pivot and position.
        assert(b == loc_block(old(cursor).start));
        assert(j == pivot_of(old(cursor).start));
        assert(0 <= j < ch0.len());
        assert(match spot {
            MergeSpot::SpotBefore => position == 0 && j == 0,
            MergeSpot::SpotAfter => position == ch0[j].text.len(),
            MergeSpot::SpotAt => 0 < position < ch0[j].text.len(),
        });
        assert(crate::cursor::loc_offset(bs0, old(cursor).start)
            == crate::cursor::leaf_start_offset(bs0, b as int, j) + position) by {
            if old(cursor).start matches CursorLocation::Before(NodeAddr::Leaf { block, leaf })
                && leaf > 0 {
                crate::doc_node::lemma_leaves_take_snoc(ch0, j);
            }
        }
    }
    // Merge the pivot with its right sibling first: merging never destroys
    // the left-hand node.
    let count = blocks[b].children.len();
    let mut spot = spot;
    if pivot + 1 < count {
        let eq = {
            let left = &blocks[b].children[pivot];
            let right = &blocks[b].children[pivot + 1];
            proof {
                assert((#[trigger] blocks@[b as int]).wf());
                assert((#[trigger] blocks@[b as int].children@[j]).wf());
                assert((#[trigger] blocks@[b as int].children@[j + 1]).wf());
            }
            left.op.get_attributes().is_equal(right.op.get_attributes())
        };
        if eq {
            merge_text_node(blocks, b, pivot);
            match spot {
                MergeSpot::SpotBefore => {
                    cursor.set_before_no_retain_update(NodeAddr::Leaf { block: b, leaf: pivot });
                },
                _ => {
                    spot = MergeSpot::SpotAt;
                    cursor.set_at_no_retain_update(
                        NodeAddr::Leaf { block: b, leaf: pivot },
                        position,
                    );
                },
            }
        }
    }
    let ghost bs_mid = blocks_view(blocks@);
    let ghost ch_mid = bs_mid[b as int].children;
    proof {
        if r_eq {
            assert(ch_mid == merge_leaf_children(ch0, j));
            assert(ch_mid.len() == ch0.len() - 1);
            assert(ch_mid[j].text =~= ch0[j].text + ch0[j + 1].text);
            assert(ch_mid[j].attrs == ch0[j].attrs);
        } else {
            assert(ch_mid == ch0);
        }
        assert(ch_mid.take(j) =~= ch0.take(j));
        assert(forall|i: int| 0 <= i < j ==> #[trigger] ch_mid[i] == ch0[i]);
        assert(j < ch_mid.len());
        assert(bs_mid.len() == bs0.len());
        assert(forall|i: int| 0 <= i < bs0.len() && i != b ==> #[trigger] bs_mid[i] == bs0[i]);
        assert(match spot {
            MergeSpot::SpotBefore => j == 0 && cursor.start == CursorLocation::Before(
                NodeAddr::Leaf { block: b, leaf: pivot },
            ),
            MergeSpot::SpotAfter => !r_eq && position == ch_mid[j].text.len() && cursor.start
                == old(cursor).start,
            MergeSpot::SpotAt => 0 < position < ch_mid[j].text.len() + 1 && (r_eq ==> cursor.start
                == CursorLocation::At(NodeAddr::Leaf { block: b, leaf: pivot }, position)) && (
            !r_eq ==> cursor.start == old(cursor).start),
        });
    }
    // Then merge the left sibling with the pivot.
    if pivot > 0 {
        let eq = {
            proof {
                assert((#[trigger] blocks@[b as int]).wf());
                assert((#[trigger] blocks@[b as int].children@[j - 1]).wf());
                assert((#[trigger] blocks@[b as int].children@[j]).wf());
            }
            let left = &blocks[b].children[pivot - 1];
            let right = &blocks[b].children[pivot];
            left.op.get_attributes().is_equal(right.op.get_attributes())
        };
        if eq {
            proof {
                assert(ch_mid[j - 1].attrs == ch_mid[j].attrs);
                assert(ch_mid[j - 1] == ch0[j - 1]);
                assert(l_eq);
            }
            let prev_len = blocks[b].children[pivot - 1].op_len();
            merge_text_node(blocks, b, pivot - 1);
            proof {
                assert(blocks_view(blocks@)[b as int].children == merge_leaf_children(
                    ch_mid,
                    j - 1,
                ));
                assert(blocks_view(blocks@)[b as int].children[j - 1].text =~= ch_mid[j
                    - 1].text + ch_mid[j].text);
            }
            match spot {
                MergeSpot::SpotBefore => {
                    proof {
                        assert(false);
                    }
                },
                MergeSpot::SpotAfter => {
                    cursor.set_after_no_retain_update(
                        NodeAddr::Leaf { block: b, leaf: pivot - 1 },
                    );
                },
                MergeSpot::SpotAt => {
                    proof {
                        assert((#[trigger] blocks@[b as int]).wf());
                        assert(j - 1 < blocks_view(blocks@)[b as int].children.len());
                        assert((#[trigger] blocks@[b as int].children@[j - 1]).wf());
                    }
                    let ml = blocks[b].children[pivot - 1].op_len();
                    proof {
                        assert(prev_len + position <= ml);
                    }
                    cursor.set_at_no_retain_update(
                        NodeAddr::Leaf { block: b, leaf: pivot - 1 },
                        prev_len + position,
                    );
                },
            }
        } else {
            proof {
                assert(ch_mid[j - 1].attrs == blocks@[b as int].children@[j - 1]@.attrs);
                assert(ch_mid[j].attrs == blocks@[b as int].children@[j]@.attrs);
                assert(ch_mid[j - 1].attrs != ch_mid[j].attrs);
                assert(ch0[j].attrs == ch_mid[j].attrs);
                assert(!l_eq);
            }
        }
    }
    proof {
        let bs2 = blocks_view(blocks@);
        let ch2 = bs2[b as int].children;
        // The resulting children, by which merges fired.
        if l_eq {
            assert(ch2 == merge_leaf_children(ch_mid, j - 1));
            assert(ch2.len() == ch_mid.len() - 1);
            assert(ch2.take(j - 1) =~= ch_mid.take(j - 1));
            assert(ch2[j - 1].text =~= ch_mid[j - 1].text + ch_mid[j].text);
            assert(ch2[j - 1].attrs == ch0[j - 1].attrs);
        } else {
            assert(ch2 == ch_mid);
        }
        // Canonical form: walk the pairs of the result.
        assert forall|i: int| 0 <= i < ch2.len() - 1 implies (#[trigger] ch2[i]).attrs != ch2[i
            + 1].attrs by {
            lemma_pairs_after_merges(ch0, ch_mid, ch2, j, r_eq, l_eq, i);
        }
        // The characters are unchanged and the cursor kept its offset.
        assert(blocks_chars(bs2) == blocks_chars(bs0));
        assert(bs2.take(b as int) =~= bs0.take(b as int));
        assert(blocks_chars(bs2.take(b as int)) == blocks_chars(bs0.take(b as int)));
        let p0 = crate::cursor::leaf_start_offset(bs0, b as int, j) + position;
        if l_eq {
            crate::doc_node::lemma_leaves_take_snoc(ch0, j - 1);
            assert(ch2.take(j - 1) =~= ch0.take(j - 1));
            match spot {
                MergeSpot::SpotAfter => {
                    assert(cursor.start == CursorLocation::After(
                        NodeAddr::Leaf { block: b, leaf: (pivot - 1) as usize },
                    ));
                    assert(ch2[j - 1].text.len() == ch0[j - 1].text.len() + position);
                    assert(crate::cursor::loc_offset(bs2, cursor.start) == p0);
                },
                _ => {
                    assert(crate::cursor::loc_offset(bs2, cursor.start) == p0);
                },
            }
        } else {
            assert(ch2.take(j) =~= ch0.take(j));
            assert(crate::cursor::loc_offset(bs2, cursor.start) == p0);
        }
        assert(crate::cursor::loc_offset(bs2, cursor.start) == p0);
        assert(crate::cursor::loc_valid(bs2, cursor.start));
    }
}

/// One adjacent pair of the merged children differs in attributes: pairs away
/// from the pivot differed before, and pairs the merges created sit next to a
/// neighbour the merges were seen not to absorb.
proof fn lemma_pairs_after_merges(
    ch0: Seq<LeafV>,
    ch_mid: Seq<LeafV>,
    ch2: Seq<LeafV>,
    j: int,
    r_eq: bool,
    l_eq: bool,
    i: int,
)
    requires
        0 <= j < ch0.len(),
        canonical_except(ch0, j),
        r_eq == (j + 1 < ch0.len() && ch0[j].attrs == ch0[j + 1].attrs),
        l_eq == (j > 0 && ch0[j - 1].attrs == ch0[j].attrs),
        ch_mid == if r_eq {
            merge_leaf_children(ch0, j)
        } else {
            ch0
        },
        ch2 == if l_eq {
            merge_leaf_children(ch_mid, j - 1)
        } else {
            ch_mid
        },
        0 <= i < ch2.len() - 1,
    ensures
        ch2[i].attrs != ch2[i + 1].attrs,
{
    // Positions of the result map back to ch0: indices below the merge
    // points are unchanged, later ones shift by the number of merges.
    let shift_l: int = if l_eq {
        1
    } else {
        0
    };
    let shift_r: int = if r_eq {
        1
    } else {
        0
    };
    let jj = j - shift_l;
    assert(forall|t: int| 0 <= t < j ==> #[trigger] ch_mid[t] == ch0[t]);
    if r_eq {
        assert(ch_mid.len() == ch0.len() - 1);
        assert(forall|t: int| j < t < ch_mid.len() ==> #[trigger] ch_mid[t] == ch0[t + 1]);
        assert(ch_mid[j].attrs == ch0[j].attrs);
    }
    if l_eq {
        assert(forall|t: int| 0 <= t < j - 1 ==> #[trigger] ch2[t] == ch_mid[t]);
        assert(forall|t: int| j - 1 < t < ch2.len() ==> #[trigger] ch2[t] == ch_mid[t + 1]);
        assert(ch2[j - 1].attrs == ch_mid[j - 1].attrs);
    }
    if i < jj - 1 {
        assert(ch2[i] == ch0[i] && ch2[i + 1] == ch0[i + 1]);
    } else if i == jj - 1 {
        // The left neighbour of the merged pivot: either the left merge
        // fired and the pivot absorbed its old left sibling, which differed
        // from its own left neighbour, or it did not fire because the pair
        // differed.
        if l_eq {
            assert(i == j - 2);
            assert(ch2[i] == ch0[i]);
            assert(ch2[i + 1].attrs == ch0[j - 1].attrs);
            assert(ch0[j - 2].attrs != ch0[j - 1].attrs);
        } else {
            assert(i == j - 1);
            assert(ch2[i] == ch0[i]);
            assert(ch2[i + 1].attrs == ch0[j].attrs);
            assert(ch0[j - 1].attrs != ch0[j].attrs);
        }
    } else if i == jj {
        // The merged pivot and its right neighbour: the right merge either
        // absorbed the old right neighbour (the next one differed from it),
        // or did not fire.
        assert(ch2[i].attrs == ch0[j].attrs);
        if r_eq {
            assert(ch2[i + 1] == ch0[j + 2]);
            assert(ch0[j + 1].attrs != ch0[j + 2].attrs);
            assert(ch0[j].attrs == ch0[j + 1].attrs);
        } else {
            assert(ch2[i + 1] == ch0[j + 1]);
            assert(ch0[j].attrs != ch0[j + 1].attrs);
        }
    } else {
        assert(ch2[i] == ch0[i + shift_l + shift_r]);
        assert(ch2[i + 1] == ch0[i + 1 + shift_l + shift_r]);
        let i0 = i + shift_l + shift_r;
        assert(i0 > j);
        assert(ch0[i0].attrs != ch0[i0 + 1].attrs);
    }
}

/// Creates a leaf from an insert operation and links it as child `l` of the
/// block at `b`.  The document's character stream gains the operation's
/// characters, carrying its attributes, at that spot.
#[verifier::spinoff_prover]
#[verifier::rlimit(100)]
pub fn insert_leaf_node(blocks: &mut Vec<BlockNode>, b: usize, l: usize, delta: DeltaOperation)
    requires
        doc_blocks_wf(old(blocks)@),
        b < old(blocks)@.len(),
        l <= blocks_view(old(blocks)@)[b as int].children.len(),
        delta.wf(),
        delta.is_text_insert(),
        delta.text().len() >= 1,
        forall|i: int| 0 <= i < delta.text().len() ==> delta.text()[i] != '\n',
    ensures
        doc_blocks_wf(final(blocks)@),
        blocks_view(final(blocks)@) == blocks_view(old(blocks)@).update(
            b as int,
            (with_children(
                blocks_view(old(blocks)@)[b as int],
                blocks_view(old(blocks)@)[b as int].children.insert(
                    l as int,
                    leaf_v(delta.text(), delta.attrs()),
                ),
            )),
        ),
        crate::doc_node::chars_inserted(
            blocks_chars(blocks_view(old(blocks)@)),
            blocks_chars(blocks_view(final(blocks)@)),
            crate::cursor::leaf_start_offset(blocks_view(old(blocks)@), b as int, l as int),
            leaf_chars(leaf_v(delta.text(), delta.attrs())),
        ),
{
    let ghost bs0 = blocks_view(old(blocks)@);
    let ghost ch0 = bs0[b as int].children;
    let leaf = LeafNode { formatter: Formatter::Text(TextFormat::new()), op: delta };
    let n = blocks[b].children.len();
    blocks[b].children.insert(l, leaf);
    proof {
        let bs1 = blocks_view(blocks@);
        let ch1 = bs1[b as int].children;
        let nl = leaf_v(leaf.op.text(), leaf.op.attrs());
        assert(ch1 =~= ch0.insert(l as int, nl));
        assert(blocks_view(blocks@) =~= bs0.update(b as int, with_children(bs0[b as int], ch1)));
        assert forall|i: int| 0 <= i < blocks@.len() implies (#[trigger] blocks@[i]).wf() by {
            if i != b {
                assert(blocks@[i] == old(blocks)@[i]);
            }
        }
        lemma_chars_update_block(bs0, b as int, bs1[b as int]);
        assert(ch0 =~= ch0.take(l as int) + ch0.skip(l as int));
        assert(ch1 =~= ch0.take(l as int) + seq![nl] + ch0.skip(l as int));
        crate::doc_node::lemma_leaves_chars_concat(ch0.take(l as int), ch0.skip(l as int));
        crate::doc_node::lemma_leaves_chars_concat(
            ch0.take(l as int) + seq![nl],
            ch0.skip(l as int),
        );
        crate::doc_node::lemma_leaves_chars_concat(ch0.take(l as int), seq![nl]);
        crate::doc_node::lemma_leaves_chars_singleton(nl);
        let pre = blocks_chars(bs0.take(b as int)) + leaves_chars(ch0.take(l as int));
        let mid = leaf_chars(nl);
        let post = leaves_chars(ch0.skip(l as int)) + seq![
            crate::doc_node::attr_char('\n', bs0[b as int].attrs),
        ] + blocks_chars(bs0.skip(b + 1));
        assert(blocks_chars(bs0) =~= pre + post);
        assert(blocks_chars(bs1) =~= pre + mid + post);
        crate::doc_node::lemma_chars_inserted_parts(pre, mid, post);
        assert(pre.len() == crate::cursor::leaf_start_offset(bs0, b as int, l as int));
    }
}

/// Creates an empty block of the given format, carrying the operation's
/// attributes, and links it at index `b`, shifting the blocks from `b`
/// onward.  The document's character stream gains one line terminator with
/// those attributes at the block boundary.  A header format whose level
/// attribute is not a number is a reported error, before anything is
/// mutated.
#[verifier::spinoff_prover]
#[verifier::rlimit(100)]
pub fn insert_block_node(
    blocks: &mut Vec<BlockNode>,
    b: usize,
    delta: DeltaOperation,
    format: Formatter,
) -> (r: Result<(), Error>)
    requires
        doc_blocks_wf(old(blocks)@),
        b <= old(blocks)@.len(),
        delta.wf(),
        crate::formatter::spec_is_newline(&delta),
        crate::formatter::fmt_is_block(format@),
        format@ is Header ==> delta.attrs().contains_key(
            crate::format_const::HEADER_ATTR_KEY@,
        ),
    ensures
        doc_blocks_wf(final(blocks)@),
        (match r {
            Ok(_) => {
                &&& blocks_view(final(blocks)@) == blocks_view(old(blocks)@).insert(
                    b as int,
                    (BlockV {
                        fmt: format@,
                        attrs: delta.attrs(),
                        children: Seq::empty(),
                        placeholder: false,
                    }),
                )
                &&& crate::doc_node::chars_inserted(
                    blocks_chars(blocks_view(old(blocks)@)),
                    blocks_chars(blocks_view(final(blocks)@)),
                    crate::cursor::block_start_offset(blocks_view(old(blocks)@), b as int),
                    seq![crate::doc_node::attr_char('\n', delta.attrs())],
                )
            },
            Err(_) => final(blocks)@ == old(blocks)@ && format@ is Header && !(delta.attrs()[
                crate::format_const::HEADER_ATTR_KEY@
            ] is Number),
        }),
{
    if matches!(format, Formatter::Header(_)) {
        let level_ok = match delta.get_attributes().get(crate::format_const::HEADER_ATTR_KEY) {
            Some(v) => matches!(v, crate::attr_val::AttrVal::Number(_)),
            None => false,
        };
        if !level_ok {
            return Err(Error::WrongFormatKind);
        }
    }
    let ghost bs0 = blocks_view(old(blocks)@);
    let node = BlockNode { formatter: format, op: delta, children: Vec::new(), placeholder: false };
    let n = blocks.len();
    blocks.insert(b, node);
    proof {
        let bs1 = blocks_view(blocks@);
        let newv = BlockV {
            fmt: node.formatter@,
            attrs: node.op.attrs(),
            children: Seq::empty(),
            placeholder: false,
        };
        assert(newv.children =~= Seq::<LeafV>::empty());
        assert(bs1 =~~= bs0.insert(b as int, newv));
        assert forall|i: int| 0 <= i < blocks@.len() implies (#[trigger] blocks@[i]).wf() by {
            if i < b {
                assert(blocks@[i] == old(blocks)@[i]);
            } else if i > b {
                assert(blocks@[i] == old(blocks)@[i - 1]);
            }
        }
        assert(bs1 =~~= bs0.take(b as int) + seq![newv] + bs0.skip(b as int));
        assert(bs0 =~= bs0.take(b as int) + bs0.skip(b as int));
        crate::doc_node::lemma_blocks_chars_concat(bs0.take(b as int), bs0.skip(b as int));
        crate::doc_node::lemma_blocks_chars_concat(
            bs0.take(b as int) + seq![newv],
            bs0.skip(b as int),
        );
        crate::doc_node::lemma_blocks_chars_concat(bs0.take(b as int), seq![newv]);
        crate::doc_node::lemma_blocks_chars_singleton(newv);
        let pre = blocks_chars(bs0.take(b as int));
        let mid = seq![crate::doc_node::attr_char('\n', delta.attrs())];
        assert(crate::doc_node::block_chars(newv) =~= mid);
        let post = blocks_chars(bs0.skip(b as int));
        assert(blocks_chars(bs0) == pre + post);
        assert(blocks_chars(bs1) =~= pre + mid + post);
        crate::doc_node::lemma_chars_inserted_parts(pre, mid, post);
    }
    Ok(())
}

/// Splits only the leaf node the cursor points into, leaving the cursor
/// before the right half; a cursor before, after, or at an empty block is
/// left alone, as there is nothing to split.  The character stream is
/// unchanged and the cursor keeps its absolute offset.
pub fn split_text_at_cursor(blocks: &mut Vec<BlockNode>, cursor: &mut Cursor)
    requires
        doc_blocks_wf(old(blocks)@),
        crate::cursor::loc_valid(blocks_view(old(blocks)@), old(cursor).start),
    ensures
        doc_blocks_wf(final(blocks)@),
        blocks_chars(blocks_view(final(blocks)@)) == blocks_chars(blocks_view(old(blocks)@)),
        final(cursor).stop == old(cursor).stop,
        final(cursor).retain == old(cursor).retain,
        crate::cursor::loc_valid(blocks_view(final(blocks)@), final(cursor).start),
        crate::cursor::loc_offset(blocks_view(final(blocks)@), final(cursor).start)
            == crate::cursor::loc_offset(blocks_view(old(blocks)@), old(cursor).start),
        !(final(cursor).start matches CursorLocation::At(NodeAddr::Leaf { .. }, _)),
        (match old(cursor).start {
            CursorLocation::At(NodeAddr::Leaf { block, leaf }, idx) => {
                &&& blocks_view(final(blocks)@) == blocks_view(old(blocks)@).update(
                    block as int,
                    (with_children(
                        blocks_view(old(blocks)@)[block as int],
                        split_leaf_children(
                            blocks_view(old(blocks)@)[block as int].children,
                            leaf as int,
                            idx as int,
                        ),
                    )),
                )
                &&& final(cursor).start == CursorLocation::Before(
                    NodeAddr::Leaf { block, leaf: (leaf + 1) as usize },
                )
            },
            _ => final(blocks)@ == old(blocks)@ && *final(cursor) == *old(cursor),
        }),
{
    let loc = cursor.get_location();
    match loc {
        CursorLocation::At(NodeAddr::Leaf { block, leaf }, idx) => {
            let ghost bs0 = blocks_view(old(blocks)@);
            let count = blocks[block].children.len();
            split_text_node(blocks, block, leaf, idx);
            cursor.set_before_no_retain_update(NodeAddr::Leaf { block, leaf: leaf + 1 });
            proof {
                let bs1 = blocks_view(blocks@);
                let ch0 = bs0[block as int].children;
                let ch1 = bs1[block as int].children;
                assert(ch1.take(leaf + 1) =~= ch0.take(leaf as int) + seq![
                    leaf_v(ch0[leaf as int].text.take(idx as int), ch0[leaf as int].attrs),
                ]);
                crate::doc_node::lemma_leaves_chars_concat(
                    ch0.take(leaf as int),
                    seq![leaf_v(ch0[leaf as int].text.take(idx as int), ch0[leaf as int].attrs)],
                );
                crate::doc_node::lemma_leaves_chars_singleton(
                    leaf_v(ch0[leaf as int].text.take(idx as int), ch0[leaf as int].attrs),
                );
                assert(bs1.take(block as int) =~= bs0.take(block as int));
            }
        },
        _ => {},
    }
}

/// Isolates a node from a shared grouping wrapper.  Grouping containers only
/// arise for the structural formats outside this engine's baseline, so here
/// every node already stands alone and this is a no-op, not an error.
pub fn isolate(blocks: &Vec<BlockNode>, addr: NodeAddr) -> (r: NodeAddr)
    ensures
        r == addr,
{
    let _ = blocks;
    addr
}

/// Deletes the line terminator of the non-empty block at `b`: all of its
/// children move to the front of the following block, which keeps its own
/// format and attributes, and the emptied block is unlinked.  This is how
/// deleting a line break merges two lines, taking the second line's
/// formatting.
#[verifier::spinoff_prover]
#[verifier::rlimit(100)]
pub fn merge_block_into_next(blocks: &mut Vec<BlockNode>, b: usize)
    requires
        doc_blocks_wf(old(blocks)@),
        b + 1 < old(blocks)@.len(),
    ensures
        doc_blocks_wf(final(blocks)@),
        blocks_view(final(blocks)@) == blocks_view(old(blocks)@).update(
            (b + 1) as int,
            (with_children(
                blocks_view(old(blocks)@)[b + 1],
                blocks_view(old(blocks)@)[b as int].children + blocks_view(old(blocks)@)[b
                    + 1].children,
            )),
        ).remove(b as int),
        crate::doc_node::chars_removed(
            blocks_chars(blocks_view(old(blocks)@)),
            blocks_chars(blocks_view(final(blocks)@)),
            crate::doc_node::block_nl_offset(blocks_view(old(blocks)@), b as int),
            1,
        ),
{
    let ghost bs0 = blocks_view(old(blocks)@);
    let n = blocks.len();
    let mut moved = blocks[b].children.split_off(0);
    let follow = blocks[b + 1].children.split_off(0);
    let mut rebuilt = moved;
    let mut tail = follow;
    rebuilt.append(&mut tail);
    let placeholder = blocks[b + 1].placeholder;
    let formatter = blocks[b + 1].formatter.clone();
    let op = blocks[b + 1].op.clone();
    blocks.set(b + 1, BlockNode { formatter, op, children: rebuilt, placeholder });
    blocks.remove(b);
    proof {
        let bs1 = blocks_view(blocks@);
        let merged = with_children(bs0[b + 1], bs0[b as int].children + bs0[b + 1].children);
        assert(bs0[b as int].children.skip(0) =~= bs0[b as int].children);
        assert(bs0[b + 1].children.skip(0) =~= bs0[b + 1].children);
        assert(bs1 =~~= bs0.update((b + 1) as int, merged).remove(b as int));
        assert forall|i: int| 0 <= i < blocks@.len() implies (#[trigger] blocks@[i]).wf() by {
            if i < b {
                assert(blocks@[i] == old(blocks)@[i]);
            } else if i > b {
                assert(blocks@[i] == old(blocks)@[i + 1]);
            } else {
                assert forall|j: int|
                    0 <= j < blocks@[i].children@.len() implies (
                #[trigger] blocks@[i].children@[j]).wf() by {
                    if j < old(blocks)@[b as int].children@.len() {
                        assert(blocks@[i].children@[j] == old(blocks)@[b as int].children@[j]);
                    } else {
                        assert(blocks@[i].children@[j] == old(blocks)@[b + 1].children@[j - old(
                            blocks,
                        )@[b as int].children@.len()]);
                    }
                }
            }
        }
        // The characters: only the deleted terminator disappears.
        assert(bs1 =~~= bs0.take(b as int) + seq![merged] + bs0.skip(b + 2));
        crate::doc_node::lemma_blocks_chars_concat(
            bs0.take(b as int) + seq![merged],
            bs0.skip(b + 2),
        );
        crate::doc_node::lemma_blocks_chars_concat(bs0.take(b as int), seq![merged]);
        crate::doc_node::lemma_blocks_chars_singleton(merged);
        crate::doc_node::lemma_leaves_chars_concat(
            bs0[b as int].children,
            bs0[b + 1].children,
        );
        lemma_chars_update_block(bs0, b as int, bs0[b as int]);
        assert(bs0.update(b as int, bs0[b as int]) =~= bs0);
        assert(bs0.skip(b + 1) =~= seq![bs0[b + 1]] + bs0.skip(b + 2));
        crate::doc_node::lemma_blocks_chars_concat(seq![bs0[b + 1]], bs0.skip(b + 2));
        crate::doc_node::lemma_blocks_chars_singleton(bs0[b + 1]);
        let pre = blocks_chars(bs0.take(b as int)) + leaves_chars(bs0[b as int].children);
        let mid = seq![crate::doc_node::attr_char('\n', bs0[b as int].attrs)];
        let post = leaves_chars(bs0[b + 1].children) + seq![
            crate::doc_node::attr_char('\n', bs0[b + 1].attrs),
        ] + blocks_chars(bs0.skip(b + 2));
        assert(blocks_chars(bs0) =~= pre + mid + post);
        assert(blocks_chars(bs1) =~= pre + post);
        crate::doc_node::lemma_chars_removed_parts(pre, mid, post);
        assert(pre.len() == crate::doc_node::block_nl_offset(bs0, b as int));
    }
}

/// Replaces the attributes of the leaf at `(b, l)` in one step; its text
/// stays.  In the character stream exactly the leaf's characters change
/// their attributes.
#[verifier::spinoff_prover]
#[verifier::rlimit(100)]
pub fn replace_leaf_attrs(
    blocks: &mut Vec<BlockNode>,
    b: usize,
    l: usize,
    attr: crate::attributes::Attributes,
)
    requires
        doc_blocks_wf(old(blocks)@),
        b < old(blocks)@.len(),
        l < blocks_view(old(blocks)@)[b as int].children.len(),
        attr.wf(),
    ensures
        doc_blocks_wf(final(blocks)@),
        blocks_view(final(blocks)@) == blocks_view(old(blocks)@).update(
            b as int,
            (with_children(
                blocks_view(old(blocks)@)[b as int],
                blocks_view(old(blocks)@)[b as int].children.update(
                    l as int,
                    (leaf_v(
                        blocks_view(old(blocks)@)[b as int].children[l as int].text,
                        attr@,
                    )),
                ),
            )),
        ),
        blocks_chars(blocks_view(final(blocks)@)).len() == blocks_chars(
            blocks_view(old(blocks)@),
        ).len(),
        forall|i: int|
            0 <= i < blocks_chars(blocks_view(old(blocks)@)).len()
                ==> #[trigger] blocks_chars(blocks_view(final(blocks)@))[i] == (if
            crate::cursor::leaf_start_offset(blocks_view(old(blocks)@), b as int, l as int) <= i
                < crate::cursor::leaf_start_offset(blocks_view(old(blocks)@), b as int, l as int)
                + blocks_view(old(blocks)@)[b as int].children[l as int].text.len() {
                crate::doc_node::attr_char(
                    blocks_chars(blocks_view(old(blocks)@))[i].c,
                    attr@,
                )
            } else {
                blocks_chars(blocks_view(old(blocks)@))[i]
            }),
{
    let ghost bs0 = blocks_view(old(blocks)@);
    let ghost ch0 = bs0[b as int].children;
    let ghost lf0 = ch0[l as int];
    let new_op = {
        let leaf = &blocks[b].children[l];
        let mut op = leaf.op.clone();
        op.set_attributes(attr);
        op
    };
    let new_leaf = LeafNode { formatter: Formatter::Text(TextFormat::new()), op: new_op };
    blocks[b].children.set(l, new_leaf);
    proof {
        let bs1 = blocks_view(blocks@);
        let ch1 = bs1[b as int].children;
        let nl = leaf_v(lf0.text, attr@);
        assert(ch1 =~= ch0.update(l as int, nl));
        assert(blocks_view(blocks@) =~= bs0.update(b as int, with_children(bs0[b as int], ch1)));
        assert forall|i: int| 0 <= i < blocks@.len() implies (#[trigger] blocks@[i]).wf() by {
            if i != b {
                assert(blocks@[i] == old(blocks)@[i]);
            } else {
                assert forall|j: int|
                    0 <= j < blocks@[i].children@.len() implies (
                #[trigger] blocks@[i].children@[j]).wf() by {
                    if j != l {
                        assert(blocks@[i].children@[j] == old(blocks)@[i].children@[j]);
                    }
                }
            }
        }
        lemma_chars_update_block(bs0, b as int, bs1[b as int]);
        assert(ch1 =~= ch0.take(l as int) + seq![nl] + ch0.skip(l + 1));
        crate::doc_node::lemma_chars_update_leaf(ch0, l as int, seq![nl]);
        crate::doc_node::lemma_leaves_chars_singleton(nl);
        let pre = blocks_chars(bs0.take(b as int)) + leaves_chars(ch0.take(l as int));
        let post = leaves_chars(ch0.skip(l + 1)) + seq![
            crate::doc_node::attr_char('\n', bs0[b as int].attrs),
        ] + blocks_chars(bs0.skip(b + 1));
        assert(leaf_chars(leaf_v(lf0.text, lf0.attrs)) =~= leaf_chars(lf0));
        assert(blocks_chars(bs0) =~= pre + leaf_chars(lf0) + post);
        assert(blocks_chars(bs1) =~= pre + leaf_chars(nl) + post);
        assert(pre.len() == crate::cursor::leaf_start_offset(bs0, b as int, l as int));
        assert(leaf_chars(nl).len() == leaf_chars(lf0).len());
        assert forall|i: int|
            0 <= i < blocks_chars(bs0).len() implies #[trigger] blocks_chars(bs1)[i] == (if
        pre.len() <= i < pre.len() + lf0.text.len() as int {
            crate::doc_node::attr_char(blocks_chars(bs0)[i].c, attr@)
        } else {
            blocks_chars(bs0)[i]
        }) by {
            if pre.len() <= i < pre.len() + lf0.text.len() {
                assert(blocks_chars(bs0)[i] == leaf_chars(lf0)[i - pre.len()]);
                assert(blocks_chars(bs1)[i] == leaf_chars(nl)[i - pre.len()]);
            } else if i < pre.len() {
                assert(blocks_chars(bs0)[i] == pre[i]);
                assert(blocks_chars(bs1)[i] == pre[i]);
            } else {
                assert(blocks_chars(bs0)[i] == post[i - pre.len() - lf0.text.len()]);
                assert(blocks_chars(bs1)[i] == post[i - pre.len() - lf0.text.len()]);
            }
        }
    }
}

/// Splitting a leaf and merging the two halves back is the identity: the
/// block's children return to the original content and attributes, for any
/// leaf and any interior split point.
pub proof fn lemma_split_merge_inverse(ch: Seq<LeafV>, l: int, k: int)
    requires
        0 <= l < ch.len(),
        0 < k < ch[l].text.len(),
    ensures
        merge_leaf_children(split_leaf_children(ch, l, k), l) == ch,
{
    let sp = split_leaf_children(ch, l, k);
    assert(sp[l] == leaf_v(ch[l].text.take(k), ch[l].attrs));
    assert(sp[l + 1] == leaf_v(ch[l].text.skip(k), ch[l].attrs));
    assert(ch[l].text.take(k) + ch[l].text.skip(k) =~= ch[l].text);
    assert(merge_leaf_children(sp, l) =~~= ch);
}

} // verus!
