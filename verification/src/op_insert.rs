//! The insert operation: one single-line insert applied at the cursor.
//!
//! Inserting happens before the cursor, which afterwards stands right after
//! the inserted content; in the document's attributed character stream
//! exactly the operation's characters appear at the cursor's old offset.

use crate::auto_soft_break::AutomaticSoftBreak;
use crate::block::{block_transform, un_block_transform};
use crate::cursor::{
    cursor_synced, leaf_start_offset, loc_offset, loc_valid, Cursor, CursorLocation, NodeAddr,
};
use crate::doc_node::{
    blocks_chars, blocks_view, chars_inserted, doc_blocks_wf, doc_canonical, doc_fits, leaf_chars,
    leaf_v, BlockNode, LeafV,
};
use crate::error::Error;
use crate::format_const::HEADER_ATTR_KEY;
use crate::formatter::Formatter;
use crate::node_morph::{
    canonical_except, insert_block_node, insert_leaf_node, split_block_before_child,
    split_leaf_children, split_text_at_cursor, try_3_way_merge_text,
};
use crate::operations::{spec_op_len, DeltaOperation};
use crate::registry::{first_match, Registry};
use vstd::prelude::*;

verus! {

/// The operation holds a single line: either one line terminator, or text
/// free of them.
pub open spec fn single_line(op: &DeltaOperation) -> bool {
    op.is_text_insert() && (op.text() == seq!['\n'] || forall|i: int|
        0 <= i < op.text().len() ==> op.text()[i] != '\n')
}

/// The text holds at least one line terminator.
pub open spec fn has_terminator(t: Seq<char>) -> bool {
    exists|i: int| 0 <= i < t.len() && t[i] == '\n'
}

/// The text holds at least one content character.
pub open spec fn has_content_run(t: Seq<char>) -> bool {
    exists|i: int| 0 <= i < t.len() && t[i] != '\n'
}

/// A single-line insert resolves through the registry: a lone line
/// terminator must be accepted by the block-format list, any other run of
/// text by the leaf-format list.
pub open spec fn line_accepted(
    blist: Seq<crate::formatter::FmtV>,
    llist: Seq<crate::formatter::FmtV>,
    op: &DeltaOperation,
) -> bool {
    if crate::formatter::spec_is_newline(op) {
        crate::registry::newline_accepted(blist, op.attrs())
    } else {
        op.is_text_insert() && crate::registry::text_run_accepted(llist, op.attrs())
    }
}

/// An insert operation, of any number of lines, resolves through the
/// registry: its content runs must be accepted by the leaf-format list and
/// its line terminators by the block-format list.
pub open spec fn insert_stream_accepted(
    blist: Seq<crate::formatter::FmtV>,
    llist: Seq<crate::formatter::FmtV>,
    op: &DeltaOperation,
) -> bool {
    &&& op.is_text_insert()
    &&& (has_content_run(op.text()) ==> crate::registry::text_run_accepted(llist, op.attrs()))
    &&& (has_terminator(op.text()) ==> crate::registry::newline_accepted(blist, op.attrs()))
}

/// What the document is owed by an insert: the operation's characters,
/// carrying its attributes, stand at the cursor's old offset.
pub open spec fn inserted_op_chars(
    s0: Seq<crate::doc_node::AttrChar>,
    s1: Seq<crate::doc_node::AttrChar>,
    p: int,
    op: &DeltaOperation,
) -> bool {
    chars_inserted(s0, s1, p, leaf_chars(leaf_v(op.text(), op.attrs())))
}

/// A document in the state the engine maintains between operations:
/// well-formed blocks, at least one block, canonical form, and a machine
/// limit on the total character count.
pub open spec fn doc_ready(blocks: Seq<BlockNode>) -> bool {
    &&& doc_blocks_wf(blocks)
    &&& blocks.len() >= 1
    &&& doc_canonical(blocks_view(blocks))
    &&& doc_fits(blocks_view(blocks))
}

/// All adjacent pairs of `ch` differ in attributes, except possibly the pair
/// `(e - 1, e)`.
pub open spec fn pairs_differ_except(ch: Seq<LeafV>, e: int) -> bool {
    forall|i: int|
        0 <= i < ch.len() - 1 && i != e - 1 ==> (#[trigger] ch[i]).attrs != ch[i + 1].attrs
}

/// Inserting a leaf at `nl` into a list whose pairs all differ, except
/// possibly right where the insertion goes, leaves suspect pairs only around
/// the new leaf.
proof fn lemma_insert_mid_canonical(ch: Seq<LeafV>, nl: int, v: LeafV)
    requires
        0 <= nl <= ch.len(),
        pairs_differ_except(ch, nl),
    ensures
        canonical_except(ch.insert(nl, v), nl),
{
    let ch2 = ch.insert(nl, v);
    assert forall|i: int| 0 <= i < ch2.len() - 1 && i != nl - 1 && i != nl implies (
    #[trigger] ch2[i]).attrs != ch2[i + 1].attrs by {
        if i < nl - 1 {
            assert(ch2[i] == ch[i] && ch2[i + 1] == ch[i + 1]);
        } else {
            assert(ch2[i] == ch[i - 1] && ch2[i + 1] == ch[i]);
            assert(ch[i - 1].attrs != ch[i].attrs);
        }
    }
}

/// Splitting one leaf of a canonical list leaves the halves as the only
/// equal-attribute pair.
pub proof fn lemma_split_pairs(ch: Seq<LeafV>, l: int, idx: int)
    requires
        0 <= l < ch.len(),
        forall|i: int| 0 <= i < ch.len() - 1 ==> (#[trigger] ch[i]).attrs != ch[i + 1].attrs,
    ensures
        pairs_differ_except(split_leaf_children(ch, l, idx), l + 1),
{
    let ch1 = split_leaf_children(ch, l, idx);
    assert forall|i: int| 0 <= i < ch1.len() - 1 && i != l implies (#[trigger] ch1[i]).attrs
        != ch1[i + 1].attrs by {
        if i < l - 1 {
            assert(ch1[i] == ch[i] && ch1[i + 1] == ch[i + 1]);
        } else if i == l - 1 {
            assert(ch1[i] == ch[i]);
            assert(ch1[i + 1].attrs == ch[l].attrs);
        } else if i == l + 1 {
            assert(ch1[i].attrs == ch[l].attrs);
            assert(ch1[i + 1] == ch[l + 1]);
        } else {
            assert(ch1[i] == ch[i - 1] && ch1[i + 1] == ch[i]);
        }
    }
}

/// Applies one single-line insert operation at the cursor.  On success the
/// operation's characters stand at the cursor's old offset and the cursor,
/// with its cached offset, stands right after them.  The operation is
/// rejected, as a configuration error, when no registered format recognises
/// it, and when a header's level is not a number.
pub fn insert(
    blocks: &mut Vec<BlockNode>,
    cursor: &mut Cursor,
    op: DeltaOperation,
    registry: &Registry,
) -> (r: Result<(), Error>)
    requires
        doc_ready(old(blocks)@),
        loc_valid(blocks_view(old(blocks)@), old(cursor).start),
        cursor_synced(blocks_view(old(blocks)@), *old(cursor)),
        op.wf(),
        op@.kind is Insert,
        op.is_text_insert() ==> single_line(&op),
        spec_op_len(op@) >= 1,
        registry.wf(),
        blocks_chars(blocks_view(old(blocks)@)).len() + spec_op_len(op@) <= usize::MAX,
    ensures
        doc_blocks_wf(final(blocks)@),
        (match r {
            Ok(_) => {
                &&& doc_ready(final(blocks)@)
                &&& op.is_text_insert()
                &&& inserted_op_chars(
                    blocks_chars(blocks_view(old(blocks)@)),
                    blocks_chars(blocks_view(final(blocks)@)),
                    old(cursor).retain as int,
                    &op,
                )
                &&& loc_valid(blocks_view(final(blocks)@), final(cursor).start)
                &&& cursor_synced(blocks_view(final(blocks)@), *final(cursor))
                &&& final(cursor).retain == old(cursor).retain + spec_op_len(op@)
                &&& final(cursor).stop == old(cursor).stop
            },
            Err(_) => final(blocks)@ == old(blocks)@,
        }),
        (r is Ok) == line_accepted(registry.block_list(), registry.line_list(), &op),
{
    let ghost bs0 = blocks_view(old(blocks)@);
    let retain = cursor.get_retain_index();
    proof {
        crate::cursor::lemma_loc_offset_bound(bs0, old(cursor).start);
    }
    let oplen = op.op_len();
    cursor.set_retain_index(retain + oplen);
    let is_block = match registry.is_block_fmt(&op) {
        Ok(b) => b,
        Err(e) => {
            proof {
                lemma_not_accepted_no_formats(registry, &op);
            }
            return Err(e);
        },
    };
    if is_block {
        proof {
            crate::registry::lemma_first_match_props(registry.block_list(), &op);
            registry.lemma_wf_kinds();
            let k = first_match(registry.block_list(), &op).unwrap();
            assert(crate::formatter::fmt_is_block(registry.block_list()[k]));
            assert(crate::formatter::spec_is_newline(&op));
            crate::registry::lemma_nl_match_bridge(registry.block_list(), &op);
        }
        insert_new_block(blocks, cursor, op, registry)
    } else {
        proof {
            if crate::formatter::spec_is_newline(&op) {
                crate::registry::lemma_nl_match_bridge(registry.block_list(), &op);
            }
        }
        let format = match registry.line_format(&op) {
            Ok(f) => f,
            Err(e) => {
                proof {
                    registry.lemma_wf_kinds();
                    if op.is_text_insert() && !crate::formatter::spec_is_newline(&op) {
                        crate::registry::lemma_text_match_bridge(registry.line_list(), &op);
                    }
                }
                return Err(e);
            },
        };
        if !op.insert_value().is_string() {
            return Err(Error::NotAStringValue);
        }
        proof {
            crate::registry::lemma_first_match_props(registry.line_list(), &op);
            registry.lemma_wf_kinds();
            let k = first_match(registry.line_list(), &op).unwrap();
            assert(registry.line_list()[k] is Text);
            assert(crate::formatter::spec_text_applies(&op));
            assert(op.is_text_insert());
            assert(op.text() != seq!['\n']);
            assert(forall|i: int| 0 <= i < op.text().len() ==> op.text()[i] != '\n');
            assert(op.text().len() >= 1);
            crate::registry::lemma_text_match_bridge(registry.line_list(), &op);
        }
        insert_new_text(blocks, cursor, op, format)
    }
}

/// When the registry reports no formats at all, no single-line insert is
/// accepted.
proof fn lemma_not_accepted_no_formats(registry: &Registry, op: &DeltaOperation)
    requires
        registry.wf(),
        registry.line_list().len() == 0,
        first_match(registry.block_list(), &op) is None,
        op@.kind is Insert,
    ensures
        !line_accepted(registry.block_list(), registry.line_list(), op),
{
    if crate::formatter::spec_is_newline(op) {
        crate::registry::lemma_nl_match_bridge(registry.block_list(), op);
    }
}

/// Inserts a run of text at the cursor: the leaf the cursor points into is
/// split first, a new leaf is created from the operation and linked at the
/// boundary, and the sides are merged back where the attributes match.
#[verifier::spinoff_prover]
#[verifier::rlimit(100)]
pub fn insert_new_text(
    blocks: &mut Vec<BlockNode>,
    cursor: &mut Cursor,
    delta: DeltaOperation,
    format: Formatter,
) -> (r: Result<(), Error>)
    requires
        doc_ready(old(blocks)@),
        loc_valid(blocks_view(old(blocks)@), old(cursor).start),
        old(cursor).retain == loc_offset(blocks_view(old(blocks)@), old(cursor).start)
            + delta.text().len(),
        delta.wf(),
        delta.is_text_insert(),
        delta.text().len() >= 1,
        forall|i: int| 0 <= i < delta.text().len() ==> delta.text()[i] != '\n',
        format@ is Text,
        blocks_chars(blocks_view(old(blocks)@)).len() + delta.text().len() <= usize::MAX,
    ensures
        (match r {
            Ok(_) => {
                &&& doc_ready(final(blocks)@)
                &&& inserted_op_chars(
                    blocks_chars(blocks_view(old(blocks)@)),
                    blocks_chars(blocks_view(final(blocks)@)),
                    loc_offset(blocks_view(old(blocks)@), old(cursor).start),
                    &delta,
                )
                &&& loc_valid(blocks_view(final(blocks)@), final(cursor).start)
                &&& cursor_synced(blocks_view(final(blocks)@), *final(cursor))
                &&& final(cursor).retain == old(cursor).retain
                &&& final(cursor).stop == old(cursor).stop
            },
            Err(_) => false,
        }),
{
    let _ = format;
    let ghost bs0 = blocks_view(old(blocks)@);
    let ghost p0 = loc_offset(bs0, old(cursor).start);
    let loc = cursor.get_location();
    // A cursor at an empty block: the new leaf becomes the block's sole
    // child, and the render placeholder goes away.
    match loc {
        CursorLocation::At(NodeAddr::Block { block }, _) => {
            match AutomaticSoftBreak::remove(blocks, block) {
                Ok(_) => {},
                Err(_) => {
                    proof {
                        assert(false);
                    }
                },
            }
            let ghost bs_r = blocks_view(blocks@);
            insert_leaf_node(blocks, block, 0, delta);
            cursor.set_after_no_retain_update(NodeAddr::Leaf { block, leaf: 0 });
            proof {
                let bs1 = blocks_view(blocks@);
                assert(bs_r.take(block as int) =~= bs0.take(block as int));
                assert(blocks_chars(bs_r) == blocks_chars(bs0));
                assert(bs_r[block as int].children =~= Seq::<LeafV>::empty());
                assert(crate::doc_node::leaves_chars(bs_r[block as int].children.take(0))
                    =~= Seq::<crate::doc_node::AttrChar>::empty());
                assert(leaf_start_offset(bs_r, block as int, 0) == p0);
                assert(bs1[block as int].children.len() == 1);
                assert(bs1.take(block as int) =~= bs_r.take(block as int));
                assert(bs1[block as int].children.take(0)
                    =~= Seq::<LeafV>::empty());
                crate::cursor::lemma_loc_offset_bound(bs0, old(cursor).start);
                assert(blocks_chars(bs1).len() == blocks_chars(bs0).len()
                    + delta.text().len()) by {
                    assert(blocks_chars(bs0).take(p0).len() == p0);
                }
                assert forall|i: int| 0 <= i < bs1.len() implies crate::doc_node::block_canonical(
                    #[trigger] bs1[i],
                ) by {
                    if i != block {
                        assert(bs1[i] == bs0[i]);
                    }
                }
                assert(loc_offset(bs1, cursor.start) == p0 + delta.text().len());
                assert(doc_fits(bs1));
            }
            return Ok(());
        },
        _ => {},
    }
    // Split the leaf under the cursor, then link the new leaf at the
    // resulting boundary and merge where attributes match.
    split_text_at_cursor(blocks, cursor);
    let ghost bs_s = blocks_view(blocks@);
    let ghost ch_s = bs_s[crate::node_morph::loc_block(cursor.start)].children;
    let loc2 = cursor.get_location();
    match loc2 {
        CursorLocation::After(NodeAddr::Leaf { block, leaf }) => {
            let c = blocks[block].children.len();
            proof {
                assert(bs_s == bs0);
                crate::doc_node::lemma_leaves_take_snoc(
                    bs_s[block as int].children,
                    leaf as int,
                );
            }
            insert_leaf_node(blocks, block, leaf + 1, delta);
            cursor.set_after_no_retain_update(NodeAddr::Leaf { block, leaf: leaf + 1 });
            proof {
                lemma_text_path(
                    bs0,
                    bs_s,
                    blocks_view(blocks@),
                    *old(cursor),
                    *cursor,
                    &delta,
                    block as int,
                    leaf + 1,
                );
            }
        },
        CursorLocation::Before(NodeAddr::Leaf { block, leaf }) => {
            proof {
                match old(cursor).start {
                    CursorLocation::At(NodeAddr::Leaf { block: ob, leaf: ol }, idx) => {
                        let v = old(blocks)@[ob as int].children;
                        assert(vstd::std_specs::vec::spec_vec_len(&v) == v@.len());
                        assert(ol < v@.len());
                        assert(block == ob && leaf == ol + 1);
                        assert(leaf_start_offset(bs_s, block as int, leaf as int) == p0);
                    },
                    CursorLocation::Before(NodeAddr::Leaf { .. }) => {
                        assert(bs_s == bs0);
                    },
                    _ => {
                        assert(false);
                    },
                }
            }
            insert_leaf_node(blocks, block, leaf, delta);
            cursor.set_after_no_retain_update(NodeAddr::Leaf { block, leaf });
            proof {
                lemma_text_path(
                    bs0,
                    bs_s,
                    blocks_view(blocks@),
                    *old(cursor),
                    *cursor,
                    &delta,
                    block as int,
                    leaf as int,
                );
            }
        },
        _ => {
            proof {
                assert(false);
            }
        },
    }
    let ghost bs_i = blocks_view(blocks@);
    try_3_way_merge_text(blocks, cursor);
    proof {
        let bs1 = blocks_view(blocks@);
        let b = crate::node_morph::loc_block(cursor.start);
        assert forall|i: int| 0 <= i < bs1.len() implies crate::doc_node::block_canonical(
            #[trigger] bs1[i],
        ) by {
            if i != b {
                assert(bs1[i] == bs_i[i]);
                assert(bs_i[i] == bs0[i]);
            } else {
                assert(bs1[i].placeholder == bs_i[i].placeholder);
                assert(bs_i[i].placeholder == bs0[i].placeholder);
            }
        }
        assert(blocks_chars(bs1) == blocks_chars(bs_i));
        assert(inserted_op_chars(blocks_chars(bs0), blocks_chars(bs1), p0, &delta));
        crate::cursor::lemma_loc_offset_bound(bs0, old(cursor).start);
        assert(blocks_chars(bs1).len() == blocks_chars(bs0).len() + delta.text().len()) by {
            assert(blocks_chars(bs0).take(p0).len() == p0);
        }
        assert(doc_fits(bs1));
    }
    Ok(())
}

/// The shared bookkeeping of the two leaf-insertion paths: the characters
/// appear at the cursor's old offset, and the suspect adjacent pairs sit
/// around the new leaf, ready for the three-way merge.
#[verifier::spinoff_prover]
#[verifier::rlimit(100)]
proof fn lemma_text_path(
    bs0: Seq<crate::doc_node::BlockV>,
    bs_s: Seq<crate::doc_node::BlockV>,
    bs_i: Seq<crate::doc_node::BlockV>,
    cur0: Cursor,
    cur_i: Cursor,
    delta: &DeltaOperation,
    b: int,
    nl: int,
)
    requires
        0 <= b <= usize::MAX,
        0 <= nl <= usize::MAX,
        doc_canonical(bs0),
        loc_valid(bs0, cur0.start),
        // After the split.
        blocks_chars(bs_s) == blocks_chars(bs0),
        (match cur0.start {
            CursorLocation::At(NodeAddr::Leaf { block, leaf }, idx) => bs_s == bs0.update(
                block as int,
                (crate::doc_node::with_children(
                    bs0[block as int],
                    split_leaf_children(bs0[block as int].children, leaf as int, idx as int),
                )),
            ) && b == block && nl == leaf + 1,
            CursorLocation::After(NodeAddr::Leaf { block, leaf }) => bs_s == bs0 && b == block
                && nl == leaf + 1,
            CursorLocation::Before(NodeAddr::Leaf { block, leaf }) => bs_s == bs0 && b == block
                && nl == leaf,
            _ => false,
        }),
        0 <= b < bs_s.len(),
        0 <= nl <= bs_s[b].children.len(),
        leaf_start_offset(bs_s, b, nl) == loc_offset(bs0, cur0.start),
        // After the insertion.
        bs_i == bs_s.update(
            b,
            (crate::doc_node::with_children(
                bs_s[b],
                bs_s[b].children.insert(nl, leaf_v(delta.text(), delta.attrs())),
            )),
        ),
        delta.text().len() >= 1,
        cur_i.start == CursorLocation::After(
            NodeAddr::Leaf { block: b as usize, leaf: nl as usize },
        ),
    ensures
        loc_valid(bs_i, cur_i.start),
        crate::node_morph::loc_is_leafy(cur_i.start),
        crate::node_morph::loc_block(cur_i.start) == b,
        canonical_except(bs_i[b].children, crate::node_morph::pivot_of(cur_i.start)),
        loc_offset(bs_i, cur_i.start) == loc_offset(bs0, cur0.start) + delta.text().len(),
        forall|i: int| 0 <= i < bs_i.len() && i != b ==> #[trigger] bs_i[i] == bs0[i],
        bs_i[b].placeholder == bs0[b].placeholder,
        bs_i.len() == bs0.len(),
{
    let ch0 = bs0[b].children;
    let ch_s = bs_s[b].children;
    let ch_i = bs_i[b].children;
    assert(crate::doc_node::block_canonical(bs0[b]));
    // The suspect pairs after splitting and inserting.
    match cur0.start {
        CursorLocation::At(NodeAddr::Leaf { block, leaf }, idx) => {
            lemma_split_pairs(ch0, leaf as int, idx as int);
        },
        _ => {
            assert(pairs_differ_except(ch_s, nl));
        },
    }
    lemma_insert_mid_canonical(ch_s, nl, leaf_v(delta.text(), delta.attrs()));
    // Offsets: the new leaf starts where the cursor stood, and the cursor
    // now stands after it.
    ch_s.insert_ensures(nl, leaf_v(delta.text(), delta.attrs()));
    assert(ch_i == ch_s.insert(nl, leaf_v(delta.text(), delta.attrs())));
    assert(ch_i.take(nl) =~= ch_s.take(nl));
    assert(bs_i.take(b) =~= bs_s.take(b));
    assert(ch_i[nl] == leaf_v(delta.text(), delta.attrs()));
    assert(leaf_start_offset(bs_i, b, nl) == leaf_start_offset(bs_s, b, nl));
    assert(loc_offset(bs_i, cur_i.start) == leaf_start_offset(bs_i, b, nl)
        + delta.text().len());
}

/// Inserts a line terminator at the cursor: the line splits at that point,
/// the left block takes the operation's block format and attributes, and the
/// right block keeps the current ones.  A cursor at an empty block instead
/// gains a fresh block of the operation's format just before it.
#[verifier::spinoff_prover]
#[verifier::rlimit(100)]
pub fn insert_new_block(
    blocks: &mut Vec<BlockNode>,
    cursor: &mut Cursor,
    delta: DeltaOperation,
    registry: &Registry,
) -> (r: Result<(), Error>)
    requires
        doc_ready(old(blocks)@),
        loc_valid(blocks_view(old(blocks)@), old(cursor).start),
        old(cursor).retain == loc_offset(blocks_view(old(blocks)@), old(cursor).start) + 1,
        delta.wf(),
        crate::formatter::spec_is_newline(&delta),
        registry.wf(),
        first_match(registry.block_list(), &delta) is Some,
        blocks_chars(blocks_view(old(blocks)@)).len() + 1 <= usize::MAX,
    ensures
        doc_blocks_wf(final(blocks)@),
        (match r {
            Ok(_) => {
                &&& doc_ready(final(blocks)@)
                &&& inserted_op_chars(
                    blocks_chars(blocks_view(old(blocks)@)),
                    blocks_chars(blocks_view(final(blocks)@)),
                    loc_offset(blocks_view(old(blocks)@), old(cursor).start),
                    &delta,
                )
                &&& loc_valid(blocks_view(final(blocks)@), final(cursor).start)
                &&& cursor_synced(blocks_view(final(blocks)@), *final(cursor))
                &&& final(cursor).retain == old(cursor).retain
                &&& final(cursor).stop == old(cursor).stop
                &&& (registry.block_list()[first_match(registry.block_list(), &delta).unwrap()]
                    is Header ==> delta.attrs()[HEADER_ATTR_KEY@] is Number)
            },
            Err(_) => final(blocks)@ == old(blocks)@ && registry.block_list()[first_match(
                registry.block_list(),
                &delta,
            ).unwrap()] is Header && !(delta.attrs()[HEADER_ATTR_KEY@] is Number),
        }),
{
    let ghost bs0 = blocks_view(old(blocks)@);
    let ghost p0 = loc_offset(bs0, old(cursor).start);
    let format = match registry.block_format(&delta) {
        Ok(f) => f,
        Err(_) => {
            proof {
                assert(false);
            }
            return Err(Error::WrongFormatKind);
        },
    };
    // Check the header level up front: a bad level must not leave the tree
    // half-mutated.
    proof {
        crate::registry::lemma_first_match_props(registry.block_list(), &delta);
    }
    if matches!(format, Formatter::Header(_)) {
        let level_ok = match delta.get_attributes().get(HEADER_ATTR_KEY) {
            Some(v) => matches!(v, crate::attr_val::AttrVal::Number(_)),
            None => false,
        };
        if !level_ok {
            proof {
                let k = first_match(registry.block_list(), &delta).unwrap();
                assert(registry.block_list()[k] is Header);
                assert(delta.attrs().contains_key(HEADER_ATTR_KEY@));
                assert(!(delta.attrs()[HEADER_ATTR_KEY@] is Number));
            }
            return Err(Error::WrongFormatKind);
        }
    }
    let loc = cursor.get_location();
    match loc {
        CursorLocation::At(NodeAddr::Block { block }, _) => {
            // An empty block: a fresh empty block of the new format goes
            // just before it.
            let n0 = blocks.len();
            match insert_block_node(blocks, block, delta, format) {
                Ok(_) => {},
                Err(_) => {
                    proof {
                        assert(false);
                    }
                },
            }
            let r = AutomaticSoftBreak::insert(blocks, block);
            proof {
                assert(r is Ok);
            }
            cursor.set_at_no_retain_update(NodeAddr::Block { block: block + 1 }, 0);
            proof {
                let bs1 = blocks_view(blocks@);
                assert(bs1.take(block as int) =~= bs0.take(block as int));
                assert(bs1[block + 1] == bs0[block as int]);
                assert(crate::cursor::block_start_offset(bs1, block + 1) == p0 + 1) by {
                    crate::doc_node::lemma_blocks_take_snoc(bs1, block as int);
                    assert(bs1.take(block as int + 1) =~= bs1.take(block as int).push(
                        bs1[block as int],
                    ));
                }
                assert forall|i: int| 0 <= i < bs1.len() implies crate::doc_node::block_canonical(
                    #[trigger] bs1[i],
                ) by {
                    if i < block {
                        assert(bs1[i] == bs0[i]);
                    } else if i == block {
                    } else {
                        assert(bs1[i] == bs0[i - 1]);
                    }
                }
                assert(leaf_chars(leaf_v(delta.text(), delta.attrs())) =~= seq![
                    crate::doc_node::attr_char('\n', delta.attrs()),
                ]);
                crate::cursor::lemma_loc_offset_bound(bs0, old(cursor).start);
                assert(blocks_chars(bs1).len() == blocks_chars(bs0).len() + 1) by {
                    assert(blocks_chars(bs0).take(p0).len() == p0);
                }
                assert(doc_fits(bs1));
            }
            Ok(())
        },
        _ => {
            // A cursor in a line's content: split the leaf and the block at
            // the cursor, then convert the left block to the new format.
            split_text_at_cursor(blocks, cursor);
            let ghost bs_s = blocks_view(blocks@);
            let loc2 = cursor.get_location();
            let (b, cl): (usize, usize) = match loc2 {
                CursorLocation::Before(NodeAddr::Leaf { block, leaf }) => (block, leaf),
                CursorLocation::After(NodeAddr::Leaf { block, leaf }) => {
                    let c = blocks[block].children.len();
                    (block, leaf + 1)
                },
                _ => {
                    proof {
                        assert(false);
                    }
                    (0, 0)
                },
            };
            split_block_before_child(blocks, b, cl);
            let ghost bs_p = blocks_view(blocks@);
            let nb = blocks.len();
            // Placeholders for the sides the split may have emptied.
            if blocks[b].children.len() == 0 {
                let rr = AutomaticSoftBreak::insert(blocks, b);
            }
            if blocks[b + 1].children.len() == 0 {
                let rr = AutomaticSoftBreak::insert(blocks, b + 1);
            }
            // The left block converts to the new format: back to the plain
            // paragraph first, then to the registry-resolved format with the
            // operation's attributes.  Its line terminator is the inserted
            // character.
            un_block_transform(blocks, b);
            let ghost bs_q = blocks_view(blocks@);
            proof {
                assert(blocks_chars(bs_q) == blocks_chars(bs_p));
                assert(bs_q.take(b as int) =~= bs_p.take(b as int));
                assert(bs_q[b as int].children == bs_p[b as int].children);
                assert(crate::doc_node::block_nl_offset(bs_q, b as int)
                    == crate::doc_node::block_nl_offset(bs_p, b as int));
            }
            match block_transform(blocks, b, delta, format) {
                Ok(_) => {},
                Err(_) => {
                    proof {
                        assert(false);
                    }
                },
            }
            proof {
                assert(blocks_chars(blocks_view(blocks@)) == blocks_chars(bs_p).update(
                    crate::doc_node::block_nl_offset(bs_p, b as int),
                    crate::doc_node::attr_char('\n', delta.attrs()),
                ));
            }
            // Leave the cursor at the start of the right-hand block.
            let right_empty = blocks[b + 1].children.len() == 0;
            if right_empty {
                cursor.set_at_no_retain_update(NodeAddr::Block { block: b + 1 }, 0);
            } else {
                cursor.set_before_no_retain_update(NodeAddr::Leaf { block: b + 1, leaf: 0 });
            }
            proof {
                match old(cursor).start {
                    CursorLocation::At(NodeAddr::Leaf { block, leaf }, idx) => {
                        lemma_split_pairs(bs0[b as int].children, leaf as int, idx as int);
                    },
                    _ => {
                        assert(crate::doc_node::block_canonical(bs0[b as int]));
                        assert(pairs_differ_except(bs_s[b as int].children, cl as int));
                    },
                }
                match old(cursor).start {
                    CursorLocation::After(NodeAddr::Leaf { block, leaf }) => {
                        assert(bs_s == bs0);
                        crate::doc_node::lemma_leaves_take_snoc(
                            bs_s[block as int].children,
                            leaf as int,
                        );
                    },
                    CursorLocation::At(NodeAddr::Leaf { block: ob, leaf: ol }, idx) => {
                        let v = old(blocks)@[ob as int].children;
                        assert(vstd::std_specs::vec::spec_vec_len(&v) == v@.len());
                        assert(ol < v@.len());
                        assert(cl == ol + 1);
                        assert(leaf_start_offset(bs_s, b as int, cl as int) == p0);
                    },
                    _ => {},
                }
                lemma_block_path(
                    bs0,
                    bs_s,
                    bs_p,
                    blocks_view(blocks@),
                    *old(cursor),
                    *cursor,
                    &delta,
                    b as int,
                    cl as int,
                );
            }
            Ok(())
        },
    }
}

/// The bookkeeping of the line-splitting insert path: splitting the block
/// inserts the line terminator at the cursor's offset, converting the left
/// block gives it the operation's attributes, and the cursor ends at the
/// start of the right block.
#[verifier::spinoff_prover]
#[verifier::rlimit(100)]
proof fn lemma_block_path(
    bs0: Seq<crate::doc_node::BlockV>,
    bs_s: Seq<crate::doc_node::BlockV>,
    bs_p: Seq<crate::doc_node::BlockV>,
    bs1: Seq<crate::doc_node::BlockV>,
    cur0: Cursor,
    cur1: Cursor,
    delta: &DeltaOperation,
    b: int,
    cl: int,
)
    requires
        0 <= b,
        b + 1 <= usize::MAX,
        crate::formatter::spec_is_newline(delta),
        doc_canonical(bs0),
        doc_fits(bs0),
        loc_valid(bs0, cur0.start),
        blocks_chars(bs0).len() + 1 <= usize::MAX,
        blocks_chars(bs_s) == blocks_chars(bs0),
        bs_s.len() == bs0.len(),
        forall|i: int| 0 <= i < bs_s.len() && i != b ==> #[trigger] bs_s[i] == bs0[i],
        pairs_differ_except(bs_s[b].children, cl),
        0 <= b < bs_s.len(),
        0 <= cl <= bs_s[b].children.len(),
        leaf_start_offset(bs_s, b, cl) == loc_offset(bs0, cur0.start),
        crate::doc_node::chars_inserted(
            blocks_chars(bs_s),
            blocks_chars(bs_p),
            leaf_start_offset(bs_s, b, cl),
            seq![crate::doc_node::attr_char('\n', bs_s[b].attrs)],
        ),
        bs_p == bs_s.update(
            b,
            (crate::doc_node::with_children(bs_s[b], bs_s[b].children.take(cl))),
        ).insert(
            b + 1,
            (crate::doc_node::BlockV {
                fmt: bs_s[b].fmt,
                attrs: bs_s[b].attrs,
                children: bs_s[b].children.skip(cl),
                placeholder: false,
            }),
        ),
        // After placeholders and the left block's transformation.
        bs1.len() == bs_p.len(),
        bs1[b].children == bs_p[b].children,
        bs1[b].attrs == delta.attrs(),
        bs1[b].placeholder == (bs1[b].children.len() == 0),
        bs1[b + 1].children == bs_p[b + 1].children,
        bs1[b + 1].fmt == bs_p[b + 1].fmt,
        bs1[b + 1].attrs == bs_p[b + 1].attrs,
        bs1[b + 1].placeholder == (bs1[b + 1].children.len() == 0),
        forall|i: int| 0 <= i < bs1.len() && i != b && i != b + 1 ==> #[trigger] bs1[i] == bs_p[i],
        blocks_chars(bs1) == blocks_chars(bs_p).update(
            crate::doc_node::block_nl_offset(bs_p, b),
            crate::doc_node::attr_char('\n', delta.attrs()),
        ),
        cur1.start == (if bs1[b + 1].children.len() == 0 {
            CursorLocation::At(NodeAddr::Block { block: (b + 1) as usize }, 0)
        } else {
            CursorLocation::Before(NodeAddr::Leaf { block: (b + 1) as usize, leaf: 0 })
        }),
    ensures
        doc_canonical(bs1),
        doc_fits(bs1),
        crate::doc_node::chars_inserted(
            blocks_chars(bs0),
            blocks_chars(bs1),
            loc_offset(bs0, cur0.start),
            leaf_chars(leaf_v(delta.text(), delta.attrs())),
        ),
        loc_valid(bs1, cur1.start),
        loc_offset(bs1, cur1.start) == loc_offset(bs0, cur0.start) + 1,
{
    let p = leaf_start_offset(bs_s, b, cl);
    // Canonical form: the two halves of the split block stay canonical.
    assert forall|i: int| 0 <= i < bs1.len() implies crate::doc_node::block_canonical(
        #[trigger] bs1[i],
    ) by {
        if i != b && i != b + 1 {
            if i < b {
                assert(bs_p[i] == bs_s[i]);
                assert(bs_s[i] == bs0[i]);
            } else {
                assert(bs_p[i] == bs_s[i - 1]);
                assert(bs_s[i - 1] == bs0[i - 1]);
            }
        } else {
            let ch = bs_s[b].children;
            if i == b {
                assert(bs1[i].children =~= ch.take(cl));
                assert forall|q: int| 0 <= q < bs1[i].children.len() - 1 implies (
                #[trigger] bs1[i].children[q]).attrs != bs1[i].children[q + 1].attrs by {
                    assert(bs1[i].children[q] == ch[q] && bs1[i].children[q + 1] == ch[q + 1]);
                    assert(q != cl - 1);
                    assert(ch[q].attrs != ch[q + 1].attrs);
                }
            } else {
                assert(bs1[i].children =~= ch.skip(cl));
                assert forall|q: int| 0 <= q < bs1[i].children.len() - 1 implies (
                #[trigger] bs1[i].children[q]).attrs != bs1[i].children[q + 1].attrs by {
                    assert(bs1[i].children[q] == ch[q + cl] && bs1[i].children[q + 1] == ch[q + cl
                        + 1]);
                    assert(q + cl != cl - 1);
                    assert(ch[q + cl].attrs != ch[q + cl + 1].attrs);
                }
            }
        }
    }
    // The characters: the split put a terminator with the old attributes at
    // `p`; the transformation re-attributed exactly that character.
    let s0 = blocks_chars(bs0);
    let nl_old = crate::doc_node::attr_char('\n', bs_s[b].attrs);
    let nl_new = crate::doc_node::attr_char('\n', delta.attrs());
    assert(blocks_chars(bs_p) == s0.take(p) + seq![nl_old] + s0.skip(p));
    assert(crate::doc_node::block_nl_offset(bs_p, b) == p) by {
        assert(bs_p.take(b) =~= bs_s.take(b));
        assert(bs_p[b].children =~= bs_s[b].children.take(cl));
        crate::doc_node::lemma_leaves_prefix_le(bs_s[b].children, cl);
    }
    assert(blocks_chars(bs1) =~= s0.take(p) + seq![nl_new] + s0.skip(p)) by {
        crate::cursor::lemma_loc_offset_bound(bs0, cur0.start);
        assert(s0.take(p).len() == p);
        assert((s0.take(p) + seq![nl_old] + s0.skip(p)).update(p, nl_new) =~= s0.take(p) + seq![
            nl_new,
        ] + s0.skip(p));
    }
    assert(leaf_chars(leaf_v(delta.text(), delta.attrs())) =~= seq![nl_new]);
    // The cursor's offset: the start of the right block is one past `p`.
    crate::doc_node::lemma_blocks_take_snoc(bs1, b);
    crate::doc_node::lemma_blocks_take_snoc(bs_p, b);
    assert(bs1.take(b) =~= bs_p.take(b));
    assert(bs_p.take(b) =~= bs_s.take(b));
    assert(crate::doc_node::block_chars(bs1[b]).len() == crate::doc_node::block_chars(
        bs_p[b],
    ).len());
    assert(crate::cursor::block_start_offset(bs1, b + 1) == crate::cursor::block_start_offset(
        bs_s,
        b,
    ) + crate::doc_node::block_chars(bs_p[b]).len());
    assert(bs_p[b].children =~= bs_s[b].children.take(cl));
    assert(crate::doc_node::block_chars(bs_p[b]).len() == leaves_chars_len_of(
        bs_s[b].children.take(cl),
    ) + 1);
    assert(leaf_start_offset(bs_s, b, cl) == crate::cursor::block_start_offset(bs_s, b)
        + leaves_chars_len_of(bs_s[b].children.take(cl)));
    assert(crate::cursor::block_start_offset(bs1, b + 1) == p + 1);
    assert(bs1[b + 1].children.take(0) =~= Seq::<LeafV>::empty());
    assert(crate::doc_node::leaves_chars(Seq::<LeafV>::empty())
        == Seq::<crate::doc_node::AttrChar>::empty());
    assert(loc_offset(bs1, cur1.start) == crate::cursor::block_start_offset(bs1, b + 1));
    // The stream still fits the machine's word.
    crate::cursor::lemma_loc_offset_bound(bs0, cur0.start);
    assert(blocks_chars(bs1).len() == blocks_chars(bs0).len() + 1) by {
        assert(blocks_chars(bs0).take(p).len() == p);
    }
    assert(doc_fits(bs1));
}

/// The number of characters a list of leaves contributes.
pub open spec fn leaves_chars_len_of(ls: Seq<LeafV>) -> int {
    crate::doc_node::leaves_chars(ls).len() as int
}

} // verus!
