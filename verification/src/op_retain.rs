//! The retain operation: advancing the cursor, optionally re-applying
//! composed attributes over the range walked.
//!
//! With empty attributes a retain is a pure cursor move.  With attributes,
//! each node in the range has its existing attributes composed with the
//! incoming ones and reapplied: a clearing value removes its key.  A block in
//! the range is re-resolved through the registry, which is how a paragraph
//! becomes a header or the reverse.

use crate::attributes::{spec_compose, Attributes};
use crate::cursor::{
    cursor_synced, loc_offset, loc_valid, node_unit_offset, Cursor, CursorLocation, NodeAddr,
};
use crate::doc_node::{
    blocks_chars, blocks_view, chars_retained, doc_blocks_wf, doc_canonical, doc_fits, BlockNode,
};
use crate::error::Error;
use crate::format_const::HEADER_ATTR_KEY;
use crate::node_morph::{merge_text_node, replace_leaf_attrs, split_text_node};
use crate::op_delete::{delete_inv_canonical, seam_ix};
use crate::op_insert::doc_ready;
use crate::operations::{spec_op_len, DeltaOperation};
use crate::registry::Registry;
use crate::tree_traverse::next_node;
use vstd::prelude::*;

verus! {

/// Applies one retain operation at the cursor: a pure move for empty
/// attributes, an attributed walk otherwise.  The cursor lands `n` further,
/// clamped to the end of the last block's content; with attributes, every
/// character of the walked range carries its old attributes composed with
/// the operation's.
pub fn retain(
    blocks: &mut Vec<BlockNode>,
    cursor: &mut Cursor,
    delta: &DeltaOperation,
    registry: &Registry,
) -> (r: Result<(), Error>)
    requires
        doc_ready(old(blocks)@),
        loc_valid(blocks_view(old(blocks)@), old(cursor).start),
        cursor_synced(blocks_view(old(blocks)@), *old(cursor)),
        delta.wf(),
        delta@.kind is Retain,
        registry.wf(),
        old(cursor).retain + spec_op_len(delta@) <= usize::MAX,
    ensures
        doc_blocks_wf(final(blocks)@),
        (match r {
            Ok(_) => {
                &&& doc_ready(final(blocks)@)
                &&& chars_retained(
                    blocks_chars(blocks_view(old(blocks)@)),
                    blocks_chars(blocks_view(final(blocks)@)),
                    old(cursor).retain as int,
                    (if delta.attrs() == Map::<Seq<char>, crate::attr_val::AttrV>::empty() {
                        old(cursor).retain as int
                    } else if old(cursor).retain + spec_op_len(delta@) <= blocks_chars(
                        blocks_view(old(blocks)@),
                    ).len() {
                        old(cursor).retain + spec_op_len(delta@)
                    } else {
                        blocks_chars(blocks_view(old(blocks)@)).len() as int
                    }),
                    delta.attrs(),
                )
                &&& loc_valid(blocks_view(final(blocks)@), final(cursor).start)
                &&& cursor_synced(blocks_view(final(blocks)@), *final(cursor))
                &&& loc_offset(blocks_view(final(blocks)@), final(cursor).start) == (if old(
                    cursor,
                ).retain + spec_op_len(delta@) + 1 <= blocks_chars(
                    blocks_view(old(blocks)@),
                ).len() {
                    old(cursor).retain + spec_op_len(delta@)
                } else {
                    blocks_chars(blocks_view(old(blocks)@)).len() - 1
                })
                &&& (delta.attrs() == Map::<Seq<char>, crate::attr_val::AttrV>::empty()
                    ==> final(blocks)@ == old(blocks)@)
            },
            Err(_) => {
                &&& blocks_chars(blocks_view(final(blocks)@)).len() == blocks_chars(
                    blocks_view(old(blocks)@),
                ).len()
                &&& delta.attrs() != Map::<Seq<char>, crate::attr_val::AttrV>::empty()
                &&& exists|i: int|
                    0 <= i < blocks_view(old(blocks)@).len()
                        && !crate::registry::newline_accepted(
                        registry.block_list(),
                        spec_compose(
                            (#[trigger] blocks_view(old(blocks)@)[i]).attrs,
                            delta.attrs(),
                            false,
                        ),
                    )
            },
        }),
{
    let ghost bs0 = blocks_view(old(blocks)@);
    let retain_ix = cursor.get_retain_index();
    let oplen = delta.op_len();
    proof {
        crate::cursor::lemma_loc_offset_bound(bs0, old(cursor).start);
    }
    cursor.set_retain_index(retain_ix + oplen);
    if delta.get_attributes().is_empty() {
        retain_length(blocks, cursor, oplen);
        proof {
            assert(blocks_chars(blocks_view(blocks@)) =~= blocks_chars(bs0));
        }
        Ok(())
    } else {
        retain_attributed(blocks, cursor, oplen, delta.get_attributes().clone(), registry)
    }
}

/// Moves the cursor `retain_len` characters onward, stepping across whole
/// nodes and landing per the exact remainder; the walk clamps at the end of
/// the last block's content.  The tree itself is untouched.
#[verifier::spinoff_prover]
#[verifier::rlimit(100)]
pub fn retain_length(blocks: &Vec<BlockNode>, cursor: &mut Cursor, retain_len: usize)
    requires
        doc_ready(blocks@),
        loc_valid(blocks_view(blocks@), old(cursor).start),
        old(cursor).retain == loc_offset(blocks_view(blocks@), old(cursor).start) + retain_len,
    ensures
        loc_valid(blocks_view(blocks@), final(cursor).start),
        cursor_synced(blocks_view(blocks@), *final(cursor)),
        loc_offset(blocks_view(blocks@), final(cursor).start) == (if loc_offset(
            blocks_view(blocks@),
            old(cursor).start,
        ) + retain_len + 1 <= blocks_chars(blocks_view(blocks@)).len() {
            loc_offset(blocks_view(blocks@), old(cursor).start) + retain_len
        } else {
            blocks_chars(blocks_view(blocks@)).len() - 1
        }),
        final(cursor).stop == old(cursor).stop,
{
    let ghost bs = blocks_view(blocks@);
    let ghost p0 = loc_offset(bs, old(cursor).start);
    let ghost target = p0 + retain_len;
    proof {
        crate::cursor::lemma_loc_offset_bound(bs, old(cursor).start);
    }
    let loc = cursor.get_location();
    let (mut dn, mut rtn): (NodeAddr, usize) = match loc {
        CursorLocation::Before(NodeAddr::Leaf { block, leaf }) => (
            NodeAddr::Leaf { block, leaf },
            retain_len,
        ),
        CursorLocation::After(NodeAddr::Leaf { block, leaf }) => {
            let c = blocks[block].children.len();
            proof {
                crate::doc_node::lemma_leaves_take_snoc(bs[block as int].children, leaf as int);
                if leaf + 1 == c {
                    assert(bs[block as int].children.take(c as int) =~= bs[block as int].children);
                }
            }
            if leaf + 1 < c {
                (NodeAddr::Leaf { block, leaf: leaf + 1 }, retain_len)
            } else {
                (NodeAddr::Block { block }, retain_len)
            }
        },
        CursorLocation::At(NodeAddr::Leaf { block, leaf }, idx) => {
            // Walk from the leaf's start, a bit further.
            (NodeAddr::Leaf { block, leaf }, retain_len + idx)
        },
        CursorLocation::At(NodeAddr::Block { block }, _) => (
            NodeAddr::Block { block },
            retain_len,
        ),
        _ => {
            proof {
                assert(false);
            }
            (NodeAddr::Block { block: 0 }, 0)
        },
    };
    if rtn == 0 {
        return ;
    }
    while rtn > 0
        invariant
            doc_ready(blocks@),
            bs == blocks_view(blocks@),
            crate::tree_traverse::addr_valid(bs, dn),
            0 <= p0,
            p0 == loc_offset(bs, old(cursor).start),
            target == p0 + retain_len,
            node_unit_offset(bs, dn) + rtn == target,
            node_unit_offset(bs, dn) >= 0,
            rtn >= 1,
            *cursor == *old(cursor),
            cursor.retain == target,
        decreases rtn,
    {
        let ghost u = node_unit_offset(bs, dn);
        let (ol, leafy): (usize, bool) = match dn {
            NodeAddr::Leaf { block, leaf } => {
                proof {
                    assert((#[trigger] blocks@[block as int]).wf());
                    assert((#[trigger] blocks@[block as int].children@[leaf as int]).wf());
                }
                (blocks[block].children[leaf].op_len(), true)
            },
            NodeAddr::Block { block } => {
                proof {
                    assert((#[trigger] blocks@[block as int]).wf());
                }
                (1, false)
            },
        };
        if rtn >= ol {
            proof {
                match dn {
                    NodeAddr::Leaf { block, leaf } => {
                        let c = blocks@[block as int].children;
                        let vv = blocks@[block as int].children;
                        assert(vstd::std_specs::vec::spec_vec_len(&vv) == vv@.len());
                    },
                    _ => {},
                }
                assert(vstd::std_specs::vec::spec_vec_len(blocks) == blocks@.len());
            }
            let next = next_node(blocks, dn);
            match next {
                None => {
                    proof {
                        crate::cursor::lemma_no_next_is_end(bs, dn);
                        assert(target + 1 > blocks_chars(bs).len());
                    }
                    cursor.set_cursor_to_doc_node_edge(blocks, dn, false);
                    return ;
                },
                Some(nx) => {
                    proof {
                        crate::cursor::lemma_next_node_offset(bs, dn);
                        match nx {
                            NodeAddr::Leaf { block: b2, leaf: l2 } => {
                                assert((#[trigger] blocks@[b2 as int]).wf());
                                assert((#[trigger] blocks@[b2 as int].children@[l2 as int]).wf());
                            },
                            _ => {},
                        }
                        crate::cursor::lemma_unit_offset_in_doc(bs, nx);
                    }
                    if rtn == ol {
                        cursor.set_cursor_to_doc_node_edge(blocks, nx, true);
                        return ;
                    }
                    dn = nx;
                    rtn = rtn - ol;
                },
            }
        } else {
            // The remainder falls inside this leaf.
            proof {
                assert(leafy);
            }
            match dn {
                NodeAddr::Leaf { block, leaf } => {
                    proof {
                        crate::cursor::lemma_leaf_range_chars(bs, block as int, leaf as int);
                        crate::cursor::lemma_unit_offset_in_doc(bs, dn);
                        assert(crate::doc_node::block_nl_offset(bs, block as int) + 1
                            <= blocks_chars(bs).len()) by {
                            crate::doc_node::lemma_blocks_chars_split(bs, block as int);
                        }
                        crate::doc_node::lemma_leaves_take_snoc(
                            bs[block as int].children,
                            leaf as int,
                        );
                        crate::doc_node::lemma_leaves_prefix_le(
                            bs[block as int].children,
                            leaf + 1,
                        );
                    }
                    cursor.set_at_no_retain_update(NodeAddr::Leaf { block, leaf }, rtn);
                },
                _ => {
                    proof {
                        assert(false);
                    }
                },
            }
            return ;
        }
    }
}

/// Walks `retain_len` characters from the cursor and composes `attr` onto
/// every node of the range, splitting where an attribute boundary falls
/// inside a node and merging equal neighbours back together.  A leaf is
/// rebuilt under the composed attributes; a block is converted through the
/// registry-resolved block format for its composed attributes.
#[verifier::spinoff_prover]
#[verifier::rlimit(100)]
pub fn retain_attributed(
    blocks: &mut Vec<BlockNode>,
    cursor: &mut Cursor,
    retain_len: usize,
    attr: Attributes,
    registry: &Registry,
) -> (r: Result<(), Error>)
    requires
        doc_ready(old(blocks)@),
        loc_valid(blocks_view(old(blocks)@), old(cursor).start),
        old(cursor).retain == loc_offset(blocks_view(old(blocks)@), old(cursor).start)
            + retain_len,
        attr.wf(),
        registry.wf(),
    ensures
        doc_blocks_wf(final(blocks)@),
        (match r {
            Ok(_) => {
                &&& doc_ready(final(blocks)@)
                &&& chars_retained(
                    blocks_chars(blocks_view(old(blocks)@)),
                    blocks_chars(blocks_view(final(blocks)@)),
                    loc_offset(blocks_view(old(blocks)@), old(cursor).start),
                    (if loc_offset(blocks_view(old(blocks)@), old(cursor).start) + retain_len
                        <= blocks_chars(blocks_view(old(blocks)@)).len() {
                        loc_offset(blocks_view(old(blocks)@), old(cursor).start) + retain_len
                    } else {
                        blocks_chars(blocks_view(old(blocks)@)).len() as int
                    }),
                    attr@,
                )
                &&& loc_valid(blocks_view(final(blocks)@), final(cursor).start)
                &&& cursor_synced(blocks_view(final(blocks)@), *final(cursor))
                &&& loc_offset(blocks_view(final(blocks)@), final(cursor).start) == (if
                loc_offset(blocks_view(old(blocks)@), old(cursor).start) + retain_len + 1
                    <= blocks_chars(blocks_view(old(blocks)@)).len() {
                    loc_offset(blocks_view(old(blocks)@), old(cursor).start) + retain_len
                } else {
                    blocks_chars(blocks_view(old(blocks)@)).len() - 1
                })
                &&& final(cursor).stop == old(cursor).stop
            },
            Err(_) => {
                &&& blocks_chars(blocks_view(final(blocks)@)).len() == blocks_chars(
                    blocks_view(old(blocks)@),
                ).len()
                &&& exists|i: int|
                    0 <= i < blocks_view(old(blocks)@).len()
                        && !crate::registry::newline_accepted(
                        registry.block_list(),
                        spec_compose(
                            (#[trigger] blocks_view(old(blocks)@)[i]).attrs,
                            attr@,
                            false,
                        ),
                    )
            },
        }),
{
    let ghost bs0 = blocks_view(old(blocks)@);
    let ghost p0 = loc_offset(bs0, old(cursor).start);
    let ghost target = p0 + retain_len;
    proof {
        crate::cursor::lemma_loc_offset_bound(bs0, old(cursor).start);
    }
    // Establish the starting node, splitting a leaf the cursor stands
    // inside.
    let loc = cursor.get_location();
    let mut dn: NodeAddr = match loc {
        CursorLocation::Before(NodeAddr::Leaf { block, leaf }) => NodeAddr::Leaf { block, leaf },
        CursorLocation::After(NodeAddr::Leaf { block, leaf }) => {
            let c = blocks[block].children.len();
            proof {
                crate::doc_node::lemma_leaves_take_snoc(bs0[block as int].children, leaf as int);
                if leaf + 1 == c {
                    assert(bs0[block as int].children.take(c as int) =~= bs0[
                        block as int
                    ].children);
                }
            }
            if leaf + 1 < c {
                NodeAddr::Leaf { block, leaf: leaf + 1 }
            } else {
                NodeAddr::Block { block }
            }
        },
        CursorLocation::At(NodeAddr::Leaf { block, leaf }, idx) => {
            let c = blocks[block].children.len();
            split_text_node(blocks, block, leaf, idx);
            cursor.set_after_no_retain_update(NodeAddr::Leaf { block, leaf });
            proof {
                let bs_s = blocks_view(blocks@);
                let ch0 = bs0[block as int].children;
                let left = crate::doc_node::leaf_v(
                    ch0[leaf as int].text.take(idx as int),
                    ch0[leaf as int].attrs,
                );
                crate::op_insert::lemma_split_pairs(ch0, leaf as int, idx as int);
                assert(bs_s.take(block as int) =~= bs0.take(block as int));
                assert(bs_s[block as int].children.take(leaf + 1) =~= ch0.take(leaf as int)
                    + seq![left]);
                crate::doc_node::lemma_leaves_chars_concat(ch0.take(leaf as int), seq![left]);
                crate::doc_node::lemma_leaves_chars_singleton(left);
            }
            NodeAddr::Leaf { block, leaf: leaf + 1 }
        },
        CursorLocation::At(NodeAddr::Block { block }, _) => NodeAddr::Block { block },
        _ => {
            proof {
                assert(false);
            }
            return Err(Error::UnexepectedCursorPosNone);
        },
    };
    let mut rtn: usize = retain_len;
    proof {
        let bs = blocks_view(blocks@);
        assert(blocks_chars(bs) == blocks_chars(bs0));
        assert(chars_retained(blocks_chars(bs0), blocks_chars(bs), p0, p0, attr@));
        assert(crate::tree_traverse::addr_valid(bs, dn));
        assert(node_unit_offset(bs, dn) == p0);
        assert(delete_inv_canonical(bs, dn));
        assert forall|i: int| 0 <= i < blocks@.len() implies (#[trigger] blocks_view(
            blocks@,
        )[i]).attrs == bs0[i].attrs by {
            match old(cursor).start {
                CursorLocation::At(NodeAddr::Leaf { block: ob, leaf: ol }, idx) => {
                    if i != ob {
                        assert(blocks_view(blocks@)[i] == bs0[i]);
                    }
                },
                _ => {
                    assert(blocks_view(blocks@)[i] == bs0[i]);
                },
            }
        }
    }
    while rtn > 0
        invariant
            doc_blocks_wf(blocks@),
            blocks@.len() >= 1,
            blocks@.len() == old(blocks)@.len(),
            rtn <= retain_len,
            crate::tree_traverse::addr_valid(blocks_view(blocks@), dn),
            node_unit_offset(blocks_view(blocks@), dn) == target - rtn,
            0 <= p0,
            p0 == loc_offset(bs0, old(cursor).start),
            target == p0 + retain_len,
            target - rtn <= blocks_chars(bs0).len(),
            blocks_chars(blocks_view(blocks@)).len() == blocks_chars(bs0).len(),
            chars_retained(
                blocks_chars(bs0),
                blocks_chars(blocks_view(blocks@)),
                p0,
                target - rtn,
                attr@,
            ),
            doc_fits(bs0),
            bs0 == blocks_view(old(blocks)@),
            attr.wf(),
            registry.wf(),
            delete_inv_canonical(blocks_view(blocks@), dn),
            forall|i: int|
                0 <= i < blocks@.len() ==> ((#[trigger] blocks_view(blocks@)[i]).attrs == bs0[
                    i
                ].attrs || blocks_view(blocks@)[i].attrs == spec_compose(
                    bs0[i].attrs,
                    attr@,
                    false,
                )),
            cursor.retain == old(cursor).retain,
            cursor.stop == old(cursor).stop,
        decreases rtn,
    {
        let ghost bs_a = blocks_view(blocks@);
        let ghost done = target - rtn;
        match dn {
            NodeAddr::Leaf { block, leaf } => {
                proof {
                    assert((#[trigger] blocks@[block as int]).wf());
                    assert((#[trigger] blocks@[block as int].children@[leaf as int]).wf());
                    crate::doc_node::lemma_leaves_take_snoc(
                        bs_a[block as int].children,
                        leaf as int,
                    );
                    crate::doc_node::lemma_leaves_prefix_le(bs_a[block as int].children, leaf + 1);
                    assert(doc_fits(bs_a));
                    crate::cursor::lemma_block_fits(bs_a, block as int);
                }
                let ln = blocks[block].children[leaf].op_len();
                if rtn < ln {
                    // The boundary falls inside the leaf: split first, then
                    // re-attribute the left half only.
                    let c2 = blocks[block].children.len();
                    split_text_node(blocks, block, leaf, rtn);
                    proof {
                        let bs_s = blocks_view(blocks@);
                        assert(bs_s.take(block as int) =~= bs_a.take(block as int));
                        assert(bs_s[block as int].children.take(leaf as int) =~= bs_a[
                            block as int
                        ].children.take(leaf as int));
                        assert(crate::cursor::leaf_start_offset(bs_s, block as int, leaf as int)
                            == done);
                        assert(bs_s[block as int].children.len() == bs_a[
                            block as int
                        ].children.len() + 1);
                        assert(leaf < blocks@[block as int].children@.len());
                        assert((#[trigger] blocks@[block as int]).wf());
                        assert((#[trigger] blocks@[block as int].children@[leaf as int]).wf());
                    }
                    let composed = {
                        let a = blocks[block].children[leaf].op.get_attributes();
                        crate::attributes::compose(a, &attr, false)
                    };
                    let ghost bs_t = blocks_view(blocks@);
                    proof {
                        crate::cursor::lemma_leaf_range_chars(bs_t, block as int, leaf as int);
                    }
                    replace_leaf_attrs(blocks, block, leaf, composed);
                    proof {
                        lemma_reattr_step(
                            bs0,
                            bs_a,
                            bs_t,
                            blocks_view(blocks@),
                            p0,
                            done,
                            rtn as int,
                            block as int,
                            leaf as int,
                            attr@,
                        );
                    }
                    dn = NodeAddr::Leaf { block, leaf: leaf + 1 };
                    proof {
                        let bs_c = blocks_view(blocks@);
                        assert(bs_c.take(block as int) =~= bs_a.take(block as int));
                        assert(bs_c[block as int].children.take(leaf as int) =~= bs_a[
                            block as int
                        ].children.take(leaf as int));
                        crate::doc_node::lemma_leaves_take_snoc(
                            bs_c[block as int].children,
                            leaf as int,
                        );
                        assert(node_unit_offset(bs_c, dn) == done + rtn);
                    }
                    left_merge(blocks, block, leaf, &mut dn);
                    rtn = 0;
                } else {
                    // Re-attribute the whole leaf.
                    let composed = {
                        let a = blocks[block].children[leaf].op.get_attributes();
                        crate::attributes::compose(a, &attr, false)
                    };
                    let ghost bs_t = blocks_view(blocks@);
                    proof {
                        crate::cursor::lemma_leaf_range_chars(bs_t, block as int, leaf as int);
                    }
                    replace_leaf_attrs(blocks, block, leaf, composed);
                    proof {
                        lemma_reattr_step(
                            bs0,
                            bs_a,
                            bs_t,
                            blocks_view(blocks@),
                            p0,
                            done,
                            ln as int,
                            block as int,
                            leaf as int,
                            attr@,
                        );
                    }
                    proof {
                        assert(blocks_view(blocks@)[block as int].children.len() == bs_a[
                            block as int
                        ].children.len());
                    }
                    let c = blocks[block].children.len();
                    if leaf + 1 < c {
                        dn = NodeAddr::Leaf { block, leaf: leaf + 1 };
                    } else {
                        dn = NodeAddr::Block { block };
                    }
                    proof {
                        let bs_c = blocks_view(blocks@);
                        assert(bs_c.take(block as int) =~= bs_a.take(block as int));
                        assert(bs_c[block as int].children.take(leaf as int) =~= bs_a[
                            block as int
                        ].children.take(leaf as int));
                        crate::doc_node::lemma_leaves_take_snoc(
                            bs_c[block as int].children,
                            leaf as int,
                        );
                        if leaf + 1 >= c {
                            assert(bs_c[block as int].children.take(leaf + 1) =~= bs_c[
                                block as int
                            ].children);
                        }
                        assert(node_unit_offset(bs_c, dn) == done + ln);
                    }
                    left_merge(blocks, block, leaf, &mut dn);
                    rtn = rtn - ln;
                }
            },
            NodeAddr::Block { block } => {
                proof {
                    assert((#[trigger] blocks@[block as int]).wf());
                    crate::cursor::lemma_unit_offset_in_doc(bs_a, dn);
                }
                let composed_r = retain_block_step(blocks, &attr, registry, block);
                match composed_r {
                    Ok(_) => {},
                    Err(e) => {
                        proof {
                            // The erroring block's current attributes are the
                            // initial ones, or the initial ones already
                            // composed once; composing is idempotent, so
                            // either way the composed attributes that failed
                            // are those of the initial block.
                            let comp_cur = spec_compose(bs_a[block as int].attrs, attr@, false);
                            let comp0 = spec_compose(bs0[block as int].attrs, attr@, false);
                            if bs_a[block as int].attrs == bs0[block as int].attrs {
                                assert(comp_cur == comp0);
                            } else {
                                crate::attributes::lemma_compose_idempotent(
                                    bs0[block as int].attrs,
                                    attr@,
                                );
                                assert(comp_cur == comp0);
                            }
                            assert(!crate::registry::newline_accepted(
                                registry.block_list(),
                                spec_compose(
                                    (#[trigger] blocks_view(old(blocks)@)[block as int]).attrs,
                                    attr@,
                                    false,
                                ),
                            ));
                            assert(blocks_chars(blocks_view(blocks@)).len() == blocks_chars(
                                bs0,
                            ).len());
                            assert(exists|i: int|
                                0 <= i < blocks_view(old(blocks)@).len()
                                    && !crate::registry::newline_accepted(
                                    registry.block_list(),
                                    spec_compose(
                                        (#[trigger] blocks_view(old(blocks)@)[i]).attrs,
                                        attr@,
                                        false,
                                    ),
                                ));
                        }
                        return Err(e);
                    },
                }
                proof {
                    lemma_block_step(
                        bs0,
                        bs_a,
                        blocks_view(blocks@),
                        blocks_view(blocks@),
                        p0,
                        done,
                        block as int,
                        attr@,
                    );
                }
                let n = blocks.len();
                if block + 1 < n {
                    let cc = blocks[block + 1].children.len();
                    if cc == 0 {
                        dn = NodeAddr::Block { block: block + 1 };
                    } else {
                        dn = NodeAddr::Leaf { block: block + 1, leaf: 0 };
                    }
                    proof {
                        let bs_b = blocks_view(blocks@);
                        crate::doc_node::lemma_blocks_take_snoc(bs_b, block as int);
                        assert(bs_b.take(block as int + 1) =~= bs_b.take(block as int).push(
                            bs_b[block as int],
                        ));
                        assert(bs_b.take(block as int) =~= bs_a.take(block as int));
                        assert(bs_b[block as int].children == bs_a[block as int].children);
                        if cc > 0 {
                            assert(bs_b[block + 1].children.take(0)
                                =~= Seq::<crate::doc_node::LeafV>::empty());
                        }
                        assert(node_unit_offset(bs_b, dn) == done + 1);
                        assert(crate::doc_node::block_canonical(bs_b[block + 1]));
                    }
                    rtn = rtn - 1;
                } else {
                    // The range ran past the last block: clamp at the end of
                    // its content.
                    proof {
                        let bs_b = blocks_view(blocks@);
                        assert(bs_b.take(block as int) =~= bs_a.take(block as int));
                        assert(bs_b[block as int].children == bs_a[block as int].children);
                        crate::doc_node::lemma_blocks_chars_split(bs_b, block as int);
                        assert(bs_b.skip(block + 1) =~= Seq::<crate::doc_node::BlockV>::empty());
                        assert(blocks_chars(Seq::<crate::doc_node::BlockV>::empty())
                            == Seq::<crate::doc_node::AttrChar>::empty());
                    }
                    cursor.set_cursor_to_doc_node_edge(blocks, dn, true);
                    finish_merge(blocks, cursor, dn);
                    proof {
                        assert(target - rtn + 1 == blocks_chars(bs0).len());
                    }
                    return Ok(());
                }
            },
        }
    }
    // The walk is done: park the cursor at the boundary and merge the seam.
    proof {
        match dn {
            NodeAddr::Leaf { block, leaf } => {
                assert((#[trigger] blocks@[block as int]).wf());
                assert((#[trigger] blocks@[block as int].children@[leaf as int]).wf());
            },
            _ => {},
        }
        crate::cursor::lemma_unit_offset_in_doc(blocks_view(blocks@), dn);
    }
    cursor.set_cursor_to_doc_node_edge(blocks, dn, true);
    finish_merge(blocks, cursor, dn);
    Ok(())
}

/// Merges the just-processed leaf with its left sibling when their
/// attributes now match, keeping the walk's current node address in step.
#[verifier::spinoff_prover]
#[verifier::rlimit(100)]
fn left_merge(blocks: &mut Vec<BlockNode>, block: usize, leaf: usize, dn: &mut NodeAddr)
    requires
        doc_blocks_wf(old(blocks)@),
        block < old(blocks)@.len(),
        leaf < blocks_view(old(blocks)@)[block as int].children.len(),
        (match *old(dn) {
            NodeAddr::Leaf { block: b2, leaf: l2 } => b2 == block && l2 == leaf + 1 && leaf + 1
                < blocks_view(old(blocks)@)[block as int].children.len(),
            NodeAddr::Block { block: b2 } => b2 == block && leaf + 1 == blocks_view(
                old(blocks)@,
            )[block as int].children.len(),
        }),
        crate::node_morph::canonical_except(
            blocks_view(old(blocks)@)[block as int].children,
            leaf as int,
        ),
        blocks_view(old(blocks)@)[block as int].placeholder == (blocks_view(old(blocks)@)[
            block as int
        ].children.len() == 0),
        forall|i: int|
            0 <= i < old(blocks)@.len() && i != block ==> crate::doc_node::block_canonical(
                #[trigger] blocks_view(old(blocks)@)[i],
            ),
    ensures
        doc_blocks_wf(final(blocks)@),
        final(blocks)@.len() == old(blocks)@.len(),
        blocks_chars(blocks_view(final(blocks)@)) == blocks_chars(blocks_view(old(blocks)@)),
        forall|i: int|
            0 <= i < old(blocks)@.len() && i != block ==> blocks_view(final(blocks)@)[i]
                == blocks_view(old(blocks)@)[i],
        blocks_view(final(blocks)@)[block as int].fmt == blocks_view(old(blocks)@)[
            block as int
        ].fmt,
        blocks_view(final(blocks)@)[block as int].attrs == blocks_view(old(blocks)@)[
            block as int
        ].attrs,
        blocks_view(final(blocks)@)[block as int].placeholder == blocks_view(old(blocks)@)[
            block as int
        ].placeholder,
        crate::tree_traverse::addr_valid(blocks_view(final(blocks)@), *final(dn)),
        node_unit_offset(blocks_view(final(blocks)@), *final(dn)) == node_unit_offset(
            blocks_view(old(blocks)@),
            *old(dn),
        ),
        delete_inv_canonical(blocks_view(final(blocks)@), *final(dn)),
        (*final(dn)) is Leaf <==> (*old(dn)) is Leaf,
{
    let ghost bs_a = blocks_view(old(blocks)@);
    let ghost ch_a = bs_a[block as int].children;
    if leaf > 0 {
        let eq = {
            proof {
                assert((#[trigger] blocks@[block as int]).wf());
                assert((#[trigger] blocks@[block as int].children@[leaf - 1]).wf());
                assert((#[trigger] blocks@[block as int].children@[leaf as int]).wf());
            }
            let left = &blocks[block].children[leaf - 1];
            let right = &blocks[block].children[leaf];
            left.op.get_attributes().is_equal(right.op.get_attributes())
        };
        if eq {
            merge_text_node(blocks, block, leaf - 1);
            match *dn {
                NodeAddr::Leaf { block: b2, leaf: l2 } => {
                    *dn = NodeAddr::Leaf { block: b2, leaf: l2 - 1 };
                },
                NodeAddr::Block { .. } => {},
            }
            proof {
                let bs_b = blocks_view(blocks@);
                let ch_b = bs_b[block as int].children;
                assert(bs_b.len() == bs_a.len());
                assert(bs_b.take(block as int) =~= bs_a.take(block as int));
                assert(ch_b == crate::node_morph::merge_leaf_children(ch_a, leaf - 1));
                assert(ch_b =~= ch_a.take(leaf - 1) + seq![
                    crate::doc_node::leaf_v(
                        ch_a[leaf - 1].text + ch_a[leaf as int].text,
                        ch_a[leaf - 1].attrs,
                    ),
                ] + ch_a.skip(leaf + 1));
                assert(ch_b.len() == ch_a.len() - 1);
                assert(ch_b.take(leaf - 1) =~= ch_a.take(leaf - 1));
                assert forall|i: int| 0 <= i < leaf - 1 implies #[trigger] ch_b[i] == ch_a[i] by {}
                assert forall|i: int| leaf <= i < ch_b.len() implies #[trigger] ch_b[i] == ch_a[i
                    + 1] by {}
                assert(ch_b[leaf - 1].attrs == ch_a[leaf - 1].attrs);
                assert forall|i: int| 0 <= i < bs_b.len() && i != block implies
                #[trigger] bs_b[i] == bs_a[i] by {}
                // The seam stays where the walk stands.
                crate::doc_node::lemma_leaves_take_snoc(ch_a, leaf - 1);
                crate::doc_node::lemma_leaves_take_snoc(ch_a, leaf as int);
                crate::doc_node::lemma_leaves_take_snoc(ch_b, leaf - 1);
                crate::doc_node::lemma_leaf_chars_text_concat(
                    ch_a[leaf - 1].text,
                    ch_a[leaf as int].text,
                    ch_a[leaf - 1].attrs,
                );
                assert(ch_b.take(leaf as int) =~= ch_b.take(leaf - 1).push(ch_b[leaf - 1]));
                assert(leaves_chars_len(ch_b.take(leaf as int)) == leaves_chars_len(
                    ch_a.take(leaf + 1),
                ));
                if *old(dn) is Block {
                    assert(ch_b.take(leaf as int) =~= ch_b);
                    assert(ch_a.take(leaf + 1) =~= ch_a);
                }
                assert forall|i: int|
                    0 <= i < ch_b.len() - 1 && i != seam_ix(*dn) - 1 implies (
                #[trigger] ch_b[i]).attrs != ch_b[i + 1].attrs by {
                    if i < leaf - 2 {
                        assert(ch_b[i] == ch_a[i] && ch_b[i + 1] == ch_a[i + 1]);
                        assert(ch_a[i].attrs != ch_a[i + 1].attrs);
                    } else if i == leaf - 2 {
                        assert(ch_b[i] == ch_a[i]);
                        assert(ch_b[i + 1].attrs == ch_a[leaf - 1].attrs);
                        assert(ch_a[leaf - 2].attrs != ch_a[leaf - 1].attrs);
                    } else if i == leaf - 1 {
                        assert(false);
                    } else {
                        assert(ch_b[i] == ch_a[i + 1] && ch_b[i + 1] == ch_a[i + 2]);
                        assert(ch_a[i + 1].attrs != ch_a[i + 2].attrs);
                    }
                }
            }
        }
    }
}

/// The number of characters a leaf list contributes.
pub open spec fn leaves_chars_len(ls: Seq<crate::doc_node::LeafV>) -> int {
    crate::doc_node::leaves_chars(ls).len() as int
}

/// Runs the closing three-way merge when the walk ended at a leaf boundary.
#[verifier::spinoff_prover]
#[verifier::rlimit(100)]
fn finish_merge(blocks: &mut Vec<BlockNode>, cursor: &mut Cursor, dn: NodeAddr)
    requires
        doc_blocks_wf(old(blocks)@),
        crate::tree_traverse::addr_valid(blocks_view(old(blocks)@), dn),
        delete_inv_canonical(blocks_view(old(blocks)@), dn),
        crate::cursor::loc_valid(blocks_view(old(blocks)@), old(cursor).start),
        old(cursor).start == (match dn {
            NodeAddr::Leaf { .. } => CursorLocation::Before(dn),
            NodeAddr::Block { block } => if blocks_view(old(blocks)@)[
                block as int
            ].children.len() == 0 {
                CursorLocation::At(dn, 0)
            } else {
                CursorLocation::After(
                    NodeAddr::Leaf {
                        block,
                        leaf: (blocks_view(old(blocks)@)[block as int].children.len()
                            - 1) as usize,
                    },
                )
            },
        }),
        cursor_synced(blocks_view(old(blocks)@), *old(cursor)),
    ensures
        doc_blocks_wf(final(blocks)@),
        doc_canonical(blocks_view(final(blocks)@)),
        blocks_chars(blocks_view(final(blocks)@)) == blocks_chars(blocks_view(old(blocks)@)),
        final(blocks)@.len() == old(blocks)@.len(),
        loc_valid(blocks_view(final(blocks)@), final(cursor).start),
        cursor_synced(blocks_view(final(blocks)@), *final(cursor)),
        loc_offset(blocks_view(final(blocks)@), final(cursor).start) == loc_offset(
            blocks_view(old(blocks)@),
            old(cursor).start,
        ),
        final(cursor).stop == old(cursor).stop,
        final(cursor).retain == old(cursor).retain,
{
    let ghost bs_f = blocks_view(old(blocks)@);
    match dn {
        NodeAddr::Leaf { block, leaf } => {
            proof {
                assert(crate::node_morph::loc_is_leafy(cursor.start));
                assert(crate::node_morph::loc_block(cursor.start) == block);
                assert(crate::node_morph::canonical_except(
                    bs_f[block as int].children,
                    crate::node_morph::pivot_of(cursor.start),
                ));
            }
            crate::node_morph::try_3_way_merge_text(blocks, cursor);
        },
        NodeAddr::Block { block } => {
            let cc = blocks[block].children.len();
            if cc > 0 {
                proof {
                    assert(crate::node_morph::loc_is_leafy(cursor.start));
                    assert(crate::node_morph::loc_block(cursor.start) == block);
                    assert(crate::node_morph::canonical_except(
                        bs_f[block as int].children,
                        crate::node_morph::pivot_of(cursor.start),
                    ));
                }
                crate::node_morph::try_3_way_merge_text(blocks, cursor);
            }
        },
    }
    proof {
        let bs1 = blocks_view(blocks@);
        assert forall|i: int| 0 <= i < bs1.len() implies crate::doc_node::block_canonical(
            #[trigger] bs1[i],
        ) by {
            if i != dn.spec_block_ix() {
                assert(bs1[i] == bs_f[i]);
            }
        }
    }
}

/// The character-stream effect of re-attributing the leaf at `(b, l)` with
/// its own attributes composed with `attr`: one more stretch of the walked
/// range is covered.
#[verifier::spinoff_prover]
#[verifier::rlimit(100)]
proof fn lemma_reattr_step(
    bs0: Seq<crate::doc_node::BlockV>,
    bs_a: Seq<crate::doc_node::BlockV>,
    bs_t: Seq<crate::doc_node::BlockV>,
    bs_b: Seq<crate::doc_node::BlockV>,
    p0: int,
    done: int,
    k: int,
    b: int,
    l: int,
    attr: Map<Seq<char>, crate::attr_val::AttrV>,
)
    requires
        p0 <= done,
        0 <= k,
        chars_retained(blocks_chars(bs0), blocks_chars(bs_a), p0, done, attr),
        blocks_chars(bs_t) == blocks_chars(bs_a),
        0 <= b < bs_t.len(),
        0 <= l < bs_t[b].children.len(),
        crate::cursor::leaf_start_offset(bs_t, b, l) == done,
        bs_t[b].children[l].text.len() == k,
        // The replacement's effect, as its contract states it.
        blocks_chars(bs_b).len() == blocks_chars(bs_t).len(),
        forall|i: int|
            0 <= i < blocks_chars(bs_t).len() ==> #[trigger] blocks_chars(bs_b)[i] == (if
            crate::cursor::leaf_start_offset(bs_t, b, l) <= i < crate::cursor::leaf_start_offset(
                bs_t,
                b,
                l,
            ) + bs_t[b].children[l].text.len() {
                crate::doc_node::attr_char(
                    blocks_chars(bs_t)[i].c,
                    spec_compose(bs_t[b].children[l].attrs, attr, false),
                )
            } else {
                blocks_chars(bs_t)[i]
            }),
        // The leaf's characters carry its attributes.
        forall|i: int|
            crate::cursor::leaf_start_offset(bs_t, b, l) <= i < crate::cursor::leaf_start_offset(
                bs_t,
                b,
                l,
            ) + bs_t[b].children[l].text.len() ==> (#[trigger] blocks_chars(bs_t)[i]).a == bs_t[
                b
            ].children[l].attrs,
        done + k <= blocks_chars(bs0).len(),
    ensures
        chars_retained(blocks_chars(bs0), blocks_chars(bs_b), p0, done + k, attr),
{
    assert forall|i: int| 0 <= i < blocks_chars(bs0).len() implies #[trigger] blocks_chars(
        bs_b,
    )[i] == (if p0 <= i < done + k {
        crate::doc_node::attr_char(
            blocks_chars(bs0)[i].c,
            spec_compose(blocks_chars(bs0)[i].a, attr, false),
        )
    } else {
        blocks_chars(bs0)[i]
    }) by {
        assert(blocks_chars(bs_a)[i] == (if p0 <= i < done {
            crate::doc_node::attr_char(
                blocks_chars(bs0)[i].c,
                spec_compose(blocks_chars(bs0)[i].a, attr, false),
            )
        } else {
            blocks_chars(bs0)[i]
        }));
        if done <= i < done + k {
            assert(blocks_chars(bs_t)[i].a == bs_t[b].children[l].attrs);
            assert(blocks_chars(bs_t)[i] == blocks_chars(bs0)[i]);
        }
    }
}


/// One block of the walked range: compose the incoming attributes onto the
/// block's own and convert it through the registry-resolved block format.
/// The conversion happens via the plain paragraph, as every block format
/// converts to and from it.
#[verifier::spinoff_prover]
#[verifier::rlimit(100)]
fn retain_block_step(
    blocks: &mut Vec<BlockNode>,
    attr: &Attributes,
    registry: &Registry,
    block: usize,
) -> (r: Result<(), Error>)
    requires
        doc_blocks_wf(old(blocks)@),
        block < old(blocks)@.len(),
        attr.wf(),
        registry.wf(),
    ensures
        doc_blocks_wf(final(blocks)@),
        final(blocks)@.len() == old(blocks)@.len(),
        (match r {
            Ok(_) => {
                &&& blocks_view(final(blocks)@) == blocks_view(old(blocks)@).update(
                    block as int,
                    crate::block::block_transformed(
                        blocks_view(old(blocks)@)[block as int],
                        blocks_view(final(blocks)@)[block as int].fmt,
                        spec_compose(
                            blocks_view(old(blocks)@)[block as int].attrs,
                            attr@,
                            false,
                        ),
                    ),
                )
                &&& blocks_chars(blocks_view(final(blocks)@)) == blocks_chars(
                    blocks_view(old(blocks)@),
                ).update(
                    crate::doc_node::block_nl_offset(blocks_view(old(blocks)@), block as int),
                    crate::doc_node::attr_char(
                        '\n',
                        spec_compose(
                            blocks_view(old(blocks)@)[block as int].attrs,
                            attr@,
                            false,
                        ),
                    ),
                )
            },
            Err(_) => {
                &&& forall|i: int|
                    0 <= i < old(blocks)@.len() ==> (#[trigger] blocks_view(final(blocks)@)[
                        i
                    ]).attrs == blocks_view(old(blocks)@)[i].attrs && blocks_view(
                        final(blocks)@,
                    )[i].children == blocks_view(old(blocks)@)[i].children && blocks_view(
                        final(blocks)@,
                    )[i].placeholder == blocks_view(old(blocks)@)[i].placeholder
                &&& blocks_chars(blocks_view(final(blocks)@)) == blocks_chars(
                    blocks_view(old(blocks)@),
                )
                &&& !crate::registry::newline_accepted(
                    registry.block_list(),
                    spec_compose(blocks_view(old(blocks)@)[block as int].attrs, attr@, false),
                )
            },
        }),
{
    let ghost bs_a = blocks_view(old(blocks)@);
    let composed = {
        let a = blocks[block].op.get_attributes();
        proof {
            assert((#[trigger] blocks@[block as int]).wf());
        }
        crate::attributes::compose(a, attr, false)
    };
    let op2 = DeltaOperation::insert_attr("\n", composed);
    proof {
        reveal_strlit("\n");
        assert(op2.text() =~= seq!['\n']);
        assert(crate::formatter::spec_is_newline(&op2));
    }
    let format = match registry.block_format(&op2) {
        Ok(f) => f,
        Err(e) => {
            proof {
                crate::registry::lemma_nl_match_bridge(registry.block_list(), &op2);
            }
            return Err(e);
        },
    };
    proof {
        crate::registry::lemma_first_match_props(registry.block_list(), &op2);
        registry.lemma_wf_kinds();
    }
    crate::block::un_block_transform(blocks, block);
    let ghost bs_u = blocks_view(blocks@);
    match crate::block::block_transform(blocks, block, op2, format) {
        Ok(_) => {
            proof {
                let bs_b = blocks_view(blocks@);
                assert(bs_b =~~= bs_a.update(
                    block as int,
                    crate::block::block_transformed(
                        bs_a[block as int],
                        bs_b[block as int].fmt,
                        spec_compose(bs_a[block as int].attrs, attr@, false),
                    ),
                ));
                assert(crate::doc_node::block_nl_offset(bs_u, block as int)
                    == crate::doc_node::block_nl_offset(bs_a, block as int)) by {
                    assert(bs_u.take(block as int) =~= bs_a.take(block as int));
                    assert(bs_u[block as int].children == bs_a[block as int].children);
                }
            }
            Ok(())
        },
        Err(_) => {
            proof {
                let bs_b = blocks_view(blocks@);
                assert forall|i: int| 0 <= i < bs_a.len() implies (#[trigger] bs_b[i]).attrs
                    == bs_a[i].attrs && bs_b[i].children == bs_a[i].children && bs_b[i].placeholder
                    == bs_a[i].placeholder by {
                    if i != block {
                        assert(bs_b[i] == bs_a[i]);
                    }
                }
                crate::registry::lemma_nl_match_bridge(registry.block_list(), &op2);
                crate::registry::lemma_first_match_props(registry.block_list(), &op2);
            }
            Err(Error::WrongFormatKind)
        },
    }
}

/// The character-stream effect of converting the block at `b` to the format
/// and attributes of the composed operation.
#[verifier::spinoff_prover]
#[verifier::rlimit(100)]
proof fn lemma_block_step(
    bs0: Seq<crate::doc_node::BlockV>,
    bs_a: Seq<crate::doc_node::BlockV>,
    bs_u: Seq<crate::doc_node::BlockV>,
    bs_b: Seq<crate::doc_node::BlockV>,
    p0: int,
    done: int,
    b: int,
    attr: Map<Seq<char>, crate::attr_val::AttrV>,
)
    requires
        p0 <= done,
        chars_retained(blocks_chars(bs0), blocks_chars(bs_a), p0, done, attr),
        0 <= b < bs_a.len(),
        crate::doc_node::block_nl_offset(bs_a, b) == done,
        done + 1 <= blocks_chars(bs0).len(),
        bs_u == bs_b,
        bs_b == bs_a.update(
            b,
            crate::block::block_transformed(
                bs_a[b],
                bs_b[b].fmt,
                spec_compose(bs_a[b].attrs, attr, false),
            ),
        ),
        blocks_chars(bs_b) == blocks_chars(bs_a).update(
            crate::doc_node::block_nl_offset(bs_a, b),
            crate::doc_node::attr_char('\n', spec_compose(bs_a[b].attrs, attr, false)),
        ),
    ensures
        chars_retained(blocks_chars(bs0), blocks_chars(bs_b), p0, done + 1, attr),
        blocks_chars(bs_b).len() == blocks_chars(bs0).len(),
{
    crate::doc_node::lemma_chars_update_block(bs_a, b, bs_a[b]);
    assert(bs_a.update(b, bs_a[b]) =~= bs_a);
    assert(blocks_chars(bs_a)[done].a == bs_a[b].attrs) by {
        let pre = blocks_chars(bs_a.take(b)) + crate::doc_node::leaves_chars(bs_a[b].children);
        assert(blocks_chars(bs_a) =~= pre + seq![
            crate::doc_node::attr_char('\n', bs_a[b].attrs),
        ] + blocks_chars(bs_a.skip(b + 1)));
        assert(pre.len() == done);
    }
    assert forall|i: int| 0 <= i < blocks_chars(bs0).len() implies #[trigger] blocks_chars(
        bs_b,
    )[i] == (if p0 <= i < done + 1 {
        crate::doc_node::attr_char(
            blocks_chars(bs0)[i].c,
            spec_compose(blocks_chars(bs0)[i].a, attr, false),
        )
    } else {
        blocks_chars(bs0)[i]
    }) by {
        assert(blocks_chars(bs_a)[i] == (if p0 <= i < done {
            crate::doc_node::attr_char(
                blocks_chars(bs0)[i].c,
                spec_compose(blocks_chars(bs0)[i].a, attr, false),
            )
        } else {
            blocks_chars(bs0)[i]
        }));
        if i == done {
            assert(blocks_chars(bs_a)[done] == blocks_chars(bs0)[done]);
        }
    }
}

impl Cursor {
    /// Advances the cursor by just one character; no content changes.
    /// Advancing past the last position of the document -- the edge before
    /// the final line terminator -- is a reported error.
    pub fn advance(&mut self, blocks: &Vec<BlockNode>) -> (r: Result<(), Error>)
        requires
            doc_ready(blocks@),
            loc_valid(blocks_view(blocks@), old(self).start),
            cursor_synced(blocks_view(blocks@), *old(self)),
        ensures
            (match r {
                Ok(_) => {
                    &&& loc_valid(blocks_view(blocks@), final(self).start)
                    &&& cursor_synced(blocks_view(blocks@), *final(self))
                    &&& final(self).retain == old(self).retain + 1
                    &&& old(self).retain + 1 + 1 <= blocks_chars(blocks_view(blocks@)).len()
                    &&& final(self).stop == old(self).stop
                },
                Err(_) => *final(self) == *old(self) && old(self).retain + 1 + 1 > blocks_chars(
                    blocks_view(blocks@),
                ).len(),
            }),
    {
        proof {
            crate::cursor::lemma_loc_offset_bound(blocks_view(blocks@), self.start);
        }
        let total = crate::doc_node::doc_len(blocks);
        let retain = self.get_retain_index();
        if total - retain < 2 {
            return Err(Error::AdvanceBeyondEnd);
        }
        self.set_retain_index(retain + 1);
        retain_length(blocks, self, 1);
        Ok(())
    }

    /// Moves the cursor back by just one character; no content changes.
    /// Moving back from the start of the document is a reported error.
    pub fn backspace(&mut self, blocks: &Vec<BlockNode>) -> (r: Result<(), Error>)
        requires
            doc_ready(blocks@),
            loc_valid(blocks_view(blocks@), old(self).start),
            cursor_synced(blocks_view(blocks@), *old(self)),
        ensures
            (match r {
                Ok(_) => {
                    &&& loc_valid(blocks_view(blocks@), final(self).start)
                    &&& cursor_synced(blocks_view(blocks@), *final(self))
                    &&& final(self).retain == old(self).retain - 1
                    &&& old(self).retain >= 1
                    &&& final(self).stop == old(self).stop
                },
                Err(_) => *final(self) == *old(self) && old(self).retain == 0,
            }),
    {
        proof {
            crate::cursor::lemma_loc_offset_bound(blocks_view(blocks@), self.start);
        }
        let retain = self.get_retain_index();
        if retain == 0 {
            return Err(Error::BackspaceBeyondStart);
        }
        let target = retain - 1;
        // Walk to the target from the start of the document.
        let first = crate::tree_traverse::first_node(blocks);
        match first {
            NodeAddr::Leaf { .. } => {
                self.set_before_no_retain_update(first);
            },
            NodeAddr::Block { .. } => {
                self.set_at_no_retain_update(first, 0);
            },
        }
        proof {
            let bs = blocks_view(blocks@);
            assert(bs.take(0) =~= Seq::<crate::doc_node::BlockV>::empty());
            assert(blocks_chars(Seq::<crate::doc_node::BlockV>::empty())
                =~= Seq::<crate::doc_node::AttrChar>::empty());
            assert(crate::doc_node::leaves_chars(Seq::<crate::doc_node::LeafV>::empty())
                =~= Seq::<crate::doc_node::AttrChar>::empty());
            match first {
                NodeAddr::Block { block } => {
                    assert(bs[0].children.take(0) =~= Seq::<crate::doc_node::LeafV>::empty());
                },
                _ => {},
            }
            assert(loc_offset(bs, self.start) == 0);
        }
        self.set_retain_index(target);
        retain_length(blocks, self, target);
        Ok(())
    }

    /// The number of characters between the cursor's start and stop
    /// locations; zero when no selection is set.
    pub fn selection_length(&self, blocks: &Vec<BlockNode>) -> (r: usize)
        requires
            doc_ready(blocks@),
            loc_valid(blocks_view(blocks@), self.start),
            !(self.stop is Unset) ==> loc_valid(blocks_view(blocks@), self.stop) && loc_offset(
                blocks_view(blocks@),
                self.stop,
            ) >= loc_offset(blocks_view(blocks@), self.start),
        ensures
            self.stop is Unset ==> r == 0,
            !(self.stop is Unset) ==> r == loc_offset(blocks_view(blocks@), self.stop)
                - loc_offset(blocks_view(blocks@), self.start),
    {
        if !self.is_selection() {
            return 0;
        }
        let a = self.calculate_retain_index(blocks);
        let probe = Cursor { retain: 0, start: self.get_select_stop(), stop: CursorLocation::Unset };
        let b = probe.calculate_retain_index(blocks);
        proof {
            assert(b == loc_offset(blocks_view(blocks@), self.stop));
            assert(a == loc_offset(blocks_view(blocks@), self.start));
        }
        b - a
    }
}

/// Restores a cursor from absolute positions: the start lands `retain_index`
/// characters in, and a positive `selection_length` sets the stop that many
/// characters further; both clamp at the end of the last block's content.
pub fn set_cursor_selection(
    blocks: &Vec<BlockNode>,
    cursor: &mut Cursor,
    retain_index: usize,
    selection_length: usize,
) -> (r: Result<(), Error>)
    requires
        doc_ready(blocks@),
        retain_index + selection_length <= usize::MAX,
    ensures
        r is Ok,
        loc_valid(blocks_view(blocks@), final(cursor).start),
        cursor_synced(blocks_view(blocks@), *final(cursor)),
        loc_offset(blocks_view(blocks@), final(cursor).start) == (if retain_index + 1
            <= blocks_chars(blocks_view(blocks@)).len() {
            retain_index as int
        } else {
            blocks_chars(blocks_view(blocks@)).len() - 1
        }),
        selection_length == 0 ==> final(cursor).stop is Unset,
        selection_length > 0 ==> !(final(cursor).stop is Unset) && loc_valid(
            blocks_view(blocks@),
            final(cursor).stop,
        ) && loc_offset(blocks_view(blocks@), final(cursor).stop) == (if loc_offset(
            blocks_view(blocks@),
            final(cursor).start,
        ) + selection_length + 1 <= blocks_chars(blocks_view(blocks@)).len() {
            loc_offset(blocks_view(blocks@), final(cursor).start) + selection_length
        } else {
            blocks_chars(blocks_view(blocks@)).len() - 1
        }),
{
    let first = crate::tree_traverse::first_node(blocks);
    match first {
        NodeAddr::Leaf { .. } => {
            cursor.set_before_no_retain_update(first);
        },
        NodeAddr::Block { .. } => {
            cursor.set_at_no_retain_update(first, 0);
        },
    }
    proof {
        let bs = blocks_view(blocks@);
        assert(bs.take(0) =~= Seq::<crate::doc_node::BlockV>::empty());
        assert(blocks_chars(Seq::<crate::doc_node::BlockV>::empty())
            =~= Seq::<crate::doc_node::AttrChar>::empty());
        assert(crate::doc_node::leaves_chars(Seq::<crate::doc_node::LeafV>::empty())
            =~= Seq::<crate::doc_node::AttrChar>::empty());
        match first {
            NodeAddr::Block { block } => {
                assert(bs[0].children.take(0) =~= Seq::<crate::doc_node::LeafV>::empty());
            },
            _ => {},
        }
        assert(loc_offset(bs, cursor.start) == 0);
    }
    cursor.set_retain_index(retain_index);
    retain_length(blocks, cursor, retain_index);
    if selection_length > 0 {
        let mut probe = Cursor { retain: 0, start: cursor.get_select_start(), stop: CursorLocation::Unset };
        probe.set_retain_index(cursor.get_retain_index() + selection_length);
        proof {
            crate::cursor::lemma_loc_offset_bound(blocks_view(blocks@), cursor.start);
        }
        retain_length(blocks, &mut probe, selection_length);
        cursor.set_select_stop(probe.get_select_start());
    } else {
        cursor.set_select_stop(CursorLocation::Unset);
    }
    Ok(())
}

} // verus!
