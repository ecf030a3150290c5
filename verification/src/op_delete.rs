//! The delete operation: removing characters from the document.
//!
//! Deleting happens after the cursor, so the cursor keeps its absolute
//! offset; whole nodes are consumed while the count covers them.  Consuming a
//! non-empty block's line terminator relocates its children to the front of
//! the following block, which keeps its own format and attributes: deleting a
//! line break merges two lines under the second line's formatting.  Deleting
//! the document's last line terminator is a reported error.

use crate::auto_soft_break::AutomaticSoftBreak;
use crate::cursor::{cursor_synced, loc_valid, node_unit_offset, Cursor, CursorLocation, NodeAddr};
use crate::doc_node::{
    blocks_chars, blocks_view, chars_removed, doc_blocks_wf, doc_fits, BlockNode,
};
use crate::error::Error;
use crate::node_morph::{delete_node, delete_text, merge_block_into_next, split_text_node};
use crate::op_insert::{doc_ready, pairs_differ_except};
use vstd::prelude::*;

verus! {

/// The seam: the index of the one leaf pair of the addressed node's block
/// that repeated deletions may have left with equal attributes.
pub open spec fn seam_ix(addr: NodeAddr) -> int {
    match addr {
        NodeAddr::Leaf { leaf, .. } => leaf as int,
        NodeAddr::Block { .. } => 0,
    }
}

/// The state the delete loop maintains: every block canonical but the
/// addressed one, whose leaves may share attributes at the seam only.
pub open spec fn delete_inv_canonical(bs: Seq<crate::doc_node::BlockV>, addr: NodeAddr) -> bool {
    &&& forall|i: int|
        0 <= i < bs.len() && i != addr.spec_block_ix() ==> crate::doc_node::block_canonical(
            #[trigger] bs[i],
        )
    &&& bs[addr.spec_block_ix()].placeholder == (bs[addr.spec_block_ix()].children.len() == 0)
    &&& pairs_differ_except(bs[addr.spec_block_ix()].children, seam_ix(addr))
}

/// Deletes `delete_len` characters at the cursor, which keeps its absolute
/// offset.  The document loses exactly the characters at offsets `[p, p +
/// delete_len)`, where `p` is the cursor's offset; the deletion succeeds
/// exactly when that range stays clear of the last line terminator.  On an
/// error the tree may have been partly mutated and the caller must treat the
/// document as needing re-synchronization.
#[verifier::spinoff_prover]
#[verifier::rlimit(100)]
pub fn delete(blocks: &mut Vec<BlockNode>, cursor: &mut Cursor, delete_len: usize) -> (r: Result<
    (),
    Error,
>)
    requires
        doc_ready(old(blocks)@),
        loc_valid(blocks_view(old(blocks)@), old(cursor).start),
        cursor_synced(blocks_view(old(blocks)@), *old(cursor)),
    ensures
        doc_blocks_wf(final(blocks)@),
        (match r {
            Ok(_) => {
                &&& old(cursor).retain + delete_len + 1 <= blocks_chars(
                    blocks_view(old(blocks)@),
                ).len()
                &&& doc_ready(final(blocks)@)
                &&& chars_removed(
                    blocks_chars(blocks_view(old(blocks)@)),
                    blocks_chars(blocks_view(final(blocks)@)),
                    old(cursor).retain as int,
                    delete_len as int,
                )
                &&& loc_valid(blocks_view(final(blocks)@), final(cursor).start)
                &&& cursor_synced(blocks_view(final(blocks)@), *final(cursor))
                &&& final(cursor).retain == old(cursor).retain
                &&& final(cursor).stop == old(cursor).stop
            },
            Err(_) => old(cursor).retain + delete_len + 1 > blocks_chars(
                blocks_view(old(blocks)@),
            ).len(),
        }),
{
    let ghost bs0 = blocks_view(old(blocks)@);
    let ghost p0 = old(cursor).retain as int;
    proof {
        crate::cursor::lemma_loc_offset_bound(bs0, old(cursor).start);
    }
    // Establish the starting node: the node whose content begins at the
    // cursor's offset, splitting a leaf the cursor stands inside.
    let loc = cursor.get_location();
    let mut dn: NodeAddr = match loc {
        CursorLocation::Before(NodeAddr::Leaf { block, leaf }) => NodeAddr::Leaf { block, leaf },
        CursorLocation::After(NodeAddr::Leaf { block, leaf }) => {
            let c = blocks[block].children.len();
            proof {
                crate::doc_node::lemma_leaves_take_snoc(bs0[block as int].children, leaf as int);
                if leaf + 1 == c {
                    assert(bs0[block as int].children.take(c as int) =~= bs0[
                        block as int
                    ].children);
                }
            }
            if leaf + 1 < c {
                NodeAddr::Leaf { block, leaf: leaf + 1 }
            } else {
                NodeAddr::Block { block }
            }
        },
        CursorLocation::At(NodeAddr::Leaf { block, leaf }, idx) => {
            let c = blocks[block].children.len();
            split_text_node(blocks, block, leaf, idx);
            cursor.set_after_no_retain_update(NodeAddr::Leaf { block, leaf });
            proof {
                let bs_s = blocks_view(blocks@);
                let ch0 = bs0[block as int].children;
                let left = crate::doc_node::leaf_v(
                    ch0[leaf as int].text.take(idx as int),
                    ch0[leaf as int].attrs,
                );
                crate::op_insert::lemma_split_pairs(ch0, leaf as int, idx as int);
                assert(bs_s.take(block as int) =~= bs0.take(block as int));
                assert(bs_s[block as int].children.take(leaf + 1) =~= ch0.take(leaf as int)
                    + seq![left]);
                crate::doc_node::lemma_leaves_chars_concat(ch0.take(leaf as int), seq![left]);
                crate::doc_node::lemma_leaves_chars_singleton(left);
            }
            NodeAddr::Leaf { block, leaf: leaf + 1 }
        },
        CursorLocation::At(NodeAddr::Block { block }, _) => NodeAddr::Block { block },
        _ => {
            proof {
                assert(false);
            }
            return Err(Error::UnexepectedCursorPosNone);
        },
    };
    let mut del: usize = delete_len;
    proof {
        let bs = blocks_view(blocks@);
        assert(blocks_chars(bs) == blocks_chars(bs0));
        assert(chars_removed(blocks_chars(bs0), blocks_chars(bs), p0, 0)) by {
            assert(blocks_chars(bs0).take(p0) + blocks_chars(bs0).skip(p0) =~= blocks_chars(
                bs0,
            ));
        }
        assert(crate::tree_traverse::addr_valid(bs, dn));
        assert(node_unit_offset(bs, dn) == p0);
        assert(delete_inv_canonical(bs, dn));
    }
    while del > 0
        invariant
            doc_blocks_wf(blocks@),
            blocks@.len() >= 1,
            del <= delete_len,
            crate::tree_traverse::addr_valid(blocks_view(blocks@), dn),
            node_unit_offset(blocks_view(blocks@), dn) == p0,
            0 <= p0,
            p0 == old(cursor).retain,
            bs0 == blocks_view(old(blocks)@),
            p0 + (delete_len - del) <= blocks_chars(bs0).len(),
            chars_removed(
                blocks_chars(bs0),
                blocks_chars(blocks_view(blocks@)),
                p0,
                delete_len - del,
            ),
            doc_fits(bs0),
            delete_inv_canonical(blocks_view(blocks@), dn),
            cursor.retain == old(cursor).retain,
            cursor.stop == old(cursor).stop,
        decreases del,
    {
        let ghost bs_a = blocks_view(blocks@);
        let ghost consumed = delete_len - del;
        match dn {
            NodeAddr::Leaf { block, leaf } => {
                proof {
                    assert((#[trigger] blocks@[block as int]).wf());
                    assert((#[trigger] blocks@[block as int].children@[leaf as int]).wf());
                }
                let ln = blocks[block].children[leaf].op_len();
                proof {
                    crate::doc_node::lemma_leaves_take_snoc(
                        bs_a[block as int].children,
                        leaf as int,
                    );
                    crate::doc_node::lemma_leaves_prefix_le(bs_a[block as int].children, leaf + 1);
                    assert(blocks_chars(bs_a).len() <= blocks_chars(bs0).len()) by {
                        assert(blocks_chars(bs0).take(p0).len() == p0);
                    }
                    assert(doc_fits(bs_a));
                    crate::cursor::lemma_block_fits(bs_a, block as int);
                    crate::cursor::lemma_unit_offset_in_doc(bs_a, dn);
                }
                if del < ln {
                    // A partial delete inside the leaf ends the walk.
                    delete_text(blocks, block, leaf, 0, del);
                    proof {
                        let bs_b = blocks_view(blocks@);
                        lemma_step(bs0, bs_a, bs_b, p0, consumed, del as int);
                        assert(bs_b.take(block as int) =~= bs_a.take(block as int));
                        assert(bs_b[block as int].children.take(leaf as int) =~= bs_a[
                            block as int
                        ].children.take(leaf as int));
                        assert forall|i: int|
                            0 <= i < bs_b.len() && i != block implies
                        crate::doc_node::block_canonical(#[trigger] bs_b[i]) by {
                            assert(bs_b[i] == bs_a[i]);
                        }
                        assert forall|i: int|
                            0 <= i < bs_b[block as int].children.len() - 1 && i != leaf - 1 implies
                        (#[trigger] bs_b[block as int].children[i]).attrs != bs_b[
                            block as int
                        ].children[i + 1].attrs by {
                            assert((bs_b[block as int].children[i]).attrs == (bs_a[
                                block as int
                            ].children[i]).attrs);
                            assert((bs_b[block as int].children[i + 1]).attrs == (bs_a[
                                block as int
                            ].children[i + 1]).attrs);
                        }
                    }
                    del = 0;
                } else {
                    // Consume the whole leaf; an emptied block regains its
                    // placeholder.
                    delete_node(blocks, dn);
                    if blocks[block].children.len() == 0 {
                        let rr = AutomaticSoftBreak::insert(blocks, block);
                        proof {
                            assert(rr is Ok || blocks_view(blocks@)[block as int].placeholder);
                        }
                    }
                    let c = blocks[block].children.len();
                    if leaf < c {
                        dn = NodeAddr::Leaf { block, leaf };
                    } else {
                        dn = NodeAddr::Block { block };
                    }
                    proof {
                        let bs_b = blocks_view(blocks@);
                        lemma_step(bs0, bs_a, bs_b, p0, consumed, ln as int);
                        assert(bs_b.take(block as int) =~= bs_a.take(block as int));
                        assert(bs_b[block as int].children.take(leaf as int) =~= bs_a[
                            block as int
                        ].children.take(leaf as int));
                        if leaf >= c {
                            assert(bs_b[block as int].children.take(leaf as int) =~= bs_b[
                                block as int
                            ].children);
                        }
                        assert(node_unit_offset(bs_b, dn) == p0);
                        assert forall|i: int|
                            0 <= i < bs_b.len() && i != block implies
                        crate::doc_node::block_canonical(#[trigger] bs_b[i]) by {
                            assert(bs_b[i] == bs_a[i]);
                        }
                        let cha = bs_a[block as int].children;
                        let chb = bs_b[block as int].children;
                        assert forall|i: int|
                            0 <= i < chb.len() - 1 && i != leaf - 1 implies (
                        #[trigger] chb[i]).attrs != chb[i + 1].attrs by {
                            if i < leaf - 1 {
                                assert(chb[i] == cha[i] && chb[i + 1] == cha[i + 1]);
                            } else {
                                assert(chb[i] == cha[i + 1] && chb[i + 1] == cha[i + 2]);
                                assert(cha[i + 1].attrs != cha[i + 2].attrs);
                            }
                        }
                    }
                    del = del - ln;
                }
            },
            NodeAddr::Block { block } => {
                let n = blocks.len();
                if block + 1 >= n {
                    // The last line terminator can never be deleted.
                    proof {
                        lemma_last_nl(
                            bs0,
                            blocks_view(blocks@),
                            p0,
                            delete_len - del,
                            block as int,
                        );
                        assert(p0 + delete_len + 1 > blocks_chars(bs0).len());
                    }
                    return Err(Error::DeletingLastBlock);
                }
                proof {
                    crate::cursor::lemma_unit_offset_in_doc(bs_a, dn);
                }
                let empty = blocks[block].children.len() == 0;
                if empty {
                    // An empty block is removed outright.
                    delete_node(blocks, dn);
                    let cc = blocks[block].children.len();
                    if cc == 0 {
                        dn = NodeAddr::Block { block };
                    } else {
                        dn = NodeAddr::Leaf { block, leaf: 0 };
                    }
                    proof {
                        let bs_b = blocks_view(blocks@);
                        lemma_step(bs0, bs_a, bs_b, p0, consumed, 1);
                        assert(bs_b.take(block as int) =~= bs_a.take(block as int));
                        assert(bs_a[block as int].children
                            =~= Seq::<crate::doc_node::LeafV>::empty());
                        assert(crate::doc_node::leaves_chars(
                            Seq::<crate::doc_node::LeafV>::empty(),
                        ) == Seq::<crate::doc_node::AttrChar>::empty());
                        assert(bs_b[block as int] == bs_a[block + 1]);
                        assert(bs_b[block as int].children.take(0)
                            =~= Seq::<crate::doc_node::LeafV>::empty());
                        assert(node_unit_offset(bs_b, dn) == p0);
                        assert forall|i: int|
                            0 <= i < bs_b.len() && i != block implies
                        crate::doc_node::block_canonical(#[trigger] bs_b[i]) by {
                            if i < block {
                                assert(bs_b[i] == bs_a[i]);
                            } else {
                                assert(bs_b[i] == bs_a[i + 1]);
                            }
                        }
                        assert(crate::doc_node::block_canonical(bs_a[block + 1]));
                    }
                } else {
                    // Consuming a non-empty block's terminator: its children
                    // move to the front of the following block.
                    if blocks[block + 1].children.len() == 0 {
                        let rr = AutomaticSoftBreak::remove(blocks, block + 1);
                    }
                    let ghost bs_r = blocks_view(blocks@);
                    let moved = blocks[block].children.len();
                    let follow = blocks[block + 1].children.len();
                    merge_block_into_next(blocks, block);
                    if follow > 0 {
                        dn = NodeAddr::Leaf { block, leaf: moved };
                    } else {
                        dn = NodeAddr::Block { block };
                    }
                    proof {
                        let bs_b = blocks_view(blocks@);
                        let cha = bs_r[block as int].children;
                        let chf = bs_r[block + 1].children;
                        assert(blocks_chars(bs_r) == blocks_chars(bs_a));
                        assert(bs_r.take(block as int) =~= bs_a.take(block as int));
                        assert(crate::doc_node::block_nl_offset(bs_r, block as int) == p0);
                        lemma_step(bs0, bs_a, bs_b, p0, consumed, 1);
                        assert(bs_b.take(block as int) =~= bs_a.take(block as int));
                        assert(bs_b[block as int].children =~= cha + chf);
                        assert(bs_b[block as int].children.take(moved as int) =~= cha);
                        crate::doc_node::lemma_leaves_chars_concat(cha, chf);
                        assert(node_unit_offset(bs_b, dn) == p0);
                        assert forall|i: int|
                            0 <= i < bs_b.len() && i != block implies
                        crate::doc_node::block_canonical(#[trigger] bs_b[i]) by {
                            if i < block {
                                assert(bs_b[i] == bs_r[i]);
                                assert(bs_r[i] == bs_a[i]);
                            } else {
                                assert(bs_b[i] == bs_r[i + 1]);
                                assert(bs_r[i + 1] == bs_a[i + 1]);
                            }
                        }
                        let chb = bs_b[block as int].children;
                        assert forall|i: int|
                            0 <= i < chb.len() - 1 && i != seam_ix(dn) - 1 implies (
                        #[trigger] chb[i]).attrs != chb[i + 1].attrs by {
                            if i < moved - 1 {
                                assert(chb[i] == cha[i] && chb[i + 1] == cha[i + 1]);
                            } else if i == moved - 1 {
                                assert(follow == 0);
                                assert(false);
                            } else {
                                assert(chb[i] == chf[i - moved] && chb[i + 1] == chf[i + 1
                                    - moved]);
                                assert(crate::doc_node::block_canonical(bs_a[block + 1]));
                            }
                        }
                        assert(bs_b[block as int].placeholder == (chb.len() == 0));
                    }
                }
                del = del - 1;
            },
        }
    }
    // The walk is done: park the cursor at the deletion point and merge the
    // seam.
    let ghost bs_f = blocks_view(blocks@);
    proof {
        match dn {
            NodeAddr::Leaf { block, leaf } => {
                assert((#[trigger] blocks@[block as int]).wf());
                assert((#[trigger] blocks@[block as int].children@[leaf as int]).wf());
            },
            _ => {},
        }
        crate::cursor::lemma_unit_offset_in_doc(bs_f, dn);
    }
    cursor.set_cursor_to_doc_node_edge(blocks, dn, true);
    match dn {
        NodeAddr::Leaf { block, leaf } => {
            proof {
                assert(crate::node_morph::loc_is_leafy(cursor.start));
                assert(crate::node_morph::loc_block(cursor.start) == block);
                assert(crate::node_morph::canonical_except(
                    bs_f[block as int].children,
                    crate::node_morph::pivot_of(cursor.start),
                ));
            }
            crate::node_morph::try_3_way_merge_text(blocks, cursor);
        },
        NodeAddr::Block { block } => {
            let cc = blocks[block].children.len();
            if cc > 0 {
                proof {
                    assert(crate::node_morph::loc_is_leafy(cursor.start));
                    assert(crate::node_morph::loc_block(cursor.start) == block);
                    assert(crate::node_morph::canonical_except(
                        bs_f[block as int].children,
                        crate::node_morph::pivot_of(cursor.start),
                    ));
                }
                crate::node_morph::try_3_way_merge_text(blocks, cursor);
            }
        },
    }
    proof {
        let bs1 = blocks_view(blocks@);
        let bb = crate::node_morph::loc_block(cursor.start);
        assert forall|i: int| 0 <= i < bs1.len() implies crate::doc_node::block_canonical(
            #[trigger] bs1[i],
        ) by {
            if i != dn.spec_block_ix() {
                assert(bs1[i] == bs_f[i]);
            }
        }
        assert(doc_fits(bs1));
    }
    Ok(())
}

/// Composes one loop step's removal onto the removals so far.
proof fn lemma_step(
    bs0: Seq<crate::doc_node::BlockV>,
    bs_a: Seq<crate::doc_node::BlockV>,
    bs_b: Seq<crate::doc_node::BlockV>,
    p0: int,
    consumed: int,
    k: int,
)
    requires
        0 <= p0,
        0 <= consumed,
        0 <= k,
        p0 + consumed <= blocks_chars(bs0).len(),
        chars_removed(blocks_chars(bs0), blocks_chars(bs_a), p0, consumed),
        chars_removed(blocks_chars(bs_a), blocks_chars(bs_b), p0, k),
        p0 + k <= blocks_chars(bs_a).len(),
    ensures
        chars_removed(blocks_chars(bs0), blocks_chars(bs_b), p0, consumed + k),
        p0 + consumed + k <= blocks_chars(bs0).len(),
{
    crate::doc_node::lemma_removed_compose(
        blocks_chars(bs0),
        blocks_chars(bs_a),
        blocks_chars(bs_b),
        p0,
        consumed,
        k,
    );
}

/// At the last block's line terminator, the requested range runs past the
/// deletable content.
proof fn lemma_last_nl(
    bs0: Seq<crate::doc_node::BlockV>,
    bs_a: Seq<crate::doc_node::BlockV>,
    p0: int,
    consumed: int,
    b: int,
)
    requires
        0 <= consumed,
        chars_removed(blocks_chars(bs0), blocks_chars(bs_a), p0, consumed),
        0 <= p0,
        p0 + consumed <= blocks_chars(bs0).len(),
        0 <= b == bs_a.len() - 1,
        crate::doc_node::block_nl_offset(bs_a, b) == p0,
    ensures
        p0 + consumed + 1 >= blocks_chars(bs0).len(),
{
    crate::doc_node::lemma_blocks_chars_split(bs_a, b);
    assert(bs_a.skip(b + 1) =~= Seq::<crate::doc_node::BlockV>::empty());
    assert(blocks_chars(Seq::<crate::doc_node::BlockV>::empty())
        == Seq::<crate::doc_node::AttrChar>::empty());
    assert(bs_a.take(b) + bs_a.skip(b) =~= bs_a);
    assert(blocks_chars(bs_a).len() == p0 + 1) by {
        assert(bs_a =~= bs_a.take(b) + seq![bs_a[b]] + bs_a.skip(b + 1));
        crate::doc_node::lemma_blocks_chars_concat(bs_a.take(b) + seq![bs_a[b]], bs_a.skip(b + 1));
        crate::doc_node::lemma_blocks_chars_concat(bs_a.take(b), seq![bs_a[b]]);
        crate::doc_node::lemma_blocks_chars_singleton(bs_a[b]);
    }
    assert(blocks_chars(bs_a).len() == blocks_chars(bs0).len() - consumed) by {
        assert(blocks_chars(bs0).take(p0).len() == p0);
        assert(blocks_chars(bs0).skip(p0 + consumed).len() == blocks_chars(bs0).len() - p0
            - consumed);
    }
}

} // verus!
