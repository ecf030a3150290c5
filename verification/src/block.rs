//! Block conversions: turning one block format into another, and rewriting a
//! block's attributes, while its children stay in place.

use crate::attr_val::{AttrV, AttrVal};
use crate::attributes::Attributes;
use crate::doc_node::{
    attr_char, block_nl_offset, blocks_chars, blocks_view, doc_blocks_wf, leaves_chars,
    lemma_chars_update_block, lemma_chars_update_parts, BlockNode, BlockV,
};
use crate::error::Error;
use crate::format_const::HEADER_ATTR_KEY;
use crate::formatter::{fmt_is_block, Formatter};
use crate::operations::DeltaOperation;
use vstd::prelude::*;

verus! {

/// The block at `b` with another format and attribute-carrying operation.
pub open spec fn block_transformed(b0: BlockV, fmt: crate::formatter::FmtV, attrs: Map<
    Seq<char>,
    AttrV,
>) -> BlockV {
    BlockV { fmt, attrs, children: b0.children, placeholder: b0.placeholder }
}

/// Proves the character-stream effect of giving block `b` new attributes:
/// only its line terminator's attributes change.
proof fn lemma_block_attr_change(bs0: Seq<BlockV>, bs1: Seq<BlockV>, b: int)
    requires
        0 <= b < bs0.len(),
        bs1 == bs0.update(b, block_transformed(bs0[b], bs1[b].fmt, bs1[b].attrs)),
    ensures
        blocks_chars(bs1) == blocks_chars(bs0).update(
            block_nl_offset(bs0, b),
            attr_char('\n', bs1[b].attrs),
        ),
{
    lemma_chars_update_block(bs0, b, bs1[b]);
    let a = blocks_chars(bs0.take(b)) + leaves_chars(bs0[b].children);
    let c = blocks_chars(bs0.skip(b + 1));
    assert(blocks_chars(bs0) =~= a + seq![attr_char('\n', bs0[b].attrs)] + c);
    assert(blocks_chars(bs1) =~= a + seq![attr_char('\n', bs1[b].attrs)] + c);
    lemma_chars_update_parts(a, attr_char('\n', bs0[b].attrs), attr_char('\n', bs1[b].attrs), c);
    assert(a.len() == block_nl_offset(bs0, b));
}

/// Transforms the block at `b` into the desired block format, carrying the
/// attributes of `delta`; the children stay in place.  In the document's
/// character stream only the block's line terminator changes its attributes.
/// A header format whose level attribute is not a number is a reported
/// error, before anything is mutated.
pub fn block_transform(
    blocks: &mut Vec<BlockNode>,
    b: usize,
    delta: DeltaOperation,
    format: Formatter,
) -> (r: Result<(), Error>)
    requires
        doc_blocks_wf(old(blocks)@),
        b < old(blocks)@.len(),
        delta.wf(),
        crate::formatter::spec_is_newline(&delta),
        fmt_is_block(format@),
        format@ is Header ==> delta.attrs().contains_key(HEADER_ATTR_KEY@),
    ensures
        doc_blocks_wf(final(blocks)@),
        (match r {
            Ok(_) => {
                &&& blocks_view(final(blocks)@) == blocks_view(old(blocks)@).update(
                    b as int,
                    block_transformed(
                        blocks_view(old(blocks)@)[b as int],
                        format@,
                        delta.attrs(),
                    ),
                )
                &&& blocks_chars(blocks_view(final(blocks)@)) == blocks_chars(
                    blocks_view(old(blocks)@),
                ).update(
                    block_nl_offset(blocks_view(old(blocks)@), b as int),
                    attr_char('\n', delta.attrs()),
                )
            },
            Err(_) => final(blocks)@ == old(blocks)@ && format@ is Header && !(delta.attrs()[
                HEADER_ATTR_KEY@
            ] is Number),
        }),
{
    if matches!(format, Formatter::Header(_)) {
        let level_ok = match delta.get_attributes().get(HEADER_ATTR_KEY) {
            Some(v) => matches!(v, AttrVal::Number(_)),
            None => false,
        };
        if !level_ok {
            return Err(Error::WrongFormatKind);
        }
    }
    let ghost bs0 = blocks_view(old(blocks)@);
    let placeholder = blocks[b].placeholder;
    let children = blocks[b].children.split_off(0);
    blocks.set(b, BlockNode { formatter: format, op: delta, children, placeholder });
    proof {
        let bs1 = blocks_view(blocks@);
        assert(bs1 =~~= bs0.update(
            b as int,
            block_transformed(bs0[b as int], bs1[b as int].fmt, bs1[b as int].attrs),
        ));
        assert forall|i: int| 0 <= i < blocks@.len() implies (#[trigger] blocks@[i]).wf() by {
            if i != b {
                assert(blocks@[i] == old(blocks)@[i]);
            } else {
                assert forall|j: int|
                    0 <= j < blocks@[i].children@.len() implies (
                #[trigger] blocks@[i].children@[j]).wf() by {
                    assert(blocks@[i].children@[j] == old(blocks)@[i].children@[j]);
                }
            }
        }
        lemma_block_attr_change(bs0, bs1, b as int);
    }
    Ok(())
}

/// Removes the block formatting from the block at `b`, turning it back into
/// a plain paragraph; its attributes and children stay as they are, so the
/// character stream is unchanged.
pub fn un_block_transform(blocks: &mut Vec<BlockNode>, b: usize)
    requires
        doc_blocks_wf(old(blocks)@),
        b < old(blocks)@.len(),
    ensures
        doc_blocks_wf(final(blocks)@),
        blocks_view(final(blocks)@) == blocks_view(old(blocks)@).update(
            b as int,
            block_transformed(
                blocks_view(old(blocks)@)[b as int],
                crate::formatter::FmtV::P,
                blocks_view(old(blocks)@)[b as int].attrs,
            ),
        ),
        blocks_chars(blocks_view(final(blocks)@)) == blocks_chars(blocks_view(old(blocks)@)),
{
    let ghost bs0 = blocks_view(old(blocks)@);
    let placeholder = blocks[b].placeholder;
    let op = blocks[b].op.clone();
    let children = blocks[b].children.split_off(0);
    blocks.set(
        b,
        BlockNode {
            formatter: Formatter::P(crate::formatter::Pblock::new()),
            op,
            children,
            placeholder,
        },
    );
    proof {
        let bs1 = blocks_view(blocks@);
        assert(bs1 =~~= bs0.update(
            b as int,
            block_transformed(bs0[b as int], crate::formatter::FmtV::P, bs0[b as int].attrs),
        ));
        assert forall|i: int| 0 <= i < blocks@.len() implies (#[trigger] blocks@[i]).wf() by {
            if i != b {
                assert(blocks@[i] == old(blocks)@[i]);
            } else {
                assert forall|j: int|
                    0 <= j < blocks@[i].children@.len() implies (
                #[trigger] blocks@[i].children@[j]).wf() by {
                    assert(blocks@[i].children@[j] == old(blocks)@[i].children@[j]);
                }
            }
        }
        lemma_chars_update_block(bs0, b as int, bs1[b as int]);
        assert(crate::doc_node::block_chars(bs1[b as int])
            == crate::doc_node::block_chars(bs0[b as int]));
        assert(blocks_chars(bs1) =~= blocks_chars(bs0));
    }
}

/// Replaces all attributes of the block at `b` in one step; only its line
/// terminator's attributes change in the character stream.
pub fn apply_attributes(blocks: &mut Vec<BlockNode>, b: usize, attr: Attributes)
    requires
        doc_blocks_wf(old(blocks)@),
        b < old(blocks)@.len(),
        attr.wf(),
        blocks_view(old(blocks)@)[b as int].fmt is Header ==> attr@.contains_key(HEADER_ATTR_KEY@)
            && attr@[HEADER_ATTR_KEY@] is Number,
    ensures
        doc_blocks_wf(final(blocks)@),
        blocks_view(final(blocks)@) == blocks_view(old(blocks)@).update(
            b as int,
            block_transformed(
                blocks_view(old(blocks)@)[b as int],
                blocks_view(old(blocks)@)[b as int].fmt,
                attr@,
            ),
        ),
        blocks_chars(blocks_view(final(blocks)@)) == blocks_chars(blocks_view(old(blocks)@)).update(
            block_nl_offset(blocks_view(old(blocks)@), b as int),
            attr_char('\n', attr@),
        ),
{
    let ghost bs0 = blocks_view(old(blocks)@);
    let mut op = blocks[b].op.clone();
    op.set_attributes(attr);
    let placeholder = blocks[b].placeholder;
    let formatter = blocks[b].formatter.clone();
    let children = blocks[b].children.split_off(0);
    blocks.set(b, BlockNode { formatter, op, children, placeholder });
    proof {
        let bs1 = blocks_view(blocks@);
        assert(bs1 =~~= bs0.update(
            b as int,
            block_transformed(bs0[b as int], bs0[b as int].fmt, bs1[b as int].attrs),
        ));
        assert forall|i: int| 0 <= i < blocks@.len() implies (#[trigger] blocks@[i]).wf() by {
            if i != b {
                assert(blocks@[i] == old(blocks)@[i]);
            } else {
                assert forall|j: int|
                    0 <= j < blocks@[i].children@.len() implies (
                #[trigger] blocks@[i].children@[j]).wf() by {
                    assert(blocks@[i].children@[j] == old(blocks)@[i].children@[j]);
                }
            }
        }
        lemma_block_attr_change(bs0, bs1, b as int);
    }
}

/// Clears all attributes of the block at `b` in one step.
pub fn drop_attributes(blocks: &mut Vec<BlockNode>, b: usize)
    requires
        doc_blocks_wf(old(blocks)@),
        b < old(blocks)@.len(),
        !(blocks_view(old(blocks)@)[b as int].fmt is Header),
    ensures
        doc_blocks_wf(final(blocks)@),
        blocks_view(final(blocks)@) == blocks_view(old(blocks)@).update(
            b as int,
            block_transformed(
                blocks_view(old(blocks)@)[b as int],
                blocks_view(old(blocks)@)[b as int].fmt,
                Map::<Seq<char>, AttrV>::empty(),
            ),
        ),
        blocks_chars(blocks_view(final(blocks)@)) == blocks_chars(blocks_view(old(blocks)@)).update(
            block_nl_offset(blocks_view(old(blocks)@), b as int),
            attr_char('\n', Map::<Seq<char>, AttrV>::empty()),
        ),
{
    apply_attributes(blocks, b, Attributes::new());
}

} // verus!
