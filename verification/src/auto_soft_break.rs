//! The render placeholder of an empty block.
//!
//! A block that loses its last leaf needs a placeholder in the rendered view
//! so a cursor can be shown inside visually empty content; the placeholder is
//! not part of the document's character stream.

use crate::doc_node::{blocks_chars, blocks_view, doc_blocks_wf, BlockNode, BlockV};
use crate::error::Error;
use vstd::prelude::*;

verus! {

/// Management of the automatically inserted placeholder of an empty block.
pub struct AutomaticSoftBreak {}

impl AutomaticSoftBreak {
    /// Marks the empty block at `b` as carrying a placeholder; marking it
    /// twice is a reported error.  The character stream is unchanged.
    pub fn insert(blocks: &mut Vec<BlockNode>, b: usize) -> (r: Result<(), Error>)
        requires
            doc_blocks_wf(old(blocks)@),
            b < old(blocks)@.len(),
            blocks_view(old(blocks)@)[b as int].children.len() == 0,
        ensures
            doc_blocks_wf(final(blocks)@),
            r is Ok <==> !blocks_view(old(blocks)@)[b as int].placeholder,
            blocks_view(final(blocks)@) == blocks_view(old(blocks)@).update(
                b as int,
                (BlockV { placeholder: true, ..blocks_view(old(blocks)@)[b as int] }),
            ),
            blocks_chars(blocks_view(final(blocks)@)) == blocks_chars(blocks_view(old(blocks)@)),
    {
        let ghost bs0 = blocks_view(old(blocks)@);
        let already = blocks[b].placeholder;
        blocks[b].placeholder = true;
        proof {
            let bs1 = blocks_view(blocks@);
            assert(bs1 =~~= bs0.update(b as int, BlockV { placeholder: true, ..bs0[b as int] }));
            assert forall|i: int| 0 <= i < blocks@.len() implies (#[trigger] blocks@[i]).wf() by {
                if i != b {
                    assert(blocks@[i] == old(blocks)@[i]);
                }
            }
            crate::doc_node::lemma_chars_update_block(bs0, b as int, bs1[b as int]);
            assert(crate::doc_node::block_chars(bs1[b as int]) == crate::doc_node::block_chars(
                bs0[b as int],
            ));
            assert(blocks_chars(bs1) =~= blocks_chars(bs0));
        }
        if already {
            Err(Error::DoubleInsertionOfASoftBreak)
        } else {
            Ok(())
        }
    }

    /// Clears the placeholder of the block at `b`, just before it is filled;
    /// clearing a block without one is a reported error.  The character
    /// stream is unchanged.
    pub fn remove(blocks: &mut Vec<BlockNode>, b: usize) -> (r: Result<(), Error>)
        requires
            doc_blocks_wf(old(blocks)@),
            b < old(blocks)@.len(),
        ensures
            doc_blocks_wf(final(blocks)@),
            r is Ok <==> blocks_view(old(blocks)@)[b as int].placeholder,
            blocks_view(final(blocks)@) == blocks_view(old(blocks)@).update(
                b as int,
                (BlockV { placeholder: false, ..blocks_view(old(blocks)@)[b as int] }),
            ),
            blocks_chars(blocks_view(final(blocks)@)) == blocks_chars(blocks_view(old(blocks)@)),
    {
        let ghost bs0 = blocks_view(old(blocks)@);
        let had = blocks[b].placeholder;
        blocks[b].placeholder = false;
        proof {
            let bs1 = blocks_view(blocks@);
            assert(bs1 =~~= bs0.update(b as int, BlockV { placeholder: false, ..bs0[b as int] }));
            assert forall|i: int| 0 <= i < blocks@.len() implies (#[trigger] blocks@[i]).wf() by {
                if i != b {
                    assert(blocks@[i] == old(blocks)@[i]);
                }
            }
            crate::doc_node::lemma_chars_update_block(bs0, b as int, bs1[b as int]);
            assert(crate::doc_node::block_chars(bs1[b as int]) == crate::doc_node::block_chars(
                bs0[b as int],
            ));
            assert(blocks_chars(bs1) =~= blocks_chars(bs0));
        }
        if had {
            Ok(())
        } else {
            Err(Error::CanNotRemoveASoftBreak)
        }
    }

    /// True when the block at `b` carries a placeholder.
    pub fn has_break(blocks: &Vec<BlockNode>, b: usize) -> (r: bool)
        requires
            b < blocks@.len(),
        ensures
            r == blocks_view(blocks@)[b as int].placeholder,
    {
        blocks[b].placeholder
    }
}

} // verus!
