//! Linear traversal of the tree in document order: a block's leaves first,
//! then the block itself, then the next block.

use crate::cursor::NodeAddr;
use crate::doc_node::{blocks_view, BlockNode, BlockV};
use vstd::prelude::*;

verus! {

/// The node that follows `addr` in document order, if any.
pub open spec fn spec_next_node(bs: Seq<BlockV>, addr: NodeAddr) -> Option<NodeAddr> {
    match addr {
        NodeAddr::Leaf { block, leaf } => if leaf + 1 < bs[block as int].children.len() {
            Some(NodeAddr::Leaf { block, leaf: (leaf + 1) as usize })
        } else {
            Some(NodeAddr::Block { block })
        },
        NodeAddr::Block { block } => if block + 1 < bs.len() {
            if bs[block + 1].children.len() == 0 {
                Some(NodeAddr::Block { block: (block + 1) as usize })
            } else {
                Some(NodeAddr::Leaf { block: (block + 1) as usize, leaf: 0 })
            }
        } else {
            None
        },
    }
}

/// The address points at an existing node.
pub open spec fn addr_valid(bs: Seq<BlockV>, addr: NodeAddr) -> bool {
    match addr {
        NodeAddr::Leaf { block, leaf } => block < bs.len() && leaf < bs[block as int].children.len(),
        NodeAddr::Block { block } => block < bs.len(),
    }
}

/// Moves from node to node in document order: within a block all leaves come
/// first, then the block itself (its line terminator), then the next block's
/// content.
pub fn next_node(blocks: &Vec<BlockNode>, current: NodeAddr) -> (r: Option<NodeAddr>)
    requires
        addr_valid(blocks_view(blocks@), current),
    ensures
        r == spec_next_node(blocks_view(blocks@), current),
{
    match current {
        NodeAddr::Leaf { block, leaf } => {
            let c = blocks[block].children.len();
            if leaf + 1 < c {
                Some(NodeAddr::Leaf { block, leaf: leaf + 1 })
            } else {
                Some(NodeAddr::Block { block })
            }
        },
        NodeAddr::Block { block } => {
            let n = blocks.len();
            if block + 1 < n {
                if blocks[block + 1].children.len() == 0 {
                    Some(NodeAddr::Block { block: block + 1 })
                } else {
                    Some(NodeAddr::Leaf { block: block + 1, leaf: 0 })
                }
            } else {
                None
            }
        },
    }
}

/// The node that precedes `addr` in document order, if any.
pub open spec fn spec_prev_node(bs: Seq<BlockV>, addr: NodeAddr) -> Option<NodeAddr> {
    match addr {
        NodeAddr::Leaf { block, leaf } => if leaf > 0 {
            Some(NodeAddr::Leaf { block, leaf: (leaf - 1) as usize })
        } else {
            if block > 0 {
                Some(NodeAddr::Block { block: (block - 1) as usize })
            } else {
                None
            }
        },
        NodeAddr::Block { block } => if bs[block as int].children.len() > 0 {
            Some(
                NodeAddr::Leaf {
                    block,
                    leaf: (bs[block as int].children.len() - 1) as usize,
                },
            )
        } else {
            if block > 0 {
                Some(NodeAddr::Block { block: (block - 1) as usize })
            } else {
                None
            }
        },
    }
}

/// Moves from node to node backwards in document order.
pub fn prev_node(blocks: &Vec<BlockNode>, current: NodeAddr) -> (r: Option<NodeAddr>)
    requires
        addr_valid(blocks_view(blocks@), current),
    ensures
        r == spec_prev_node(blocks_view(blocks@), current),
{
    match current {
        NodeAddr::Leaf { block, leaf } => {
            if leaf > 0 {
                Some(NodeAddr::Leaf { block, leaf: leaf - 1 })
            } else if block > 0 {
                Some(NodeAddr::Block { block: block - 1 })
            } else {
                None
            }
        },
        NodeAddr::Block { block } => {
            let count = blocks[block].children.len();
            if count > 0 {
                Some(NodeAddr::Leaf { block, leaf: count - 1 })
            } else if block > 0 {
                Some(NodeAddr::Block { block: block - 1 })
            } else {
                None
            }
        },
    }
}

/// The next block node in document order, at or after the given node: a
/// leaf's own block, or the block that follows a block.
pub fn next_block(blocks: &Vec<BlockNode>, current: NodeAddr) -> (r: Option<usize>)
    requires
        addr_valid(blocks_view(blocks@), current),
    ensures
        r == match current {
            NodeAddr::Leaf { block, .. } => Some(block),
            NodeAddr::Block { block } => if block + 1 < blocks@.len() {
                Some((block + 1) as usize)
            } else {
                None
            },
        },
{
    match current {
        NodeAddr::Leaf { block, .. } => Some(block),
        NodeAddr::Block { block } => {
            let n = blocks.len();
            if block + 1 < n {
                Some(block + 1)
            } else {
                None
            }
        },
    }
}

/// The first node of the document in document order.
pub fn first_node(blocks: &Vec<BlockNode>) -> (r: NodeAddr)
    requires
        blocks@.len() > 0,
    ensures
        r == if blocks_view(blocks@)[0].children.len() == 0 {
            NodeAddr::Block { block: 0 }
        } else {
            NodeAddr::Leaf { block: 0, leaf: 0 }
        },
{
    if blocks[0].children.len() == 0 {
        NodeAddr::Block { block: 0 }
    } else {
        NodeAddr::Leaf { block: 0, leaf: 0 }
    }
}

/// The last block of the document.
pub fn last_block_node(blocks: &Vec<BlockNode>) -> (r: usize)
    requires
        blocks@.len() > 0,
    ensures
        r == blocks@.len() - 1,
{
    blocks.len() - 1
}

/// The next sibling of a leaf within its block, if any.
pub fn next_sibling(blocks: &Vec<BlockNode>, current: NodeAddr) -> (r: Option<NodeAddr>)
    requires
        addr_valid(blocks_view(blocks@), current),
        current is Leaf,
    ensures
        r == (if current->Leaf_leaf + 1 < blocks_view(blocks@)[current->Leaf_block
            as int].children.len() {
            Some(
                NodeAddr::Leaf {
                    block: current->Leaf_block,
                    leaf: (current->Leaf_leaf + 1) as usize,
                },
            )
        } else {
            None
        }),
{
    match current {
        NodeAddr::Leaf { block, leaf } => {
            let c = blocks[block].children.len();
            if leaf + 1 < c {
                Some(NodeAddr::Leaf { block, leaf: leaf + 1 })
            } else {
                None
            }
        },
        NodeAddr::Block { .. } => None,
    }
}

/// The previous sibling of a leaf within its block, if any.
pub fn prev_sibling(blocks: &Vec<BlockNode>, current: NodeAddr) -> (r: Option<NodeAddr>)
    requires
        addr_valid(blocks_view(blocks@), current),
        current is Leaf,
    ensures
        r == (if current->Leaf_leaf > 0 {
            Some(
                NodeAddr::Leaf {
                    block: current->Leaf_block,
                    leaf: (current->Leaf_leaf - 1) as usize,
                },
            )
        } else {
            None
        }),
{
    match current {
        NodeAddr::Leaf { block, leaf } => {
            if leaf > 0 {
                Some(NodeAddr::Leaf { block, leaf: leaf - 1 })
            } else {
                None
            }
        },
        NodeAddr::Block { .. } => None,
    }
}

} // verus!
