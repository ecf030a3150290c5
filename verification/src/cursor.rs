//! The cursor: a position or selection in the document tree, with a cached
//! absolute character offset.

use crate::doc_node::{
    blocks_chars, blocks_view, doc_blocks_wf, doc_fits, leaf_chars, leaves_chars,
    lemma_blocks_prefix_le, lemma_blocks_take_snoc, lemma_leaves_prefix_le, lemma_leaves_take_snoc,
    BlockNode, BlockV,
};
use vstd::prelude::*;

verus! {

/// The address of one node of the tree: a block, or a leaf within a block.
#[derive(Clone, Copy, PartialEq, Eq, Structural, Debug)]
pub enum NodeAddr {
    Block { block: usize },
    Leaf { block: usize, leaf: usize },
}

impl NodeAddr {
    /// The index of the block the node belongs to.
    pub open spec fn spec_block_ix(&self) -> int {
        match *self {
            NodeAddr::Block { block } => block as int,
            NodeAddr::Leaf { block, .. } => block as int,
        }
    }

    /// The index of the block the node belongs to.
    pub fn block_ix(&self) -> (r: usize)
        ensures
            r == self.spec_block_ix(),
    {
        match *self {
            NodeAddr::Block { block } => block,
            NodeAddr::Leaf { block, .. } => block,
        }
    }
}

/// Which kind of location a cursor holds.
#[derive(Debug, PartialEq, Eq, Structural)]
pub enum LocationIdentifyer {
    Unset,
    After,
    Before,
    At,
}

/// Where a cursor stands: unset, right after a leaf, right before a leaf, or
/// inside a node at an index.  `At` with a block address is the position
/// inside an empty block.
#[derive(Clone, Copy, PartialEq, Eq, Structural, Debug)]
pub enum CursorLocation {
    Unset,
    After(NodeAddr),
    Before(NodeAddr),
    At(NodeAddr, usize),
}

impl CursorLocation {
    /// The node the location points to.
    pub fn doc_node(&self) -> (r: NodeAddr)
        requires
            !(*self is Unset),
        ensures
            match *self {
                CursorLocation::After(a) => r == a,
                CursorLocation::Before(a) => r == a,
                CursorLocation::At(a, _) => r == a,
                CursorLocation::Unset => false,
            },
    {
        match self {
            CursorLocation::At(a, _) => *a,
            CursorLocation::Before(a) => *a,
            CursorLocation::After(a) => *a,
            CursorLocation::Unset => unreached(),
        }
    }

    /// The index of an `At` location.
    pub fn index(&self) -> (r: Option<usize>)
        ensures
            match *self {
                CursorLocation::At(_, i) => r == Some(i),
                _ => r is None,
            },
    {
        match self {
            CursorLocation::At(_, i) => Some(*i),
            _ => None,
        }
    }

    /// The kind of the location.
    pub fn get_location(&self) -> (r: LocationIdentifyer)
        ensures
            r == match *self {
                CursorLocation::At(..) => LocationIdentifyer::At,
                CursorLocation::Before(_) => LocationIdentifyer::Before,
                CursorLocation::After(_) => LocationIdentifyer::After,
                CursorLocation::Unset => LocationIdentifyer::Unset,
            },
    {
        match self {
            CursorLocation::At(..) => LocationIdentifyer::At,
            CursorLocation::Before(_) => LocationIdentifyer::Before,
            CursorLocation::After(_) => LocationIdentifyer::After,
            CursorLocation::Unset => LocationIdentifyer::Unset,
        }
    }
}

/// The character offset at which block `b` starts.
pub open spec fn block_start_offset(bs: Seq<BlockV>, b: int) -> int {
    blocks_chars(bs.take(b)).len() as int
}

/// The character offset at which leaf `l` of block `b` starts.
pub open spec fn leaf_start_offset(bs: Seq<BlockV>, b: int, l: int) -> int {
    block_start_offset(bs, b) + leaves_chars(bs[b].children.take(l)).len()
}

/// The location points at an existing node, in the form the engine keeps:
/// `Before` and `After` address leaves; `At` addresses the inside of a leaf,
/// or of an empty block.
pub open spec fn loc_valid(bs: Seq<BlockV>, loc: CursorLocation) -> bool {
    match loc {
        CursorLocation::Unset => false,
        CursorLocation::Before(a) => match a {
            NodeAddr::Leaf { block, leaf } => block < bs.len() && leaf
                < bs[block as int].children.len(),
            NodeAddr::Block { .. } => false,
        },
        CursorLocation::After(a) => match a {
            NodeAddr::Leaf { block, leaf } => block < bs.len() && leaf
                < bs[block as int].children.len(),
            NodeAddr::Block { .. } => false,
        },
        CursorLocation::At(a, i) => match a {
            NodeAddr::Leaf { block, leaf } => block < bs.len() && leaf
                < bs[block as int].children.len() && 0 < i
                < bs[block as int].children[leaf as int].text.len(),
            NodeAddr::Block { block } => block < bs.len() && bs[block as int].children.len() == 0
                && i == 0,
        },
    }
}

/// The absolute character offset a location stands at.
pub open spec fn loc_offset(bs: Seq<BlockV>, loc: CursorLocation) -> int {
    match loc {
        CursorLocation::Unset => 0,
        CursorLocation::Before(a) => match a {
            NodeAddr::Leaf { block, leaf } => leaf_start_offset(bs, block as int, leaf as int),
            NodeAddr::Block { block } => block_start_offset(bs, block as int),
        },
        CursorLocation::After(a) => match a {
            NodeAddr::Leaf { block, leaf } => leaf_start_offset(bs, block as int, leaf as int)
                + bs[block as int].children[leaf as int].text.len(),
            NodeAddr::Block { block } => block_start_offset(bs, block as int),
        },
        CursorLocation::At(a, i) => match a {
            NodeAddr::Leaf { block, leaf } => leaf_start_offset(bs, block as int, leaf as int) + i,
            NodeAddr::Block { block } => block_start_offset(bs, block as int),
        },
    }
}

/// A cursor: a start location with its cached offset, and an optional stop
/// location forming a selection.
#[derive(Clone, Copy, PartialEq, Eq, Structural, Debug)]
pub struct Cursor {
    pub retain: usize,
    pub start: CursorLocation,
    pub stop: CursorLocation,
}

/// The cursor's start points at an existing node and its stop, when set,
/// does too.
pub open spec fn cursor_ok(bs: Seq<BlockV>, c: Cursor) -> bool {
    &&& loc_valid(bs, c.start)
    &&& (c.stop is Unset || loc_valid(bs, c.stop))
}

/// The cursor's cached offset agrees with a walk from document start.
pub open spec fn cursor_synced(bs: Seq<BlockV>, c: Cursor) -> bool {
    c.retain == loc_offset(bs, c.start)
}

impl Cursor {
    /// A fresh cursor: unset, with offset zero.
    pub fn new() -> (r: Cursor)
        ensures
            r.start is Unset,
            r.stop is Unset,
            r.retain == 0,
    {
        Cursor { retain: 0, start: CursorLocation::Unset, stop: CursorLocation::Unset }
    }

    /// Clones the position of the input cursor.
    pub fn from(&mut self, cursor: &Cursor)
        ensures
            *final(self) == *cursor,
    {
        self.retain = cursor.retain;
        self.start = cursor.start;
        self.stop = cursor.stop;
    }

    /// True when the cursor start points to a location in the document.
    pub fn valid(&self) -> (r: bool)
        ensures
            r == !(self.start is Unset),
    {
        !matches!(self.start, CursorLocation::Unset)
    }

    /// The start location.
    pub fn get_location(&self) -> (r: CursorLocation)
        ensures
            r == self.start,
    {
        self.start
    }

    /// The node the start location points to.
    pub fn get_doc_node(&self) -> (r: NodeAddr)
        requires
            !(self.start is Unset),
        ensures
            match self.start {
                CursorLocation::After(a) => r == a,
                CursorLocation::Before(a) => r == a,
                CursorLocation::At(a, _) => r == a,
                CursorLocation::Unset => false,
            },
    {
        self.start.doc_node()
    }

    /// Sets the start after the given leaf, leaving the cached offset as it
    /// is; the caller accounts for the move itself.
    pub fn set_after_no_retain_update(&mut self, addr: NodeAddr)
        requires
            addr is Leaf,
        ensures
            *final(self) == (Cursor { start: CursorLocation::After(addr), ..*old(self) }),
    {
        self.start = CursorLocation::After(addr);
    }

    /// Sets the start before the given leaf, leaving the cached offset as it
    /// is.
    pub fn set_before_no_retain_update(&mut self, addr: NodeAddr)
        requires
            addr is Leaf,
        ensures
            *final(self) == (Cursor { start: CursorLocation::Before(addr), ..*old(self) }),
    {
        self.start = CursorLocation::Before(addr);
    }

    /// Sets the start at the given node and index, leaving the cached offset
    /// as it is.
    pub fn set_at_no_retain_update(&mut self, addr: NodeAddr, index: usize)
        requires
            addr is Leaf ==> index > 0,
            addr is Block ==> index == 0,
        ensures
            *final(self) == (Cursor { start: CursorLocation::At(addr, index), ..*old(self) }),
    {
        self.start = CursorLocation::At(addr, index);
    }

    /// Sets the start after the given leaf and recomputes the cached offset.
    pub fn set_after(&mut self, blocks: &Vec<BlockNode>, addr: NodeAddr)
        requires
            doc_blocks_wf(blocks@),
            doc_fits(blocks_view(blocks@)),
            loc_valid(blocks_view(blocks@), CursorLocation::After(addr)),
        ensures
            final(self).start == CursorLocation::After(addr),
            final(self).stop == old(self).stop,
            cursor_synced(blocks_view(blocks@), *final(self)),
    {
        self.start = CursorLocation::After(addr);
        self.retain = self.calculate_retain_index(blocks);
    }

    /// Sets the start before the given leaf and recomputes the cached offset.
    pub fn set_before(&mut self, blocks: &Vec<BlockNode>, addr: NodeAddr)
        requires
            doc_blocks_wf(blocks@),
            doc_fits(blocks_view(blocks@)),
            loc_valid(blocks_view(blocks@), CursorLocation::Before(addr)),
        ensures
            final(self).start == CursorLocation::Before(addr),
            final(self).stop == old(self).stop,
            cursor_synced(blocks_view(blocks@), *final(self)),
    {
        self.start = CursorLocation::Before(addr);
        self.retain = self.calculate_retain_index(blocks);
    }

    /// Sets the start at the given node and index and recomputes the cached
    /// offset.
    pub fn set_at(&mut self, blocks: &Vec<BlockNode>, addr: NodeAddr, index: usize)
        requires
            doc_blocks_wf(blocks@),
            doc_fits(blocks_view(blocks@)),
            loc_valid(blocks_view(blocks@), CursorLocation::At(addr, index)),
        ensures
            final(self).start == CursorLocation::At(addr, index),
            final(self).stop == old(self).stop,
            cursor_synced(blocks_view(blocks@), *final(self)),
    {
        self.start = CursorLocation::At(addr, index);
        self.retain = self.calculate_retain_index(blocks);
    }

    /// True when the cursor has a stop location: a selection.
    pub fn is_selection(&self) -> (r: bool)
        ensures
            r == !(self.stop is Unset),
    {
        !matches!(self.stop, CursorLocation::Unset)
    }

    /// Collapses the selection to its start.
    pub fn collapse(&mut self)
        ensures
            *final(self) == (Cursor { stop: CursorLocation::Unset, ..*old(self) }),
    {
        self.stop = CursorLocation::Unset;
    }

    /// The start and stop locations.
    pub fn get_selection(&self) -> (r: (CursorLocation, CursorLocation))
        ensures
            r == (self.start, self.stop),
    {
        (self.start, self.stop)
    }

    /// Sets the start location directly, recomputing the cached offset; an
    /// unset location resets the offset to zero.
    pub fn set_select_start(&mut self, blocks: &Vec<BlockNode>, location: CursorLocation)
        requires
            doc_blocks_wf(blocks@),
            doc_fits(blocks_view(blocks@)),
            location is Unset || loc_valid(blocks_view(blocks@), location),
        ensures
            final(self).start == location,
            final(self).stop == old(self).stop,
            location is Unset ==> final(self).retain == 0,
            !(location is Unset) ==> cursor_synced(blocks_view(blocks@), *final(self)),
    {
        self.start = location;
        if matches!(self.start, CursorLocation::Unset) {
            self.retain = 0;
        } else {
            self.retain = self.calculate_retain_index(blocks);
        }
    }

    /// The start location.
    pub fn get_select_start(&self) -> (r: CursorLocation)
        ensures
            r == self.start,
    {
        self.start
    }

    /// Sets the stop location.
    pub fn set_select_stop(&mut self, location: CursorLocation)
        ensures
            *final(self) == (Cursor { stop: location, ..*old(self) }),
    {
        self.stop = location;
    }

    /// The stop location.
    pub fn get_select_stop(&self) -> (r: CursorLocation)
        ensures
            r == self.stop,
    {
        self.stop
    }

    /// The cached absolute offset.
    pub fn get_retain_index(&self) -> (r: usize)
        ensures
            r == self.retain,
    {
        self.retain
    }

    /// Overwrites the cached absolute offset.
    pub fn set_retain_index(&mut self, index: usize)
        ensures
            *final(self) == (Cursor { retain: index, ..*old(self) }),
    {
        self.retain = index;
    }

    /// Recomputes the absolute offset of the start location by walking from
    /// the start of the document.
    pub fn calculate_retain_index(&self, blocks: &Vec<BlockNode>) -> (r: usize)
        requires
            doc_blocks_wf(blocks@),
            doc_fits(blocks_view(blocks@)),
            loc_valid(blocks_view(blocks@), self.start),
        ensures
            r == loc_offset(blocks_view(blocks@), self.start),
    {
        let ghost bs = blocks_view(blocks@);
        let addr = self.start.doc_node();
        let b = addr.block_ix();
        // Characters of the blocks before `b`.
        let mut acc: usize = 0;
        let mut i: usize = 0;
        proof {
            lemma_blocks_prefix_le(bs, b as int);
        }
        while i < b
            invariant
                doc_blocks_wf(blocks@),
                doc_fits(bs),
                bs == blocks_view(blocks@),
                b <= bs.len(),
                i <= b,
                acc == blocks_chars(bs.take(i as int)).len(),
            decreases b - i,
        {
            proof {
                lemma_blocks_take_snoc(bs, i as int);
                lemma_blocks_prefix_le(bs, i + 1);
                lemma_blocks_prefix_le(bs, b as int);
            }
            let c = blocks[i].content_len();
            acc = acc + c + 1;
            i = i + 1;
        }
        // Characters of the leaves before the addressed leaf, then the
        // location's own offset within its node.
        match self.start {
            CursorLocation::Before(NodeAddr::Leaf { block, leaf }) => {
                let w = self.leaf_prefix_len(blocks, block, leaf);
                proof {
                    lemma_leaves_prefix_le(bs[block as int].children, leaf as int);
                    lemma_block_fits(bs, block as int);
                }
                acc + w
            },
            CursorLocation::After(NodeAddr::Leaf { block, leaf }) => {
                let w = self.leaf_prefix_len(blocks, block, leaf);
                let own = blocks[block].children[leaf].op_len();
                proof {
                    lemma_leaves_take_snoc(bs[block as int].children, leaf as int);
                    lemma_leaves_prefix_le(bs[block as int].children, leaf + 1);
                    lemma_block_fits(bs, block as int);
                }
                acc + w + own
            },
            CursorLocation::At(NodeAddr::Leaf { block, leaf }, index) => {
                let w = self.leaf_prefix_len(blocks, block, leaf);
                proof {
                    lemma_leaves_take_snoc(bs[block as int].children, leaf as int);
                    lemma_leaves_prefix_le(bs[block as int].children, leaf + 1);
                    lemma_block_fits(bs, block as int);
                }
                acc + w + index
            },
            CursorLocation::At(NodeAddr::Block { .. }, _) => acc,
            _ => unreached(),
        }
    }

    /// The characters contributed by the leaves of block `block` before leaf
    /// `leaf`.
    fn leaf_prefix_len(&self, blocks: &Vec<BlockNode>, block: usize, leaf: usize) -> (r: usize)
        requires
            doc_blocks_wf(blocks@),
            doc_fits(blocks_view(blocks@)),
            block < blocks@.len(),
            leaf <= blocks_view(blocks@)[block as int].children.len(),
        ensures
            r == leaves_chars(blocks_view(blocks@)[block as int].children.take(leaf as int)).len(),
    {
        let ghost bs = blocks_view(blocks@);
        let ghost ls = bs[block as int].children;
        let mut acc: usize = 0;
        let mut j: usize = 0;
        proof {
            lemma_block_fits(bs, block as int);
        }
        while j < leaf
            invariant
                doc_blocks_wf(blocks@),
                block < blocks@.len(),
                bs == blocks_view(blocks@),
                ls == bs[block as int].children,
                leaves_chars(ls).len() <= usize::MAX,
                leaf <= ls.len(),
                j <= leaf,
                acc == leaves_chars(ls.take(j as int)).len(),
            decreases leaf - j,
        {
            proof {
                lemma_leaves_take_snoc(ls, j as int);
                lemma_leaves_prefix_le(ls, j + 1);
            }
            acc = acc + blocks[block].children[j].op_len();
            j = j + 1;
        }
        acc
    }
}

/// The character position at which a node's own content unit stands: a
/// leaf's first character, or a block's line terminator.
pub open spec fn node_unit_offset(bs: Seq<BlockV>, addr: NodeAddr) -> int {
    match addr {
        NodeAddr::Leaf { block, leaf } => leaf_start_offset(bs, block as int, leaf as int),
        NodeAddr::Block { block } => crate::doc_node::block_nl_offset(bs, block as int),
    }
}

impl Cursor {
    /// Sets the cursor to the edge of the given node: to its leading edge
    /// when `before` is set -- before a leaf, after a non-empty block's last
    /// leaf, inside an empty block -- and recomputes the cached offset.  The
    /// trailing edge is the leading edge of what follows, clamped to the end
    /// of the last block's content.
    pub fn set_cursor_to_doc_node_edge(
        &mut self,
        blocks: &Vec<BlockNode>,
        addr: NodeAddr,
        before: bool,
    )
        requires
            doc_blocks_wf(blocks@),
            doc_fits(blocks_view(blocks@)),
            crate::tree_traverse::addr_valid(blocks_view(blocks@), addr),
        ensures
            final(self).stop == old(self).stop,
            loc_valid(blocks_view(blocks@), final(self).start),
            cursor_synced(blocks_view(blocks@), *final(self)),
            before ==> loc_offset(blocks_view(blocks@), final(self).start) == node_unit_offset(
                blocks_view(blocks@),
                addr,
            ),
            before ==> final(self).start == (match addr {
                NodeAddr::Leaf { .. } => CursorLocation::Before(addr),
                NodeAddr::Block { block } => if blocks_view(blocks@)[block as int].children.len()
                    == 0 {
                    CursorLocation::At(addr, 0)
                } else {
                    CursorLocation::After(
                        NodeAddr::Leaf {
                            block,
                            leaf: (blocks_view(blocks@)[block as int].children.len() - 1) as usize,
                        },
                    )
                },
            }),
            !before ==> loc_offset(blocks_view(blocks@), final(self).start) == (match addr {
                NodeAddr::Leaf { block, leaf } => node_unit_offset(blocks_view(blocks@), addr)
                    + blocks_view(blocks@)[block as int].children[leaf as int].text.len(),
                NodeAddr::Block { block } => if block + 1 < blocks@.len() {
                    node_unit_offset(blocks_view(blocks@), addr) + 1
                } else {
                    node_unit_offset(blocks_view(blocks@), addr)
                },
            }),
    {
        let ghost bs = blocks_view(blocks@);
        if before {
            match addr {
                NodeAddr::Leaf { block, leaf } => {
                    self.set_before(blocks, addr);
                },
                NodeAddr::Block { block } => {
                    let count = blocks[block].children.len();
                    if count == 0 {
                        proof {
                            assert(bs[block as int].children.take(0)
                                =~= Seq::<crate::doc_node::LeafV>::empty());
                        }
                        self.set_at(blocks, addr, 0);
                    } else {
                        proof {
                            crate::doc_node::lemma_leaves_take_snoc(
                                bs[block as int].children,
                                count - 1,
                            );
                            assert(bs[block as int].children.take(count as int)
                                =~= bs[block as int].children);
                        }
                        self.set_after(
                            blocks,
                            NodeAddr::Leaf { block, leaf: count - 1 },
                        );
                    }
                },
            }
        } else {
            match addr {
                NodeAddr::Leaf { block, leaf } => {
                    self.set_after(blocks, addr);
                },
                NodeAddr::Block { block } => {
                    let n = blocks.len();
                    if block + 1 < n {
                        let count = blocks[block + 1].children.len();
                        proof {
                            crate::doc_node::lemma_blocks_take_snoc(bs, block as int);
                            assert(bs.take(block as int + 1) =~= bs.take(block as int).push(
                                bs[block as int],
                            ));
                            assert(bs[block + 1].children.take(0)
                                =~= Seq::<crate::doc_node::LeafV>::empty());
                        }
                        if count == 0 {
                            self.set_at(blocks, NodeAddr::Block { block: block + 1 }, 0);
                        } else {
                            self.set_before(
                                blocks,
                                NodeAddr::Leaf { block: block + 1, leaf: 0 },
                            );
                        }
                    } else {
                        // No next node: stay at the end of this block's
                        // content.
                        let count = blocks[block].children.len();
                        if count == 0 {
                            proof {
                                assert(bs[block as int].children.take(0)
                                    =~= Seq::<crate::doc_node::LeafV>::empty());
                            }
                            self.set_at(blocks, addr, 0);
                        } else {
                            proof {
                                crate::doc_node::lemma_leaves_take_snoc(
                                    bs[block as int].children,
                                    count - 1,
                                );
                                assert(bs[block as int].children.take(count as int)
                                    =~= bs[block as int].children);
                            }
                            self.set_after(
                                blocks,
                                NodeAddr::Leaf { block, leaf: count - 1 },
                            );
                        }
                    }
                },
            }
        }
    }
}

/// The stream length a node's own unit accounts for.
pub open spec fn node_unit_len(bs: Seq<BlockV>, addr: NodeAddr) -> int {
    match addr {
        NodeAddr::Leaf { block, leaf } => bs[block as int].children[leaf as int].text.len() as int,
        NodeAddr::Block { .. } => 1,
    }
}

/// Walking to the next node advances the unit offset by exactly the current
/// node's unit length.
pub proof fn lemma_next_node_offset(bs: Seq<BlockV>, a: NodeAddr)
    requires
        crate::tree_traverse::addr_valid(bs, a),
        crate::tree_traverse::spec_next_node(bs, a) is Some,
        bs.len() <= usize::MAX,
        a matches NodeAddr::Leaf { block, leaf } ==> bs[block as int].children.len()
            <= usize::MAX,
    ensures
        crate::tree_traverse::addr_valid(bs, crate::tree_traverse::spec_next_node(bs, a).unwrap()),
        node_unit_offset(bs, crate::tree_traverse::spec_next_node(bs, a).unwrap())
            == node_unit_offset(bs, a) + node_unit_len(bs, a),
{
    let nx = crate::tree_traverse::spec_next_node(bs, a).unwrap();
    match a {
        NodeAddr::Leaf { block, leaf } => {
            crate::doc_node::lemma_leaves_take_snoc(bs[block as int].children, leaf as int);
            if leaf + 1 >= bs[block as int].children.len() {
                assert(bs[block as int].children.take(leaf + 1) =~= bs[block as int].children);
            }
        },
        NodeAddr::Block { block } => {
            crate::doc_node::lemma_blocks_take_snoc(bs, block as int);
            assert(bs.take(block as int + 1) =~= bs.take(block as int).push(bs[block as int]));
            if bs[block + 1].children.len() > 0 {
                assert(bs[block + 1].children.take(0) =~= Seq::<crate::doc_node::LeafV>::empty());
            }
        },
    }
}

/// A node with no successor is the last block; its line terminator is the
/// document's last character.
pub proof fn lemma_no_next_is_end(bs: Seq<BlockV>, a: NodeAddr)
    requires
        crate::tree_traverse::addr_valid(bs, a),
        crate::tree_traverse::spec_next_node(bs, a) is None,
    ensures
        a is Block,
        a->Block_block + 1 == bs.len(),
        node_unit_offset(bs, a) + 1 == blocks_chars(bs).len(),
{
    match a {
        NodeAddr::Block { block } => {
            crate::doc_node::lemma_blocks_chars_split(bs, block as int);
            assert(bs.skip(block + 1) =~= Seq::<BlockV>::empty());
            assert(blocks_chars(Seq::<BlockV>::empty()) == Seq::<crate::doc_node::AttrChar>::empty());
        },
        _ => {},
    }
}

/// A valid location's offset lies within the document's character stream.
pub proof fn lemma_loc_offset_bound(bs: Seq<BlockV>, loc: CursorLocation)
    requires
        loc_valid(bs, loc),
    ensures
        0 <= loc_offset(bs, loc),
        loc_offset(bs, loc) + 1 <= blocks_chars(bs).len(),
{
    match loc {
        CursorLocation::Before(NodeAddr::Leaf { block, .. }) => {
            lemma_blocks_chars_split_bound(bs, block as int);
        },
        CursorLocation::After(NodeAddr::Leaf { block, .. }) => {
            lemma_blocks_chars_split_bound(bs, block as int);
        },
        CursorLocation::At(NodeAddr::Leaf { block, .. }, _) => {
            lemma_blocks_chars_split_bound(bs, block as int);
        },
        CursorLocation::At(NodeAddr::Block { block }, _) => {
            lemma_blocks_chars_split_bound(bs, block as int);
        },
        _ => {},
    }
    match loc {
        CursorLocation::Before(NodeAddr::Leaf { block, leaf }) => {
            lemma_leaf_pos_bound(bs, block as int, leaf as int, 0);
        },
        CursorLocation::After(NodeAddr::Leaf { block, leaf }) => {
            lemma_leaf_pos_bound(
                bs,
                block as int,
                leaf as int,
                bs[block as int].children[leaf as int].text.len() as int,
            );
        },
        CursorLocation::At(NodeAddr::Leaf { block, leaf }, i) => {
            lemma_leaf_pos_bound(bs, block as int, leaf as int, i as int);
        },
        CursorLocation::At(NodeAddr::Block { block }, _) => {
            lemma_blocks_prefix_le(bs, block as int);
        },
        _ => {},
    }
}

/// Every position within a block's content is followed by at least the
/// block's own line terminator.
proof fn lemma_blocks_chars_split_bound(bs: Seq<BlockV>, b: int)
    requires
        0 <= b < bs.len(),
    ensures
        crate::doc_node::block_nl_offset(bs, b) + 1 <= blocks_chars(bs).len(),
{
    crate::doc_node::lemma_blocks_chars_split(bs, b);
}

/// A position within a leaf lies within the document's character stream,
/// never past its block's line terminator.
proof fn lemma_leaf_pos_bound(bs: Seq<BlockV>, b: int, l: int, i: int)
    requires
        0 <= b < bs.len(),
        0 <= l < bs[b].children.len(),
        0 <= i <= bs[b].children[l].text.len(),
    ensures
        0 <= leaf_start_offset(bs, b, l) + i,
        leaf_start_offset(bs, b, l) + i <= crate::doc_node::block_nl_offset(bs, b),
        leaf_start_offset(bs, b, l) + i <= blocks_chars(bs).len(),
{
    crate::doc_node::lemma_blocks_chars_split(bs, b);
    crate::doc_node::lemma_leaves_take_snoc(bs[b].children, l);
    lemma_leaves_prefix_le(bs[b].children, l + 1);
    assert(leaf_chars(bs[b].children[l]).len() == bs[b].children[l].text.len());
}

/// A node's content unit lies strictly inside the character stream: at
/// least one more character (the unit itself) follows its offset.
pub proof fn lemma_unit_offset_in_doc(bs: Seq<BlockV>, addr: NodeAddr)
    requires
        crate::tree_traverse::addr_valid(bs, addr),
        (addr matches NodeAddr::Leaf { block, leaf } ==> bs[block as int].children[
            leaf as int
        ].text.len() >= 1),
    ensures
        0 <= node_unit_offset(bs, addr),
        node_unit_offset(bs, addr) + 1 <= blocks_chars(bs).len(),
{
    match addr {
        NodeAddr::Leaf { block, leaf } => {
            lemma_leaf_pos_bound(bs, block as int, leaf as int, 1);
        },
        NodeAddr::Block { block } => {
            crate::doc_node::lemma_blocks_chars_split(bs, block as int);
        },
    }
}

/// The characters a leaf occupies in the document stream: its own text,
/// each character under the leaf's attributes.
#[verifier::spinoff_prover]
#[verifier::rlimit(100)]
pub proof fn lemma_leaf_range_chars(bs: Seq<BlockV>, b: int, l: int)
    requires
        0 <= b < bs.len(),
        0 <= l < bs[b].children.len(),
    ensures
        leaf_start_offset(bs, b, l) + bs[b].children[l].text.len() <= blocks_chars(bs).len(),
        forall|i: int|
            leaf_start_offset(bs, b, l) <= i < leaf_start_offset(bs, b, l) + bs[b].children[
                l
            ].text.len() ==> #[trigger] blocks_chars(bs)[i] == crate::doc_node::attr_char(
                bs[b].children[l].text[i - leaf_start_offset(bs, b, l)],
                bs[b].children[l].attrs,
            ),
{
    let ch = bs[b].children;
    crate::doc_node::lemma_chars_update_block(bs, b, bs[b]);
    assert(bs.update(b, bs[b]) =~= bs);
    crate::doc_node::lemma_chars_update_leaf(ch, l, seq![ch[l]]);
    let pre = blocks_chars(bs.take(b)) + crate::doc_node::leaves_chars(ch.take(l));
    let lc = crate::doc_node::leaf_chars(ch[l]);
    let post = crate::doc_node::leaves_chars(ch.skip(l + 1)) + seq![
        crate::doc_node::attr_char('\n', bs[b].attrs),
    ] + blocks_chars(bs.skip(b + 1));
    assert(blocks_chars(bs) =~= pre + lc + post);
    assert(pre.len() == leaf_start_offset(bs, b, l));
    assert forall|i: int| pre.len() <= i < pre.len() + lc.len() implies #[trigger] blocks_chars(
        bs,
    )[i] == crate::doc_node::attr_char(ch[l].text[i - pre.len()], ch[l].attrs) by {
        assert(blocks_chars(bs)[i] == lc[i - pre.len()]);
    }
}

/// One block's content fits the machine's word whenever the document does.
pub proof fn lemma_block_fits(bs: Seq<BlockV>, b: int)
    requires
        0 <= b < bs.len(),
        doc_fits(bs),
    ensures
        leaves_chars(bs[b].children).len() + 1 <= usize::MAX,
        block_start_offset(bs, b) + leaves_chars(bs[b].children).len() + 1 <= blocks_chars(
            bs,
        ).len(),
{
    crate::doc_node::lemma_blocks_chars_split(bs, b);
}

} // verus!
