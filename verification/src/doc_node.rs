//! The document tree's node types and their mathematical model.
//!
//! A document is a list of block nodes, one per line; each block holds leaf
//! nodes carrying runs of text.  A block accounts for exactly one character,
//! its line terminator, which document order places after the block's
//! content.  The whole document abstracts to a sequence of attributed
//! characters ([`blocks_chars`]): each content character carries its leaf's
//! attributes, each line terminator its block's attributes.

use crate::attr_val::AttrV;
use crate::format_const::HEADER_ATTR_KEY;
use crate::formatter::{fmt_is_block, fmt_is_text, FmtV, Formatter};
use crate::operations::DeltaOperation;
use vstd::prelude::*;

verus! {

broadcast use vstd::seq::group_seq_axioms;

/// A leaf node: a run of content plus attributes.
pub struct LeafNode {
    pub formatter: Formatter,
    pub op: DeltaOperation,
}

/// Specification view of a leaf: its text and its attributes.
#[verifier::ext_equal]
pub struct LeafV {
    pub text: Seq<char>,
    pub attrs: Map<Seq<char>, AttrV>,
}

impl View for LeafNode {
    type V = LeafV;

    open spec fn view(&self) -> LeafV {
        LeafV { text: self.op.text(), attrs: self.op.attrs() }
    }
}

impl LeafNode {
    /// A leaf holds a non-empty, terminator-free run of text under the leaf
    /// format.
    pub open spec fn wf(&self) -> bool {
        &&& self.op.wf()
        &&& self.op.is_text_insert()
        &&& fmt_is_text(self.formatter@)
        &&& self@.text.len() >= 1
        &&& forall|i: int| 0 <= i < self@.text.len() ==> self@.text[i] != '\n'
    }

    /// Own content length: the number of characters of the run.
    pub fn op_len(&self) -> (r: usize)
        requires
            self.wf(),
        ensures
            r == self@.text.len(),
    {
        self.op.op_len()
    }

    /// The attached edit operation.
    pub fn get_operation(&self) -> (r: &DeltaOperation) {
        &self.op
    }
}

/// A block node: one line's container.  Its length is always one, the line
/// terminator; its children are the line's leaves.  `placeholder` mirrors the
/// render placeholder that an empty block needs so a cursor can be shown.
pub struct BlockNode {
    pub formatter: Formatter,
    pub op: DeltaOperation,
    pub children: Vec<LeafNode>,
    pub placeholder: bool,
}

/// Specification view of a block.
#[verifier::ext_equal]
pub struct BlockV {
    pub fmt: FmtV,
    pub attrs: Map<Seq<char>, AttrV>,
    pub children: Seq<LeafV>,
    pub placeholder: bool,
}

impl View for BlockNode {
    type V = BlockV;

    open spec fn view(&self) -> BlockV {
        BlockV {
            fmt: self.formatter@,
            attrs: self.op.attrs(),
            children: self.children@.map(|i: int, l: LeafNode| l@),
            placeholder: self.placeholder,
        }
    }
}

impl BlockNode {
    /// A block carries a lone line terminator under a block format, and
    /// well-formed leaves.  A header block names its level.
    pub open spec fn wf(&self) -> bool {
        &&& self.op.wf()
        &&& crate::formatter::spec_is_newline(&self.op)
        &&& fmt_is_block(self.formatter@)
        &&& (self.formatter@ is Header ==> self.op.attrs().contains_key(HEADER_ATTR_KEY@)
            && self.op.attrs()[HEADER_ATTR_KEY@] is Number)
        &&& forall|i: int| 0 <= i < self.children@.len() ==> (#[trigger] self.children@[i]).wf()
    }

    /// Own content length, not including descendants: always one.
    pub fn op_len(&self) -> (r: usize)
        requires
            self.wf(),
        ensures
            r == 1,
    {
        proof {
            assert(self.op.text().len() == 1);
        }
        self.op.op_len()
    }

    /// Number of leaves in the block.
    pub fn child_count(&self) -> (r: usize)
        ensures
            r == self@.children.len(),
    {
        self.children.len()
    }

    /// A block with no children is empty; it then needs a render placeholder.
    pub fn is_empty_block(&self) -> (r: bool)
        ensures
            r == (self@.children.len() == 0),
    {
        self.children.len() == 0
    }

    /// The attached edit operation.
    pub fn get_operation(&self) -> (r: &DeltaOperation) {
        &self.op
    }
}

/// One character of the document stream with the attributes it carries.
#[verifier::ext_equal]
pub struct AttrChar {
    pub c: char,
    pub a: Map<Seq<char>, AttrV>,
}

/// Builds one attributed character.
pub open spec fn attr_char(c: char, a: Map<Seq<char>, AttrV>) -> AttrChar {
    AttrChar { c, a }
}

/// The attributed characters of one leaf.
pub open spec fn leaf_chars(l: LeafV) -> Seq<AttrChar> {
    Seq::new(l.text.len(), |i: int| attr_char(l.text[i], l.attrs))
}

/// The attributed characters of a list of leaves, in order.
pub open spec fn leaves_chars(ls: Seq<LeafV>) -> Seq<AttrChar>
    decreases ls.len(),
{
    if ls.len() == 0 {
        Seq::empty()
    } else {
        leaf_chars(ls[0]) + leaves_chars(ls.drop_first())
    }
}

/// The attributed characters of one block: its content, then its line
/// terminator carrying the block's attributes.
pub open spec fn block_chars(b: BlockV) -> Seq<AttrChar> {
    leaves_chars(b.children) + seq![attr_char('\n', b.attrs)]
}

/// The attributed characters of a list of blocks, in document order.
pub open spec fn blocks_chars(bs: Seq<BlockV>) -> Seq<AttrChar>
    decreases bs.len(),
{
    if bs.len() == 0 {
        Seq::empty()
    } else {
        block_chars(bs[0]) + blocks_chars(bs.drop_first())
    }
}

/// How many line terminators a stream of attributed characters holds.
pub open spec fn terminator_count(s: Seq<AttrChar>) -> nat
    decreases s.len(),
{
    if s.len() == 0 {
        0
    } else {
        terminator_count(s.drop_first()) + (if s[0].c == '\n' {
            1nat
        } else {
            0nat
        })
    }
}

/// Terminator counts add over concatenation.
pub proof fn lemma_terminator_count_concat(a: Seq<AttrChar>, b: Seq<AttrChar>)
    ensures
        terminator_count(a + b) == terminator_count(a) + terminator_count(b),
    decreases a.len(),
{
    if a.len() == 0 {
        assert(a + b =~= b);
    } else {
        assert((a + b)[0] == a[0]);
        assert((a + b).drop_first() =~= a.drop_first() + b);
        lemma_terminator_count_concat(a.drop_first(), b);
    }
}

/// A terminator-free stream counts zero.
pub proof fn lemma_terminator_count_free(s: Seq<AttrChar>)
    requires
        forall|i: int| 0 <= i < s.len() ==> (#[trigger] s[i]).c != '\n',
    ensures
        terminator_count(s) == 0,
    decreases s.len(),
{
    if s.len() > 0 {
        assert forall|i: int| 0 <= i < s.drop_first().len() implies (
        #[trigger] s.drop_first()[i]).c != '\n' by {
            assert(s.drop_first()[i] == s[i + 1]);
        };
        lemma_terminator_count_free(s.drop_first());
    }
}

/// A leaf view as the tree keeps it: a non-empty, terminator-free text run.
pub open spec fn leaf_run_wf(l: LeafV) -> bool {
    &&& l.text.len() >= 1
    &&& forall|i: int| 0 <= i < l.text.len() ==> l.text[i] != '\n'
}

/// Every leaf of every block in the view is a terminator-free text run.
pub open spec fn blocks_runs_wf(bs: Seq<BlockV>) -> bool {
    forall|b: int, l: int|
        0 <= b < bs.len() && 0 <= l < bs[b].children.len() ==> leaf_run_wf(
            #[trigger] bs[b].children[l],
        )
}

/// Terminator-free leaves contribute no terminators to the stream.
pub proof fn lemma_leaves_terminator_count(ls: Seq<LeafV>)
    requires
        forall|l: int| 0 <= l < ls.len() ==> leaf_run_wf(#[trigger] ls[l]),
    ensures
        terminator_count(leaves_chars(ls)) == 0,
    decreases ls.len(),
{
    if ls.len() == 0 {
        assert(leaves_chars(ls) == Seq::<AttrChar>::empty());
    } else {
        lemma_terminator_count_concat(leaf_chars(ls[0]), leaves_chars(ls.drop_first()));
        assert(forall|i: int|
            0 <= i < leaf_chars(ls[0]).len() ==> (#[trigger] leaf_chars(ls[0])[i]).c != '\n');
        lemma_terminator_count_free(leaf_chars(ls[0]));
        lemma_leaves_terminator_count(ls.drop_first());
    }
}

/// A document holds exactly one line terminator per block.
pub proof fn lemma_blocks_terminator_count(bs: Seq<BlockV>)
    requires
        blocks_runs_wf(bs),
    ensures
        terminator_count(blocks_chars(bs)) == bs.len(),
    decreases bs.len(),
{
    if bs.len() == 0 {
        assert(terminator_count(Seq::<AttrChar>::empty()) == 0);
    } else {
        lemma_terminator_count_concat(block_chars(bs[0]), blocks_chars(bs.drop_first()));
        lemma_terminator_count_concat(
            leaves_chars(bs[0].children),
            seq![attr_char('\n', bs[0].attrs)],
        );
        assert(forall|l: int| 0 <= l < bs[0].children.len() ==> leaf_run_wf(#[trigger] bs[0].children[l]));
        lemma_leaves_terminator_count(bs[0].children);
        assert(seq![attr_char('\n', bs[0].attrs)].drop_first() =~= Seq::<AttrChar>::empty());
        assert(terminator_count(Seq::<AttrChar>::empty()) == 0);
        assert(seq![attr_char('\n', bs[0].attrs)][0].c == '\n');
        assert(terminator_count(seq![attr_char('\n', bs[0].attrs)]) == 1);
        assert forall|b: int, l: int|
            0 <= b < bs.drop_first().len() && 0 <= l < bs.drop_first()[b].children.len() implies leaf_run_wf(
            #[trigger] bs.drop_first()[b].children[l],
        ) by {
            assert(bs.drop_first()[b] == bs[b + 1]);
        };
        lemma_blocks_terminator_count(bs.drop_first());
    }
}

/// Every block satisfies its node invariant.
pub open spec fn doc_blocks_wf(blocks: Seq<BlockNode>) -> bool {
    forall|i: int| 0 <= i < blocks.len() ==> (#[trigger] blocks[i]).wf()
}

/// Canonical form of one block: no two adjacent leaves share attributes, and
/// the placeholder flag is set exactly for an empty block.
pub open spec fn block_canonical(b: BlockV) -> bool {
    &&& forall|j: int|
        0 <= j < b.children.len() - 1 ==> (#[trigger] b.children[j]).attrs != b.children[j
            + 1].attrs
    &&& b.placeholder == (b.children.len() == 0)
}

/// Canonical form of the document's blocks.
pub open spec fn doc_canonical(bs: Seq<BlockV>) -> bool {
    forall|i: int| 0 <= i < bs.len() ==> block_canonical(#[trigger] bs[i])
}

/// The view of a list of block nodes.
pub open spec fn blocks_view(blocks: Seq<BlockNode>) -> Seq<BlockV> {
    blocks.map(|i: int, b: BlockNode| b@)
}

/// Builds a leaf view.
pub open spec fn leaf_v(text: Seq<char>, attrs: Map<Seq<char>, AttrV>) -> LeafV {
    LeafV { text, attrs }
}

/// The same block with other children.
pub open spec fn with_children(b: BlockV, ch: Seq<LeafV>) -> BlockV {
    BlockV { children: ch, ..b }
}

/// Splitting a leaf's text splits its character stream.
pub proof fn lemma_leaf_chars_text_split(t: Seq<char>, a: Map<Seq<char>, AttrV>, i: int)
    requires
        0 <= i <= t.len(),
    ensures
        leaf_chars(leaf_v(t, a)) == leaf_chars(leaf_v(t.take(i), a)) + leaf_chars(
            leaf_v(t.skip(i), a),
        ),
{
    assert(leaf_chars(leaf_v(t, a)) =~= leaf_chars(leaf_v(t.take(i), a)) + leaf_chars(
        leaf_v(t.skip(i), a),
    ));
}

/// Splitting a leaf list splits its character stream.
pub proof fn lemma_leaves_chars_concat(a: Seq<LeafV>, b: Seq<LeafV>)
    ensures
        leaves_chars(a + b) == leaves_chars(a) + leaves_chars(b),
    decreases a.len(),
{
    if a.len() == 0 {
        assert(a + b =~= b);
        assert(leaves_chars(a) + leaves_chars(b) =~= leaves_chars(b));
    } else {
        assert((a + b).drop_first() =~= a.drop_first() + b);
        assert((a + b)[0] == a[0]);
        lemma_leaves_chars_concat(a.drop_first(), b);
        assert(leaves_chars(a + b) =~= leaves_chars(a) + leaves_chars(b));
    }
}

/// The character stream of a single leaf list element.
pub proof fn lemma_leaves_chars_singleton(l: LeafV)
    ensures
        leaves_chars(seq![l]) == leaf_chars(l),
{
    assert(seq![l].len() == 1);
    assert(seq![l][0] == l);
    assert(seq![l].drop_first() =~= Seq::<LeafV>::empty());
    assert(leaves_chars(Seq::<LeafV>::empty()) == Seq::<AttrChar>::empty());
    assert(leaves_chars(seq![l]) =~= leaf_chars(l));
}

/// Splitting a leaf list at an element splits its character stream in three.
pub proof fn lemma_leaves_chars_split(ls: Seq<LeafV>, i: int)
    requires
        0 <= i < ls.len(),
    ensures
        leaves_chars(ls) == leaves_chars(ls.take(i)) + leaf_chars(ls[i]) + leaves_chars(
            ls.skip(i + 1),
        ),
{
    assert(ls =~= ls.take(i) + seq![ls[i]] + ls.skip(i + 1));
    lemma_leaves_chars_concat(ls.take(i) + seq![ls[i]], ls.skip(i + 1));
    lemma_leaves_chars_concat(ls.take(i), seq![ls[i]]);
    lemma_leaves_chars_singleton(ls[i]);
}

/// Splitting a block list splits its character stream.
pub proof fn lemma_blocks_chars_concat(a: Seq<BlockV>, b: Seq<BlockV>)
    ensures
        blocks_chars(a + b) == blocks_chars(a) + blocks_chars(b),
    decreases a.len(),
{
    if a.len() == 0 {
        assert(a + b =~= b);
        assert(blocks_chars(a) + blocks_chars(b) =~= blocks_chars(b));
    } else {
        assert((a + b).drop_first() =~= a.drop_first() + b);
        assert((a + b)[0] == a[0]);
        lemma_blocks_chars_concat(a.drop_first(), b);
        assert(blocks_chars(a + b) =~= blocks_chars(a) + blocks_chars(b));
    }
}

/// The character stream of a single block list element.
pub proof fn lemma_blocks_chars_singleton(b: BlockV)
    ensures
        blocks_chars(seq![b]) == block_chars(b),
{
    assert(seq![b].len() == 1);
    assert(seq![b][0] == b);
    assert(seq![b].drop_first() =~= Seq::<BlockV>::empty());
    assert(blocks_chars(Seq::<BlockV>::empty()) == Seq::<AttrChar>::empty());
    assert(blocks_chars(seq![b]) =~= block_chars(b));
}

/// Splitting a block list at an element splits its character stream in three.
pub proof fn lemma_blocks_chars_split(bs: Seq<BlockV>, i: int)
    requires
        0 <= i < bs.len(),
    ensures
        blocks_chars(bs) == blocks_chars(bs.take(i)) + block_chars(bs[i]) + blocks_chars(
            bs.skip(i + 1),
        ),
{
    assert(bs =~= bs.take(i) + seq![bs[i]] + bs.skip(i + 1));
    lemma_blocks_chars_concat(bs.take(i) + seq![bs[i]], bs.skip(i + 1));
    lemma_blocks_chars_concat(bs.take(i), seq![bs[i]]);
    lemma_blocks_chars_singleton(bs[i]);
}

/// A prefix of a leaf list contributes no more characters than the whole.
pub proof fn lemma_leaves_prefix_le(ls: Seq<LeafV>, j: int)
    requires
        0 <= j <= ls.len(),
    ensures
        leaves_chars(ls.take(j)).len() <= leaves_chars(ls).len(),
{
    assert(ls =~= ls.take(j) + ls.skip(j));
    lemma_leaves_chars_concat(ls.take(j), ls.skip(j));
}

/// A prefix of a block list contributes no more characters than the whole.
pub proof fn lemma_blocks_prefix_le(bs: Seq<BlockV>, j: int)
    requires
        0 <= j <= bs.len(),
    ensures
        blocks_chars(bs.take(j)).len() <= blocks_chars(bs).len(),
{
    assert(bs =~= bs.take(j) + bs.skip(j));
    lemma_blocks_chars_concat(bs.take(j), bs.skip(j));
}

/// Extending a leaf prefix by one element appends that leaf's characters.
pub proof fn lemma_leaves_take_snoc(ls: Seq<LeafV>, j: int)
    requires
        0 <= j < ls.len(),
    ensures
        leaves_chars(ls.take(j + 1)) == leaves_chars(ls.take(j)) + leaf_chars(ls[j]),
{
    assert(ls.take(j + 1) =~= ls.take(j) + seq![ls[j]]);
    lemma_leaves_chars_concat(ls.take(j), seq![ls[j]]);
    lemma_leaves_chars_singleton(ls[j]);
}

/// Extending a block prefix by one element appends that block's characters.
pub proof fn lemma_blocks_take_snoc(bs: Seq<BlockV>, j: int)
    requires
        0 <= j < bs.len(),
    ensures
        blocks_chars(bs.take(j + 1)) == blocks_chars(bs.take(j)) + block_chars(bs[j]),
{
    assert(bs.take(j + 1) =~= bs.take(j) + seq![bs[j]]);
    lemma_blocks_chars_concat(bs.take(j), seq![bs[j]]);
    lemma_blocks_chars_singleton(bs[j]);
}

/// Replacing one block replaces its characters in the stream.
pub proof fn lemma_chars_update_block(bs: Seq<BlockV>, b: int, nb: BlockV)
    requires
        0 <= b < bs.len(),
    ensures
        blocks_chars(bs.update(b, nb)) == blocks_chars(bs.take(b)) + block_chars(nb)
            + blocks_chars(bs.skip(b + 1)),
        blocks_chars(bs) == blocks_chars(bs.take(b)) + block_chars(bs[b]) + blocks_chars(
            bs.skip(b + 1),
        ),
{
    lemma_blocks_chars_split(bs, b);
    let bs1 = bs.update(b, nb);
    lemma_blocks_chars_split(bs1, b);
    assert(bs1.take(b) =~= bs.take(b));
    assert(bs1.skip(b + 1) =~= bs.skip(b + 1));
}

/// Replacing one leaf replaces its characters in a block's content.
pub proof fn lemma_chars_update_leaf(ls: Seq<LeafV>, l: int, repl: Seq<LeafV>)
    requires
        0 <= l < ls.len(),
    ensures
        leaves_chars(ls.take(l) + repl + ls.skip(l + 1)) == leaves_chars(ls.take(l))
            + leaves_chars(repl) + leaves_chars(ls.skip(l + 1)),
        leaves_chars(ls) == leaves_chars(ls.take(l)) + leaf_chars(ls[l]) + leaves_chars(
            ls.skip(l + 1),
        ),
{
    lemma_leaves_chars_split(ls, l);
    lemma_leaves_chars_concat(ls.take(l) + repl, ls.skip(l + 1));
    lemma_leaves_chars_concat(ls.take(l), repl);
}

/// Splitting one leaf's text into two leaves concatenates their characters.
pub proof fn lemma_leaf_chars_text_concat(t1: Seq<char>, t2: Seq<char>, a: Map<Seq<char>, AttrV>)
    ensures
        leaf_chars(leaf_v(t1 + t2, a)) == leaf_chars(leaf_v(t1, a)) + leaf_chars(leaf_v(t2, a)),
{
    assert(leaf_chars(leaf_v(t1 + t2, a)) =~= leaf_chars(leaf_v(t1, a)) + leaf_chars(
        leaf_v(t2, a),
    ));
}

/// The character stream of a two-leaf list.
pub proof fn lemma_leaves_chars_pair(a: LeafV, b: LeafV)
    ensures
        leaves_chars(seq![a, b]) == leaf_chars(a) + leaf_chars(b),
{
    assert(seq![a, b].drop_first() =~= seq![b]);
    lemma_leaves_chars_singleton(b);
    assert(seq![a, b][0] == a);
    assert(leaves_chars(seq![a, b]) =~= leaf_chars(a) + leaf_chars(b));
}

/// `s1` is `s0` with `k` characters removed at `p`.
pub open spec fn chars_removed(s0: Seq<AttrChar>, s1: Seq<AttrChar>, p: int, k: int) -> bool {
    s1 == s0.take(p) + s0.skip(p + k)
}

/// `s1` is `s0` with `what` inserted at `p`.
pub open spec fn chars_inserted(
    s0: Seq<AttrChar>,
    s1: Seq<AttrChar>,
    p: int,
    what: Seq<AttrChar>,
) -> bool {
    s1 == s0.take(p) + what + s0.skip(p)
}

/// Dropping the middle part of a three-part concatenation is a removal at
/// the border of the first part.
pub proof fn lemma_chars_removed_parts(a: Seq<AttrChar>, mid: Seq<AttrChar>, c: Seq<AttrChar>)
    ensures
        chars_removed(a + mid + c, a + c, a.len() as int, mid.len() as int),
{
    assert((a + mid + c).take(a.len() as int) =~= a);
    assert((a + mid + c).skip(a.len() + mid.len() as int) =~= c);
    assert(a + c =~= (a + mid + c).take(a.len() as int) + (a + mid + c).skip(
        a.len() + mid.len() as int,
    ));
}

/// Adding a middle part to a concatenation is an insertion at the border of
/// the first part.
pub proof fn lemma_chars_inserted_parts(a: Seq<AttrChar>, mid: Seq<AttrChar>, c: Seq<AttrChar>)
    ensures
        chars_inserted(a + c, a + mid + c, a.len() as int, mid),
{
    assert((a + c).take(a.len() as int) =~= a);
    assert((a + c).skip(a.len() as int) =~= c);
    assert(a + mid + c =~= (a + c).take(a.len() as int) + mid + (a + c).skip(a.len() as int));
}

/// Splitting one leaf's text at two points concatenates three leaves'
/// characters.
pub proof fn lemma_leaf_chars_text_split3(t: Seq<char>, a: Map<Seq<char>, AttrV>, i: int, j: int)
    requires
        0 <= i <= j <= t.len(),
    ensures
        leaf_chars(leaf_v(t, a)) == leaf_chars(leaf_v(t.take(i), a)) + leaf_chars(
            leaf_v(t.subrange(i, j), a),
        ) + leaf_chars(leaf_v(t.skip(j), a)),
{
    assert(leaf_chars(leaf_v(t, a)) =~= leaf_chars(leaf_v(t.take(i), a)) + leaf_chars(
        leaf_v(t.subrange(i, j), a),
    ) + leaf_chars(leaf_v(t.skip(j), a)));
}

/// Updating the single middle element of a three-part concatenation.
pub proof fn lemma_chars_update_parts(a: Seq<AttrChar>, x: AttrChar, y: AttrChar, c: Seq<AttrChar>)
    ensures
        (a + seq![x] + c).update(a.len() as int, y) == a + seq![y] + c,
{
    assert((a + seq![x] + c).update(a.len() as int, y) =~= a + seq![y] + c);
}

/// The position of a block's line terminator in the document stream.
pub open spec fn block_nl_offset(bs: Seq<BlockV>, b: int) -> int {
    blocks_chars(bs.take(b)).len() + leaves_chars(bs[b].children).len() as int
}

/// Two removals at the same point compose into one longer removal.
pub proof fn lemma_removed_compose(s0: Seq<AttrChar>, s1: Seq<AttrChar>, s2: Seq<AttrChar>, p: int, c: int, k: int)
    requires
        0 <= p,
        0 <= c,
        0 <= k,
        p + c + k <= s0.len(),
        chars_removed(s0, s1, p, c),
        chars_removed(s1, s2, p, k),
    ensures
        chars_removed(s0, s2, p, c + k),
{
    assert(s1.take(p) =~= s0.take(p));
    assert(s1.skip(p + k) =~= s0.skip(p + c + k));
}

/// `s1` is `s0` with the attributes of the characters in `[p, q)` replaced
/// by the composition of their own attributes with `attr`.
pub open spec fn chars_retained(
    s0: Seq<AttrChar>,
    s1: Seq<AttrChar>,
    p: int,
    q: int,
    attr: Map<Seq<char>, AttrV>,
) -> bool {
    &&& s1.len() == s0.len()
    &&& forall|i: int|
        0 <= i < s0.len() ==> #[trigger] s1[i] == (if p <= i < q {
            attr_char(s0[i].c, crate::attributes::spec_compose(s0[i].a, attr, false))
        } else {
            s0[i]
        })
}

/// Two adjacent re-attributions compose into one longer one.
pub proof fn lemma_retained_compose(
    s0: Seq<AttrChar>,
    s1: Seq<AttrChar>,
    s2: Seq<AttrChar>,
    p: int,
    m: int,
    q: int,
    attr: Map<Seq<char>, AttrV>,
)
    requires
        p <= m <= q,
        chars_retained(s0, s1, p, m, attr),
        chars_retained(s1, s2, m, q, attr),
    ensures
        chars_retained(s0, s2, p, q, attr),
{
    assert forall|i: int| 0 <= i < s0.len() implies #[trigger] s2[i] == (if p <= i < q {
        attr_char(s0[i].c, crate::attributes::spec_compose(s0[i].a, attr, false))
    } else {
        s0[i]
    }) by {
        assert(s1[i] == (if p <= i < m {
            attr_char(s0[i].c, crate::attributes::spec_compose(s0[i].a, attr, false))
        } else {
            s0[i]
        }));
    }
}

/// Two insertions at consecutive points compose into one longer insertion.
pub proof fn lemma_inserted_compose(
    s0: Seq<AttrChar>,
    s1: Seq<AttrChar>,
    s2: Seq<AttrChar>,
    p: int,
    x: Seq<AttrChar>,
    y: Seq<AttrChar>,
)
    requires
        0 <= p <= s0.len(),
        chars_inserted(s0, s1, p, x),
        chars_inserted(s1, s2, p + x.len(), y),
    ensures
        chars_inserted(s0, s2, p, x + y),
{
    assert(s1.take(p + x.len()) =~= s0.take(p) + x);
    assert(s1.skip(p + x.len()) =~= s0.skip(p));
    assert(s2 =~= s0.take(p) + (x + y) + s0.skip(p));
}

/// The whole document's character stream fits the machine's word.
pub open spec fn doc_fits(bs: Seq<BlockV>) -> bool {
    blocks_chars(bs).len() <= usize::MAX
}

impl BlockNode {
    /// The number of characters of the block's content, not counting the
    /// line terminator.
    pub fn content_len(&self) -> (r: usize)
        requires
            self.wf(),
            leaves_chars(self@.children).len() <= usize::MAX,
        ensures
            r == leaves_chars(self@.children).len(),
    {
        let n = self.children.len();
        let mut acc: usize = 0;
        let mut i: usize = 0;
        while i < n
            invariant
                self.wf(),
                leaves_chars(self@.children).len() <= usize::MAX,
                n == self@.children.len(),
                i <= n,
                acc == leaves_chars(self@.children.take(i as int)).len(),
            decreases n - i,
        {
            proof {
                lemma_leaves_take_snoc(self@.children, i as int);
                lemma_leaves_prefix_le(self@.children, i + 1);
                assert(self@.children[i as int] == self.children@[i as int]@);
                assert(leaf_chars(self@.children[i as int]).len() == self@.children[
                    i as int
                ].text.len());
                assert(leaves_chars(self@.children.take(i + 1)).len() == acc + self@.children[
                    i as int
                ].text.len());
            }
            acc = acc + self.children[i].op_len();
            i = i + 1;
        }
        proof {
            assert(self@.children.take(n as int) =~= self@.children);
        }
        acc
    }
}

/// The number of characters of the whole document.
pub fn doc_len(blocks: &Vec<BlockNode>) -> (r: usize)
    requires
        doc_blocks_wf(blocks@),
        doc_fits(blocks_view(blocks@)),
    ensures
        r == blocks_chars(blocks_view(blocks@)).len(),
{
    let ghost bs = blocks_view(blocks@);
    let n = blocks.len();
    let mut acc: usize = 0;
    let mut i: usize = 0;
    while i < n
        invariant
            doc_blocks_wf(blocks@),
            doc_fits(bs),
            bs == blocks_view(blocks@),
            n == bs.len(),
            i <= n,
            acc == blocks_chars(bs.take(i as int)).len(),
        decreases n - i,
    {
        proof {
            lemma_blocks_take_snoc(bs, i as int);
            lemma_blocks_prefix_le(bs, i + 1);
            lemma_leaves_prefix_le(bs[i as int].children, bs[i as int].children.len() as int);
        }
        let c = blocks[i].content_len();
        acc = acc + c + 1;
        i = i + 1;
    }
    proof {
        assert(bs.take(n as int) =~= bs);
    }
    acc
}

/// Toggling one attribute over a range of the document is the identity:
/// re-attributing a range with a value whose key none of its characters
/// carry, then re-attributing the same range with the clearing marker for
/// that key, restores the original attributed characters.
pub proof fn lemma_retain_toggle(
    s0: Seq<AttrChar>,
    s1: Seq<AttrChar>,
    s2: Seq<AttrChar>,
    p: int,
    q: int,
    k: Seq<char>,
    v: AttrV,
)
    requires
        chars_retained(s0, s1, p, q, Map::<Seq<char>, AttrV>::empty().insert(k, v)),
        chars_retained(s1, s2, p, q, Map::<Seq<char>, AttrV>::empty().insert(k, AttrV::Null)),
        !(v is Null),
        forall|i: int|
            p <= i < q && 0 <= i < s0.len() ==> !(#[trigger] s0[i]).a.contains_key(k)
                && crate::attributes::null_free(s0[i].a),
    ensures
        s2 == s0,
{
    assert forall|i: int| 0 <= i < s0.len() implies #[trigger] s2[i] == s0[i] by {
        if p <= i < q {
            crate::attributes::lemma_compose_toggle(s0[i].a, k, v);
            assert(s1[i].a == crate::attributes::spec_compose(
                s0[i].a,
                Map::<Seq<char>, AttrV>::empty().insert(k, v),
                false,
            ));
        }
    }
    assert(s2 =~= s0);
}

} // verus!
