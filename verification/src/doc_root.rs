//! The document root: the tree, the cursor, the registry, and the editing
//! state, with the entry points that apply edit operations.

use crate::auto_soft_break::AutomaticSoftBreak;
use crate::cursor::{cursor_synced, loc_offset, loc_valid, Cursor, CursorLocation, NodeAddr};
use crate::delta_doc::{lemma_ops_chars_snoc, ops_chars, Delta};
use crate::doc_node::{
    blocks_chars, blocks_view, chars_inserted, doc_blocks_wf, leaf_chars, leaf_v, BlockNode,
};
use crate::error::Error;
use crate::op_insert::{doc_ready, single_line};
use crate::operations::{spec_op_len, DeltaOperation, OpKind};
use crate::registry::{first_match, Registry};
use vstd::prelude::*;
use vstd::string::StrSliceExecFns;
use vstd::string::StringExecFns;

verus! {

/// The editor's state: responding to input, readable only, or closed.
#[derive(Clone, Copy, PartialEq, Eq, Structural, Debug)]
pub enum EditorMode {
    Edit,
    Read,
    Closed,
}

/// The document root: one document's tree, cursor and registry, with the
/// operational entry points tying them together.
pub struct DocumentRoot {
    mode: EditorMode,
    cursor: Cursor,
    registry: Registry,
    blocks: Vec<BlockNode>,
}

/// The abstract editing state an operation stream folds over: the
/// document's attributed character stream and the cursor's absolute offset.
#[verifier::ext_equal]
pub struct EditState {
    pub stream: Seq<crate::doc_node::AttrChar>,
    pub pos: int,
}

/// The stream after a retain of `op`'s length at `p`: each character in the
/// crossed range carries the composed attributes, the rest stand unchanged.
/// A retain without attributes leaves the stream as it was.
pub open spec fn retain_streamed(
    s: Seq<crate::doc_node::AttrChar>,
    p: int,
    op: DeltaOperation,
) -> Seq<crate::doc_node::AttrChar> {
    if op.attrs() == Map::<Seq<char>, crate::attr_val::AttrV>::empty() {
        s
    } else {
        let q = if p + spec_op_len(op@) <= s.len() {
            p + spec_op_len(op@)
        } else {
            s.len() as int
        };
        Seq::new(
            s.len(),
            |i: int|
                if p <= i < q {
                    crate::doc_node::attr_char(
                        s[i].c,
                        crate::attributes::spec_compose(s[i].a, op.attrs(), false),
                    )
                } else {
                    s[i]
                },
        )
    }
}

/// One operation's effect on the abstract editing state: an insert puts its
/// characters at the cursor and moves it past them, a delete removes the
/// characters that follow the cursor, and a retain composes its attributes
/// over the crossed range and lands the cursor there, clamped to the last
/// position.
pub open spec fn op_step(st: EditState, op: DeltaOperation) -> EditState {
    match op@.kind {
        crate::operations::OpKindV::Insert(_) => EditState {
            stream: st.stream.take(st.pos) + leaf_chars(leaf_v(op.text(), op.attrs()))
                + st.stream.skip(st.pos),
            pos: st.pos + spec_op_len(op@),
        },
        crate::operations::OpKindV::Delete(k) => EditState {
            stream: st.stream.take(st.pos) + st.stream.skip(st.pos + k),
            pos: st.pos,
        },
        crate::operations::OpKindV::Retain(k) => EditState {
            stream: retain_streamed(st.stream, st.pos, op),
            pos: if st.pos + k + 1 <= st.stream.len() {
                st.pos + k
            } else {
                st.stream.len() - 1
            },
        },
    }
}

/// The state after a whole operation stream, applied in order from `st`.
pub open spec fn fold_ops(st: EditState, ops: Seq<DeltaOperation>) -> EditState
    decreases ops.len(),
{
    if ops.len() == 0 {
        st
    } else {
        fold_ops(op_step(st, ops[0]), ops.drop_first())
    }
}

/// Whether one operation, applied at `st`, is owed success: it keeps the
/// stream and the cursor inside the machine's limits, an insert resolves
/// through the registry, a delete stays inside the document, and a retain
/// carries no attributes.
pub open spec fn op_step_ok(
    blist: Seq<crate::formatter::FmtV>,
    llist: Seq<crate::formatter::FmtV>,
    st: EditState,
    op: DeltaOperation,
) -> bool {
    &&& st.pos + spec_op_len(op@) <= usize::MAX
    &&& st.stream.len() + spec_op_len(op@) <= usize::MAX
    &&& match op@.kind {
        crate::operations::OpKindV::Insert(_) => crate::op_insert::insert_stream_accepted(
            blist,
            llist,
            &op,
        ),
        crate::operations::OpKindV::Delete(k) => st.pos + k + 1 <= st.stream.len(),
        crate::operations::OpKindV::Retain(_) => op.attrs() == Map::<
            Seq<char>,
            crate::attr_val::AttrV,
        >::empty(),
    }
}

/// Whether every operation of the stream, applied in order from `st`, is
/// owed success.
pub open spec fn fold_ok(
    blist: Seq<crate::formatter::FmtV>,
    llist: Seq<crate::formatter::FmtV>,
    st: EditState,
    ops: Seq<DeltaOperation>,
) -> bool
    decreases ops.len(),
{
    ops.len() == 0 || (op_step_ok(blist, llist, st, ops[0]) && fold_ok(
        blist,
        llist,
        op_step(st, ops[0]),
        ops.drop_first(),
    ))
}

/// Folding one more operation steps the folded state once.
proof fn lemma_fold_snoc(st: EditState, ops: Seq<DeltaOperation>, op: DeltaOperation)
    ensures
        fold_ops(st, ops.push(op)) == op_step(fold_ops(st, ops), op),
    decreases ops.len(),
{
    if ops.len() == 0 {
        assert(ops.push(op)[0] == op);
        assert(ops.push(op).drop_first() =~= Seq::<DeltaOperation>::empty());
        assert(fold_ops(st, ops.push(op)) == fold_ops(
            op_step(st, op),
            ops.push(op).drop_first(),
        ));
        assert(fold_ops(op_step(st, op), ops.push(op).drop_first()) == op_step(st, op));
        assert(fold_ops(st, ops) == st);
    } else {
        assert(ops.push(op)[0] == ops[0]);
        assert(ops.push(op).drop_first() =~= ops.drop_first().push(op));
        lemma_fold_snoc(op_step(st, ops[0]), ops.drop_first(), op);
        assert(fold_ops(st, ops.push(op)) == fold_ops(
            op_step(st, ops[0]),
            ops.drop_first().push(op),
        ));
        assert(fold_ops(st, ops) == fold_ops(op_step(st, ops[0]), ops.drop_first()));
    }
}

/// A stream owed success is owed success at each step along the way.
proof fn lemma_fold_ok_at(
    blist: Seq<crate::formatter::FmtV>,
    llist: Seq<crate::formatter::FmtV>,
    st: EditState,
    ops: Seq<DeltaOperation>,
    i: int,
)
    requires
        0 <= i < ops.len(),
        fold_ok(blist, llist, st, ops),
    ensures
        op_step_ok(blist, llist, fold_ops(st, ops.take(i)), ops[i]),
    decreases i,
{
    if i == 0 {
        assert(ops.take(0) =~= Seq::<DeltaOperation>::empty());
    } else {
        let st1 = op_step(st, ops[0]);
        lemma_fold_ok_at(blist, llist, st1, ops.drop_first(), i - 1);
        assert(ops.take(i)[0] == ops[0]);
        assert(ops.take(i).drop_first() =~= ops.drop_first().take(i - 1));
        assert(ops.drop_first()[i - 1] == ops[i]);
    }
}

/// The shape a document serializes to, one entry per operation: each leaf
/// in order becomes one entry, and each block closes with a one-terminator
/// entry carrying the block's attributes.
pub open spec fn doc_ops_view(bs: Seq<crate::doc_node::BlockV>) -> Seq<crate::doc_node::LeafV>
    decreases bs.len(),
{
    if bs.len() == 0 {
        Seq::empty()
    } else {
        (bs[0].children.push(leaf_v(seq!['\n'], bs[0].attrs))) + doc_ops_view(bs.drop_first())
    }
}

/// The serialized shape of two block lists laid end to end.
proof fn lemma_doc_ops_view_concat(xs: Seq<crate::doc_node::BlockV>, ys: Seq<crate::doc_node::BlockV>)
    ensures
        doc_ops_view(xs + ys) == doc_ops_view(xs) + doc_ops_view(ys),
    decreases xs.len(),
{
    if xs.len() == 0 {
        assert(xs + ys =~= ys);
        assert(doc_ops_view(xs) + doc_ops_view(ys) =~= doc_ops_view(ys));
    } else {
        assert((xs + ys)[0] == xs[0]);
        assert((xs + ys).drop_first() =~= xs.drop_first() + ys);
        lemma_doc_ops_view_concat(xs.drop_first(), ys);
        assert(doc_ops_view(xs + ys) =~= doc_ops_view(xs) + doc_ops_view(ys));
    }
}

/// Serializing one more block appends its leaves and its terminator entry.
proof fn lemma_doc_ops_view_snoc(bs: Seq<crate::doc_node::BlockV>, b: int)
    requires
        0 <= b < bs.len(),
    ensures
        doc_ops_view(bs.take(b + 1)) == doc_ops_view(bs.take(b)) + bs[b].children.push(
            leaf_v(seq!['\n'], bs[b].attrs),
        ),
{
    assert(bs.take(b + 1) =~= bs.take(b) + seq![bs[b]]);
    lemma_doc_ops_view_concat(bs.take(b), seq![bs[b]]);
    assert(seq![bs[b]].drop_first() =~= Seq::<crate::doc_node::BlockV>::empty());
    assert(doc_ops_view(Seq::<crate::doc_node::BlockV>::empty()) =~= Seq::<
        crate::doc_node::LeafV,
    >::empty());
    assert(doc_ops_view(seq![bs[b]]) =~= bs[b].children.push(leaf_v(seq!['\n'], bs[b].attrs)));
}

impl DocumentRoot {
    /// The block list.
    pub closed spec fn blocks(&self) -> Seq<crate::doc_node::BlockV> {
        blocks_view(self.blocks@)
    }

    /// The cursor.
    pub closed spec fn cursor(&self) -> Cursor {
        self.cursor
    }

    /// The mode.
    pub closed spec fn mode(&self) -> EditorMode {
        self.mode
    }

    /// The document's attributed character stream.
    pub open spec fn chars(&self) -> Seq<crate::doc_node::AttrChar> {
        blocks_chars(self.blocks())
    }

    /// The registered block formats, in priority order.
    pub closed spec fn registry_blocks(&self) -> Seq<crate::formatter::FmtV> {
        self.registry.block_list()
    }

    /// The registered leaf formats, in priority order.
    pub closed spec fn registry_lines(&self) -> Seq<crate::formatter::FmtV> {
        self.registry.line_list()
    }

    /// The state the engine keeps between operations: a well-formed,
    /// canonical tree and a registry; when open for editing, at least one
    /// block and a synchronized cursor on a valid location.
    pub closed spec fn wf(&self) -> bool {
        &&& doc_blocks_wf(self.blocks@)
        &&& self.registry.wf()
        &&& (self.mode is Edit ==> doc_ready(self.blocks@) && loc_valid(
            self.blocks(),
            self.cursor.start,
        ) && cursor_synced(self.blocks(), self.cursor))
    }

    /// A fresh, closed document using the given registry.
    pub fn new(registry: Registry) -> (r: DocumentRoot)
        requires
            registry.wf(),
        ensures
            r.wf(),
            r.mode() is Read,
            r.blocks() == Seq::<crate::doc_node::BlockV>::empty(),
    {
        let r = DocumentRoot {
            mode: EditorMode::Read,
            cursor: Cursor::new(),
            registry,
            blocks: Vec::new(),
        };
        proof {
            assert(r.blocks() =~= Seq::<crate::doc_node::BlockV>::empty());
        }
        r
    }

    /// The editor's mode.
    pub fn get_mode(&self) -> (r: EditorMode)
        ensures
            r == self.mode(),
    {
        self.mode
    }

    /// Opens the document for editing: the content becomes a single empty
    /// paragraph, carrying its render placeholder, with the cursor inside
    /// it.
    #[verifier::spinoff_prover]
    #[verifier::rlimit(100)]
    pub fn open(&mut self) -> (r: Result<(), Error>)
        requires
            old(self).wf(),
        ensures
            final(self).wf(),
            (r is Err) == !exists|k: int|
                0 <= k < old(self).registry_blocks().len() && (
                #[trigger] old(self).registry_blocks()[k]) is P,
            (match r {
                Ok(_) => final(self).mode() is Edit && final(self).blocks().len() == 1
                    && final(self).blocks()[0].children.len() == 0 && final(self).blocks()[0].fmt
                    is P && final(self).blocks()[0].attrs == Map::<
                    Seq<char>,
                    crate::attr_val::AttrV,
                >::empty() && final(self).blocks()[0].placeholder && final(self).cursor().retain
                    == 0,
                Err(_) => final(self).mode() is Closed && final(self).blocks().len() == 0,
            }),
    {
        self.blocks.clear();
        let op = DeltaOperation::insert("\n");
        proof {
            reveal_strlit("\n");
            assert(op.text() =~= seq!['\n']);
        }
        let format = match self.registry.block_format(&op) {
            Ok(f) => f,
            Err(e) => {
                self.mode = EditorMode::Closed;
                proof {
                    assert(self.blocks() =~= Seq::<crate::doc_node::BlockV>::empty());
                    // No match for a plain terminator means no paragraph
                    // fallback: a header demands its level key.
                    if exists|k: int|
                        0 <= k < self.registry.block_list().len() && (
                        #[trigger] self.registry.block_list()[k]) is P {
                        let k = choose|k: int|
                            0 <= k < self.registry.block_list().len() && (
                            #[trigger] self.registry.block_list()[k]) is P;
                        assert(crate::registry::applies_v(self.registry.block_list()[k], &op));
                        crate::registry::lemma_some_match(self.registry.block_list(), &op, k);
                        assert(false);
                    }
                }
                return Err(e);
            },
        };
        proof {
            crate::registry::lemma_first_match_props(self.registry.block_list(), &op);
            self.registry.lemma_wf_kinds();
            // The matched format takes a plain terminator, which carries no
            // level key, so it can only be the paragraph.
            let k = first_match(self.registry.block_list(), &op).unwrap();
            assert(self.registry.block_list()[k] is P);
            assert(0 <= k < old(self).registry_blocks().len() && old(self).registry_blocks()[k]
                is P);
        }
        // A plain line terminator resolves to the paragraph fallback; only
        // a header format, which demands its level attribute, could differ,
        // and a plain terminator carries none.
        let block = match format {
            crate::formatter::Formatter::Header(_) => BlockNode {
                formatter: crate::formatter::Formatter::P(crate::formatter::Pblock::new()),
                op,
                children: Vec::new(),
                placeholder: true,
            },
            f => BlockNode { formatter: f, op, children: Vec::new(), placeholder: true },
        };
        self.blocks.push(block);
        self.cursor = Cursor::new();
        self.cursor.set_at_no_retain_update(NodeAddr::Block { block: 0 }, 0);
        self.mode = EditorMode::Edit;
        proof {
            let bs = self.blocks();
            assert(bs.len() == 1);
            assert(bs[0].children =~= Seq::<crate::doc_node::LeafV>::empty());
            assert(crate::doc_node::leaves_chars(Seq::<crate::doc_node::LeafV>::empty())
                =~= Seq::<crate::doc_node::AttrChar>::empty());
            assert(bs.take(0) =~= Seq::<crate::doc_node::BlockV>::empty());
            assert(blocks_chars(Seq::<crate::doc_node::BlockV>::empty())
                =~= Seq::<crate::doc_node::AttrChar>::empty());
            assert(bs.drop_first() =~= Seq::<crate::doc_node::BlockV>::empty());
            assert(blocks_chars(bs).len() == 1);
            assert(loc_offset(bs, self.cursor.start) == 0);
            assert(forall|i: int|
                0 <= i < self.blocks@.len() ==> (#[trigger] self.blocks@[i]).wf());
            assert(crate::doc_node::doc_canonical(bs));
        }
        Ok(())
    }

    /// Closes the document and discards its content.
    pub fn close(&mut self)
        requires
            old(self).wf(),
        ensures
            final(self).wf(),
            final(self).mode() is Closed,
            final(self).blocks().len() == 0,
    {
        self.blocks.clear();
        self.mode = EditorMode::Closed;
        proof {
            assert(self.blocks() =~= Seq::<crate::doc_node::BlockV>::empty());
        }
    }

    /// The cursor's cached absolute offset.
    pub fn get_retain_index(&self) -> (r: usize)
        ensures
            r == self.cursor().retain,
    {
        self.cursor.get_retain_index()
    }

    /// Moves the cursor to the very start of the document.
    pub fn cursor_to_start(&mut self)
        requires
            old(self).wf(),
            old(self).mode() is Edit,
        ensures
            final(self).wf(),
            final(self).mode() is Edit,
            final(self).blocks() == old(self).blocks(),
            final(self).registry_blocks() == old(self).registry_blocks(),
            final(self).registry_lines() == old(self).registry_lines(),
            final(self).cursor().retain == 0,
            loc_offset(final(self).blocks(), final(self).cursor().start) == 0,
    {
        let first = crate::tree_traverse::first_node(&self.blocks);
        match first {
            NodeAddr::Leaf { .. } => {
                self.cursor.set_before(&self.blocks, first);
            },
            NodeAddr::Block { .. } => {
                proof {
                    assert(self.blocks()[0].children.take(0)
                        =~= Seq::<crate::doc_node::LeafV>::empty());
                }
                self.cursor.set_at(&self.blocks, first, 0);
            },
        }
        proof {
            assert(self.blocks().take(0) =~= Seq::<crate::doc_node::BlockV>::empty());
            assert(blocks_chars(Seq::<crate::doc_node::BlockV>::empty())
                =~= Seq::<crate::doc_node::AttrChar>::empty());
            assert(crate::doc_node::leaves_chars(Seq::<crate::doc_node::LeafV>::empty())
                =~= Seq::<crate::doc_node::AttrChar>::empty());
            assert(loc_offset(self.blocks(), self.cursor.start) == 0);
        }
    }

    /// Sets the cursor back to the start of the document, ready for a fresh
    /// edit-stream application.
    pub fn reset_cursor(&mut self)
        requires
            old(self).wf(),
            old(self).mode() is Edit,
        ensures
            final(self).wf(),
            final(self).mode() is Edit,
            final(self).blocks() == old(self).blocks(),
            final(self).registry_blocks() == old(self).registry_blocks(),
            final(self).registry_lines() == old(self).registry_lines(),
            final(self).cursor().retain == 0,
    {
        self.cursor_to_start();
    }

    /// Moves the cursor to the last position of the document: the edge just
    /// before the last block's line terminator.
    pub fn cursor_to_end(&mut self)
        requires
            old(self).wf(),
            old(self).mode() is Edit,
        ensures
            final(self).wf(),
            final(self).mode() is Edit,
            final(self).blocks() == old(self).blocks(),
            final(self).cursor().retain == final(self).chars().len() - 1,
    {
        let last = crate::tree_traverse::last_block_node(&self.blocks);
        proof {
            crate::cursor::lemma_unit_offset_in_doc(
                self.blocks(),
                NodeAddr::Block { block: (self.blocks@.len() - 1) as usize },
            );
            crate::doc_node::lemma_blocks_chars_split(self.blocks(), self.blocks@.len() - 1);
            assert(self.blocks().skip(self.blocks@.len() as int)
                =~= Seq::<crate::doc_node::BlockV>::empty());
            assert(blocks_chars(Seq::<crate::doc_node::BlockV>::empty())
                =~= Seq::<crate::doc_node::AttrChar>::empty());
        }
        self.cursor.set_cursor_to_doc_node_edge(
            &self.blocks,
            NodeAddr::Block { block: last },
            true,
        );
    }

    /// Applies a single edit operation at the cursor.  An insert of
    /// multi-line text is split into single-line inserts first; all are
    /// applied in order, so exactly the operation's characters appear at the
    /// cursor's old offset.
    #[verifier::spinoff_prover]
    #[verifier::rlimit(100)]
    pub fn apply_operation(&mut self, operation: DeltaOperation) -> (r: Result<(), Error>)
        requires
            old(self).wf(),
            operation.wf(),
            old(self).cursor().retain + spec_op_len(operation@) <= usize::MAX,
            old(self).chars().len() + spec_op_len(operation@) <= usize::MAX,
        ensures
            final(self).wf(),
            final(self).registry_blocks() == old(self).registry_blocks(),
            final(self).registry_lines() == old(self).registry_lines(),
            old(self).mode() != EditorMode::Edit ==> r is Err && *final(self) == *old(self),
            (match r {
                Ok(_) => old(self).mode() is Edit && final(self).mode() is Edit && (
                match operation@.kind {
                    crate::operations::OpKindV::Insert(_) => operation.is_text_insert()
                        && crate::op_insert::insert_stream_accepted(
                        old(self).registry_blocks(),
                        old(self).registry_lines(),
                        &operation,
                    ) && chars_inserted(
                        old(self).chars(),
                        final(self).chars(),
                        old(self).cursor().retain as int,
                        leaf_chars(leaf_v(operation.text(), operation.attrs())),
                    ) && final(self).cursor().retain == old(self).cursor().retain + spec_op_len(
                        operation@,
                    ),
                    crate::operations::OpKindV::Delete(n) => old(self).cursor().retain + n + 1
                        <= old(self).chars().len() && crate::doc_node::chars_removed(
                        old(self).chars(),
                        final(self).chars(),
                        old(self).cursor().retain as int,
                        n,
                    ) && final(self).cursor().retain == old(self).cursor().retain,
                    crate::operations::OpKindV::Retain(n) => crate::doc_node::chars_retained(
                        old(self).chars(),
                        final(self).chars(),
                        old(self).cursor().retain as int,
                        (if operation.attrs() == Map::<Seq<char>, crate::attr_val::AttrV>::empty() {
                            old(self).cursor().retain as int
                        } else if old(self).cursor().retain + n <= old(self).chars().len() {
                            old(self).cursor().retain + n
                        } else {
                            old(self).chars().len() as int
                        }),
                        operation.attrs(),
                    ) && (operation.attrs() == Map::<Seq<char>, crate::attr_val::AttrV>::empty()
                        ==> final(self).blocks() == old(self).blocks())
                        && final(self).cursor().retain == (if old(self).cursor().retain + n + 1
                        <= old(self).chars().len() {
                        old(self).cursor().retain + n
                    } else {
                        old(self).chars().len() - 1
                    }),
                }),
                Err(_) => old(self).mode() != EditorMode::Edit || (match operation@.kind {
                    crate::operations::OpKindV::Insert(_) => !crate::op_insert::insert_stream_accepted(
                        old(self).registry_blocks(),
                        old(self).registry_lines(),
                        &operation,
                    ),
                    crate::operations::OpKindV::Delete(n) => old(self).cursor().retain + n + 1
                        > old(self).chars().len(),
                    crate::operations::OpKindV::Retain(n) => operation.attrs() != Map::<
                        Seq<char>,
                        crate::attr_val::AttrV,
                    >::empty() && exists|b: int|
                        0 <= b < old(self).blocks().len()
                            && !crate::registry::newline_accepted(
                            old(self).registry_blocks(),
                            crate::attributes::spec_compose(
                                (#[trigger] old(self).blocks()[b]).attrs,
                                operation.attrs(),
                                false,
                            ),
                        ),
                }),
            }),
    {
        if !matches!(self.mode, EditorMode::Edit) {
            return Err(Error::DocumentNotOpenForEdit);
        }
        let ghost s0 = self.chars();
        let ghost p0 = self.cursor.retain as int;
        proof {
            crate::cursor::lemma_loc_offset_bound(self.blocks(), self.cursor.start);
        }
        match operation.get_op_kind() {
            OpKind::Insert(_) => {
                let lines = match split_text_lines(&operation) {
                    Ok(l) => l,
                    Err(e) => {
                        return Err(e);
                    },
                };
                let n = lines.len();
                let mut i: usize = 0;
                proof {
                    assert(ops_chars(lines@.take(0)) =~= Seq::<crate::doc_node::AttrChar>::empty());
                    assert(s0.take(p0) + s0.skip(p0) =~= s0);
                }
                while i < n
                    invariant
                        self.wf(),
                        self.mode() is Edit,
                        old(self).mode() is Edit,
                        self.registry == old(self).registry,
                        operation.is_text_insert(),
                        n == lines@.len(),
                        i <= n,
                        forall|j: int|
                            0 <= j < n ==> (#[trigger] lines@[j]).wf() && lines@[j]@.kind
                                is Insert && single_line(&lines@[j]) && spec_op_len(lines@[j]@)
                                >= 1 && lines@[j].attrs() == operation.attrs(),
                        forall|j: int|
                            0 <= j < i ==> crate::op_insert::line_accepted(
                                old(self).registry_blocks(),
                                old(self).registry_lines(),
                                &(#[trigger] lines@[j]),
                            ),
                        (exists|j: int| #![trigger lines@[j]]
                            0 <= j < n && crate::formatter::spec_is_newline(&lines@[j]))
                            <==> crate::op_insert::has_terminator(operation.text()),
                        (exists|j: int| #![trigger lines@[j]]
                            0 <= j < n && !crate::formatter::spec_is_newline(&lines@[j]))
                            <==> crate::op_insert::has_content_run(operation.text()),
                        ops_chars(lines@).len() == spec_op_len(operation@),
                        chars_inserted(
                            s0,
                            blocks_chars(self.blocks()),
                            p0,
                            ops_chars(lines@.take(i as int)),
                        ),
                        self.cursor().retain == p0 + ops_chars(lines@.take(i as int)).len(),
                        loc_valid(self.blocks(), self.cursor().start),
                        cursor_synced(self.blocks(), self.cursor()),
                        0 <= p0,
                        p0 <= s0.len(),
                        s0.len() + spec_op_len(operation@) <= usize::MAX,
                        ops_chars(lines@.take(i as int)).len() <= ops_chars(lines@).len(),
                    decreases n - i,
                {
                    let ghost s_a = blocks_chars(self.blocks());
                    let op = lines[i].clone();
                    proof {
                        assert(lines@.take(i + 1) =~= lines@.take(i as int).push(
                            lines@[i as int],
                        ));
                        lemma_ops_chars_snoc(lines@.take(i as int), lines@[i as int]);
                        lemma_take_ops_le(lines@, i + 1);
                        assert(blocks_chars(self.blocks()).len() == s0.len() + ops_chars(
                            lines@.take(i as int),
                        ).len());
                    }
                    match crate::op_insert::insert(
                        &mut self.blocks,
                        &mut self.cursor,
                        op,
                        &self.registry,
                    ) {
                        Ok(_) => {},
                        Err(e) => {
                            self.mode = EditorMode::Read;
                            proof {
                                // The rejected line shows the whole stream
                                // unacceptable: its attributes are the
                                // operation's, and it witnesses the matching
                                // existence clause.
                                let line = lines@[i as int];
                                assert(!crate::op_insert::line_accepted(
                                    old(self).registry_blocks(),
                                    old(self).registry_lines(),
                                    &line,
                                ));
                                if crate::formatter::spec_is_newline(&line) {
                                    assert(crate::op_insert::has_terminator(operation.text()));
                                    assert(!crate::registry::newline_accepted(
                                        old(self).registry_blocks(),
                                        operation.attrs(),
                                    ));
                                } else {
                                    assert(crate::op_insert::has_content_run(operation.text()));
                                    assert(!crate::registry::text_run_accepted(
                                        old(self).registry_lines(),
                                        operation.attrs(),
                                    ));
                                }
                            }
                            return Err(e);
                        },
                    }
                    proof {
                        crate::doc_node::lemma_inserted_compose(
                            s0,
                            s_a,
                            blocks_chars(self.blocks()),
                            p0,
                            ops_chars(lines@.take(i as int)),
                            leaf_chars(leaf_v(lines@[i as int].text(), lines@[i as int].attrs())),
                        );
                    }
                    i = i + 1;
                }
                proof {
                    assert(lines@.take(n as int) =~= lines@);
                    // Every line went through, so both existence clauses
                    // resolve to accepted formats.
                    if crate::op_insert::has_terminator(operation.text()) {
                        let j = choose|j: int| #![trigger lines@[j]]
                            0 <= j < n && crate::formatter::spec_is_newline(&lines@[j]);
                        assert(crate::op_insert::line_accepted(
                            old(self).registry_blocks(),
                            old(self).registry_lines(),
                            &lines@[j],
                        ));
                    }
                    if crate::op_insert::has_content_run(operation.text()) {
                        let j = choose|j: int| #![trigger lines@[j]]
                            0 <= j < n && !crate::formatter::spec_is_newline(&lines@[j]);
                        assert(crate::op_insert::line_accepted(
                            old(self).registry_blocks(),
                            old(self).registry_lines(),
                            &lines@[j],
                        ));
                    }
                }
                Ok(())
            },
            OpKind::Delete(len) => {
                let count = *len;
                match crate::op_delete::delete(&mut self.blocks, &mut self.cursor, count) {
                    Ok(_) => Ok(()),
                    Err(e) => {
                        self.mode = EditorMode::Read;
                        Err(e)
                    },
                }
            },
            OpKind::Retain(_) => {
                match crate::op_retain::retain(
                    &mut self.blocks,
                    &mut self.cursor,
                    &operation,
                    &self.registry,
                ) {
                    Ok(_) => Ok(()),
                    Err(e) => {
                        self.mode = EditorMode::Read;
                        Err(e)
                    },
                }
            },
        }
    }

    /// Applies a whole operation stream from the start of the document.
    pub fn apply_delta(&mut self, delta: Delta) -> (r: Result<(), Error>)
        requires
            old(self).wf(),
            delta.wf(),
        ensures
            final(self).wf(),
            final(self).registry_blocks() == old(self).registry_blocks(),
            final(self).registry_lines() == old(self).registry_lines(),
            old(self).mode() != EditorMode::Edit ==> r is Err && *final(self) == *old(self),
            r is Ok ==> old(self).mode() is Edit && final(self).mode() is Edit
                && final(self).chars() == fold_ops(
                (EditState { stream: old(self).chars(), pos: 0 }),
                delta.ops(),
            ).stream && final(self).cursor().retain == fold_ops(
                (EditState { stream: old(self).chars(), pos: 0 }),
                delta.ops(),
            ).pos,
            old(self).mode() is Edit && fold_ok(
                old(self).registry_blocks(),
                old(self).registry_lines(),
                (EditState { stream: old(self).chars(), pos: 0 }),
                delta.ops(),
            ) ==> r is Ok,
    {
        if !matches!(self.mode, EditorMode::Edit) {
            return Err(Error::DocumentNotOpenForEdit);
        }
        self.reset_cursor();
        let ghost st0 = EditState { stream: old(self).chars(), pos: 0 };
        let ops = delta.get_ops();
        let n = ops.len();
        let mut i: usize = 0;
        proof {
            assert(ops@.take(0) =~= Seq::<DeltaOperation>::empty());
        }
        while i < n
            invariant
                self.wf(),
                self.mode() is Edit,
                old(self).mode() is Edit,
                self.registry_blocks() == old(self).registry_blocks(),
                self.registry_lines() == old(self).registry_lines(),
                n == ops@.len(),
                i <= n,
                ops@ == delta.ops(),
                forall|j: int| 0 <= j < n ==> (#[trigger] ops@[j]).wf(),
                st0 == (EditState { stream: old(self).chars(), pos: 0 }),
                blocks_chars(self.blocks()) == fold_ops(st0, ops@.take(i as int)).stream,
                self.cursor().retain == fold_ops(st0, ops@.take(i as int)).pos,
            decreases n - i,
        {
            let ghost st = fold_ops(st0, ops@.take(i as int));
            let op = ops[i].clone();
            let fits = {
                let l = crate::doc_node::doc_len(&self.blocks);
                let ol = op.op_len();
                let retain_ok = usize::MAX - self.cursor.get_retain_index() >= ol;
                proof {
                    crate::cursor::lemma_loc_offset_bound(self.blocks(), self.cursor.start);
                }
                retain_ok && usize::MAX - l >= ol
            };
            if !fits {
                proof {
                    if fold_ok(
                        old(self).registry_blocks(),
                        old(self).registry_lines(),
                        st0,
                        ops@,
                    ) {
                        lemma_fold_ok_at(
                            old(self).registry_blocks(),
                            old(self).registry_lines(),
                            st0,
                            ops@,
                            i as int,
                        );
                        assert(false);
                    }
                }
                return Err(Error::DocumentCapacityExceeded);
            }
            let ghost sa = blocks_chars(self.blocks());
            let ghost pa = self.cursor().retain as int;
            match self.apply_operation(op) {
                Ok(_) => {},
                Err(e) => {
                    proof {
                        if fold_ok(
                            old(self).registry_blocks(),
                            old(self).registry_lines(),
                            st0,
                            ops@,
                        ) {
                            lemma_fold_ok_at(
                                old(self).registry_blocks(),
                                old(self).registry_lines(),
                                st0,
                                ops@,
                                i as int,
                            );
                            assert(false);
                        }
                    }
                    return Err(e);
                },
            }
            proof {
                assert(ops@.take(i + 1) =~= ops@.take(i as int).push(ops@[i as int]));
                lemma_fold_snoc(st0, ops@.take(i as int), ops@[i as int]);
                let stn = op_step(st, ops@[i as int]);
                match ops@[i as int]@.kind {
                    crate::operations::OpKindV::Insert(_) => {
                        assert(blocks_chars(self.blocks()) =~= stn.stream);
                    },
                    crate::operations::OpKindV::Delete(k) => {
                        assert(blocks_chars(self.blocks()) =~= stn.stream);
                    },
                    crate::operations::OpKindV::Retain(k) => {
                        assert(blocks_chars(self.blocks()) =~= stn.stream);
                    },
                }
            }
            i = i + 1;
        }
        proof {
            assert(ops@.take(n as int) =~= ops@);
        }
        Ok(())
    }

    /// Serializes the tree back to an operation stream, depth first: a
    /// line's content precedes its trailing line-terminator operation.  The
    /// stream describes exactly the document's attributed characters.
    #[verifier::spinoff_prover]
    #[verifier::rlimit(100)]
    pub fn to_delta(&self) -> (r: Delta)
        requires
            self.wf(),
        ensures
            r.wf(),
            ops_chars(r.ops()) == self.chars(),
            r.ops().len() == doc_ops_view(self.blocks()).len(),
            forall|j: int|
                0 <= j < r.ops().len() ==> (#[trigger] r.ops()[j])@.kind is Insert && r.ops()[
                    j
                ].is_text_insert() && r.ops()[j].text() == doc_ops_view(self.blocks())[j].text
                    && r.ops()[j].attrs() == doc_ops_view(self.blocks())[j].attrs,
    {
        let mut delta = Delta::new();
        let nb = self.blocks.len();
        let mut b: usize = 0;
        proof {
            assert(ops_chars(delta.ops()) =~= Seq::<crate::doc_node::AttrChar>::empty());
            assert(blocks_chars(self.blocks().take(0)) =~= Seq::<crate::doc_node::AttrChar>::empty());
            assert(self.blocks().take(0) =~= Seq::<crate::doc_node::BlockV>::empty());
        }
        while b < nb
            invariant
                self.wf(),
                nb == self.blocks@.len(),
                b <= nb,
                delta.wf(),
                ops_chars(delta.ops()) == blocks_chars(self.blocks().take(b as int)),
                delta.ops().len() == doc_ops_view(self.blocks().take(b as int)).len(),
                forall|j: int|
                    0 <= j < delta.ops().len() ==> (#[trigger] delta.ops()[j])@.kind is Insert
                        && delta.ops()[j].is_text_insert() && delta.ops()[j].text()
                        == doc_ops_view(self.blocks().take(b as int))[j].text && delta.ops()[
                        j
                    ].attrs() == doc_ops_view(self.blocks().take(b as int))[j].attrs,
            decreases nb - b,
        {
            let nl = self.blocks[b].children.len();
            let mut l: usize = 0;
            proof {
                assert((#[trigger] self.blocks@[b as int]).wf());
                assert(crate::doc_node::leaves_chars(
                    self.blocks()[b as int].children.take(0),
                ) =~= Seq::<crate::doc_node::AttrChar>::empty());
            }
            while l < nl
                invariant
                    self.wf(),
                    nb == self.blocks@.len(),
                    b < nb,
                    nl == self.blocks()[b as int].children.len(),
                    l <= nl,
                    delta.wf(),
                    ops_chars(delta.ops()) == blocks_chars(self.blocks().take(b as int))
                        + crate::doc_node::leaves_chars(
                        self.blocks()[b as int].children.take(l as int),
                    ),
                    delta.ops().len() == doc_ops_view(self.blocks().take(b as int)).len() + l,
                    forall|j: int|
                        0 <= j < doc_ops_view(self.blocks().take(b as int)).len() ==> (
                        #[trigger] delta.ops()[j]).text() == doc_ops_view(
                            self.blocks().take(b as int),
                        )[j].text && delta.ops()[j].attrs() == doc_ops_view(
                            self.blocks().take(b as int),
                        )[j].attrs,
                    forall|j: int|
                        0 <= j < l ==> (#[trigger] delta.ops()[doc_ops_view(
                            self.blocks().take(b as int),
                        ).len() + j]).text() == self.blocks()[b as int].children[j].text
                            && delta.ops()[doc_ops_view(self.blocks().take(b as int)).len()
                            + j].attrs() == self.blocks()[b as int].children[j].attrs,
                    forall|j: int|
                        0 <= j < delta.ops().len() ==> (#[trigger] delta.ops()[j])@.kind
                            is Insert && delta.ops()[j].is_text_insert(),
                decreases nl - l,
            {
                proof {
                    assert((#[trigger] self.blocks@[b as int]).wf());
                    assert((#[trigger] self.blocks@[b as int].children@[l as int]).wf());
                }
                let leaf_op = self.blocks[b].children[l].op.clone();
                proof {
                    lemma_ops_chars_snoc(delta.ops(), leaf_op);
                    crate::doc_node::lemma_leaves_take_snoc(
                        self.blocks()[b as int].children,
                        l as int,
                    );
                }
                delta.push(leaf_op);
                l = l + 1;
            }
            proof {
                assert(self.blocks()[b as int].children.take(nl as int) =~= self.blocks()[
                    b as int
                ].children);
            }
            let block_op = self.blocks[b].op.clone();
            proof {
                lemma_ops_chars_snoc(delta.ops(), block_op);
                crate::doc_node::lemma_blocks_take_snoc(self.blocks(), b as int);
                assert(self.blocks().take(b as int + 1) =~= self.blocks().take(b as int).push(
                    self.blocks()[b as int],
                ));
                assert(leaf_chars(leaf_v(block_op.text(), block_op.attrs())) =~= seq![
                    crate::doc_node::attr_char('\n', self.blocks()[b as int].attrs),
                ]);
            }
            let ghost pre = delta.ops();
            delta.push(block_op);
            proof {
                lemma_doc_ops_view_snoc(self.blocks(), b as int);
                let base = doc_ops_view(self.blocks().take(b as int)).len() as int;
                let entry = leaf_v(seq!['\n'], self.blocks()[b as int].attrs);
                assert(block_op.text() == seq!['\n']);
                assert(block_op.attrs() == self.blocks()[b as int].attrs);
                assert(delta.ops() == pre.push(block_op));
                assert forall|j: int| 0 <= j < delta.ops().len() implies (
                #[trigger] delta.ops()[j]).text() == doc_ops_view(
                    self.blocks().take(b + 1),
                )[j].text && delta.ops()[j].attrs() == doc_ops_view(
                    self.blocks().take(b + 1),
                )[j].attrs by {
                    if j < base {
                        assert(delta.ops()[j] == pre[j]);
                        assert(pre[j].text() == doc_ops_view(
                            self.blocks().take(b as int),
                        )[j].text && pre[j].attrs() == doc_ops_view(
                            self.blocks().take(b as int),
                        )[j].attrs);
                        assert(doc_ops_view(self.blocks().take(b + 1))[j] == doc_ops_view(
                            self.blocks().take(b as int),
                        )[j]);
                    } else if j < base + nl {
                        let jj = j - base;
                        assert(delta.ops()[j] == pre[base + jj]);
                        assert(pre[doc_ops_view(self.blocks().take(b as int)).len() + jj].text()
                            == self.blocks()[b as int].children[jj].text && pre[doc_ops_view(
                            self.blocks().take(b as int),
                        ).len() + jj].attrs() == self.blocks()[b as int].children[jj].attrs);
                        assert(doc_ops_view(self.blocks().take(b + 1))[j] == self.blocks()[
                            b as int
                        ].children[jj]);
                    } else {
                        assert(j == base + nl);
                        assert(doc_ops_view(self.blocks().take(b + 1))[j] == entry);
                        assert(delta.ops()[j] == block_op);
                    }
                };
            }
            b = b + 1;
        }
        proof {
            assert(self.blocks().take(nb as int) =~= self.blocks());
        }
        delta
    }
}

/// Splits one insert operation with potentially multi-line text into
/// single-line insert operations: runs of text free of line terminators, and
/// lone line terminators, all carrying the original's attributes.  Together
/// they describe exactly the original's characters.
#[verifier::spinoff_prover]
#[verifier::rlimit(100)]
pub fn split_text_lines(op: &DeltaOperation) -> (r: Result<Vec<DeltaOperation>, Error>)
    requires
        op.wf(),
        op@.kind is Insert,
    ensures
        (match r {
            Ok(lines) => op.is_text_insert() && (forall|j: int|
                0 <= j < lines@.len() ==> (#[trigger] lines@[j]).wf() && lines@[j]@.kind is Insert
                    && single_line(&lines@[j]) && spec_op_len(lines@[j]@) >= 1 && lines@[j].attrs()
                    == op.attrs()) && ops_chars(lines@) == leaf_chars(
                leaf_v(op.text(), op.attrs()),
            ) && ((exists|j: int| #![trigger lines@[j]]
                0 <= j < lines@.len() && crate::formatter::spec_is_newline(&lines@[j]))
                <==> crate::op_insert::has_terminator(op.text())) && ((exists|j: int|
                #![trigger lines@[j]]
                0 <= j < lines@.len() && !crate::formatter::spec_is_newline(&lines@[j]))
                <==> crate::op_insert::has_content_run(op.text())) && (forall|j: int|
                #![trigger lines@[j]]
                0 <= j < lines@.len() - 1 ==> crate::formatter::spec_is_newline(&lines@[j])
                    || crate::formatter::spec_is_newline(&lines@[j + 1])),
            Err(_) => !op.is_text_insert(),
        }),
{
    let s = match op.insert_value().str_val() {
        Ok(s) => s,
        Err(e) => {
            return Err(e);
        },
    };
    let ghost t = op.text();
    let total = s.unicode_len();
    let mut lines: Vec<DeltaOperation> = Vec::new();
    let mut start: usize = 0;
    let mut i: usize = 0;
    proof {
        assert(ops_chars(lines@) =~= Seq::<crate::doc_node::AttrChar>::empty());
        assert(leaf_chars(leaf_v(t.take(0), op.attrs())) =~= Seq::<
            crate::doc_node::AttrChar,
        >::empty());
    }
    while i < total
        invariant
            op.wf(),
            op.is_text_insert(),
            t == op.text(),
            s@ == t,
            total == t.len(),
            start <= i <= total,
            forall|j: int|
                0 <= j < lines@.len() ==> (#[trigger] lines@[j]).wf() && lines@[j]@.kind is Insert
                    && single_line(&lines@[j]) && spec_op_len(lines@[j]@) >= 1 && lines@[j].attrs()
                    == op.attrs(),
            ops_chars(lines@) + leaf_chars(leaf_v(t.subrange(start as int, i as int), op.attrs()))
                == leaf_chars(leaf_v(t.take(i as int), op.attrs())),
            forall|j: int| start <= j < i ==> t[j] != '\n',
            (exists|j: int| #![trigger lines@[j]]
                0 <= j < lines@.len() && crate::formatter::spec_is_newline(&lines@[j]))
                <==> crate::op_insert::has_terminator(t.take(i as int)),
            (exists|j: int| #![trigger lines@[j]]
                0 <= j < lines@.len() && !crate::formatter::spec_is_newline(&lines@[j]))
                <==> crate::op_insert::has_content_run(t.take(start as int)),
            forall|j: int| #![trigger lines@[j]]
                0 <= j < lines@.len() - 1 ==> crate::formatter::spec_is_newline(&lines@[j])
                    || crate::formatter::spec_is_newline(&lines@[j + 1]),
            lines@.len() > 0 ==> crate::formatter::spec_is_newline(
                &lines@[lines@.len() - 1],
            ),
        decreases total - i,
    {
        let c = s.get_char(i);
        if c == '\n' {
            let ghost ls0 = lines@;
            if i > start {
                let seg = s.substring_char(start, i);
                let seg_op = DeltaOperation::insert_attr(seg, op.get_attributes().clone());
                proof {
                    lemma_ops_chars_snoc(lines@, seg_op);
                    if crate::formatter::spec_is_newline(&seg_op) {
                        assert(seg_op.text()[0] == '\n');
                        assert(t[start as int] != '\n');
                        assert(false);
                    }
                }
                lines.push(seg_op);
            }
            let nl_op = DeltaOperation::insert_attr("\n", op.get_attributes().clone());
            proof {
                reveal_strlit("\n");
                assert(nl_op.text() =~= seq!['\n']);
                lemma_ops_chars_snoc(lines@, nl_op);
            }
            lines.push(nl_op);
            proof {
                assert(leaf_chars(leaf_v(t.take(i + 1), op.attrs())) =~= leaf_chars(
                    leaf_v(t.take(i as int), op.attrs()),
                ) + leaf_chars(leaf_v(t.subrange(i as int, i + 1), op.attrs())));
                assert(leaf_chars(leaf_v(t.subrange(i as int, i + 1), op.attrs())) =~= seq![
                    crate::doc_node::attr_char('\n', op.attrs()),
                ]);
                assert(leaf_chars(leaf_v(t.subrange(start as int, i as int), op.attrs()))
                    =~= leaf_chars(leaf_v(t.subrange(start as int, i as int), op.attrs())));
                assert(leaf_chars(leaf_v(nl_op.text(), nl_op.attrs())) =~= seq![
                    crate::doc_node::attr_char('\n', op.attrs()),
                ]);
                assert(leaf_chars(leaf_v(t.subrange(i + 1, i + 1), op.attrs())) =~= Seq::<
                    crate::doc_node::AttrChar,
                >::empty());
                // The terminator just pushed witnesses the terminator
                // equivalence; the content equivalence carries over from the
                // lines already emitted, plus the segment when one was cut.
                let ls = lines@;
                assert(ls[ls.len() - 1] == nl_op);
                assert(crate::formatter::spec_is_newline(&ls[ls.len() - 1]));
                assert(t.take(i + 1)[i as int] == '\n');
                if crate::op_insert::has_content_run(t.take(i + 1)) {
                    let q = choose|q: int|
                        0 <= q < t.take(i + 1).len() && #[trigger] t.take(i + 1)[q] != '\n';
                    if q >= start {
                        assert(start <= q < i && t[q] != '\n');
                        assert(t.take(i + 1)[start as int] != '\n');
                        let w = ls.len() - 2;
                        assert(!crate::formatter::spec_is_newline(&ls[w]));
                    } else {
                        assert(t.take(start as int)[q] != '\n');
                        assert(crate::op_insert::has_content_run(t.take(start as int)));
                        let w = choose|w: int| #![trigger ls0[w]]
                            0 <= w < ls0.len() && !crate::formatter::spec_is_newline(&ls0[w]);
                        assert(ls[w] == ls0[w]);
                        assert(!crate::formatter::spec_is_newline(&ls[w]));
                    }
                }
                if exists|j: int| #![trigger ls[j]]
                    0 <= j < ls.len() && !crate::formatter::spec_is_newline(&ls[j]) {
                    let j = choose|j: int| #![trigger ls[j]]
                        0 <= j < ls.len() && !crate::formatter::spec_is_newline(&ls[j]);
                    if j < ls0.len() {
                        assert(ls[j] == ls0[j]);
                        let q = choose|q: int|
                            0 <= q < t.take(start as int).len() && #[trigger] t.take(
                                start as int,
                            )[q] != '\n';
                        assert(t.take(i + 1)[q] != '\n');
                    } else {
                        assert(i > start && j == ls0.len());
                        assert(t.take(i + 1)[start as int] != '\n');
                    }
                }
            }
            start = i + 1;
        } else {
            proof {
                assert(leaf_chars(leaf_v(t.take(i + 1), op.attrs())) =~= leaf_chars(
                    leaf_v(t.take(i as int), op.attrs()),
                ) + leaf_chars(leaf_v(t.subrange(i as int, i + 1), op.attrs())));
                assert(leaf_chars(leaf_v(t.subrange(start as int, i + 1), op.attrs()))
                    =~= leaf_chars(leaf_v(t.subrange(start as int, i as int), op.attrs()))
                    + leaf_chars(leaf_v(t.subrange(i as int, i + 1), op.attrs())));
                // A content character changes neither existence equivalence.
                if crate::op_insert::has_terminator(t.take(i as int)) {
                    let q = choose|q: int|
                        0 <= q < t.take(i as int).len() && #[trigger] t.take(i as int)[q] == '\n';
                    assert(t.take(i + 1)[q] == '\n');
                }
                if crate::op_insert::has_terminator(t.take(i + 1)) {
                    let q = choose|q: int|
                        0 <= q < t.take(i + 1).len() && #[trigger] t.take(i + 1)[q] == '\n';
                    assert(q != i);
                    assert(t.take(i as int)[q] == '\n');
                }
            }
        }
        i = i + 1;
    }
    let ghost lsl = lines@;
    if start < total {
        let seg = s.substring_char(start, total);
        let seg_op = DeltaOperation::insert_attr(seg, op.get_attributes().clone());
        proof {
            lemma_ops_chars_snoc(lines@, seg_op);
            assert(t.take(total as int) =~= t);
            if crate::formatter::spec_is_newline(&seg_op) {
                assert(seg_op.text()[0] == '\n');
                assert(t[start as int] != '\n');
                assert(false);
            }
        }
        lines.push(seg_op);
    }
    proof {
        assert(t.take(total as int) =~= t);
        assert(t.subrange(start as int, total as int).len() == total - start);
        if start >= total {
            assert(leaf_chars(leaf_v(t.subrange(start as int, total as int), op.attrs())) =~= Seq::<
                crate::doc_node::AttrChar,
            >::empty());
        }
        assert(ops_chars(lines@) =~= leaf_chars(leaf_v(t, op.attrs())));
        let ls = lines@;
        if start < total {
            // The trailing segment is a content line; the other lines carry
            // their loop facts over unchanged.
            assert(!crate::formatter::spec_is_newline(&ls[ls.len() - 1]));
            assert(t[start as int] != '\n');
            if exists|j: int| #![trigger ls[j]]
                0 <= j < ls.len() && crate::formatter::spec_is_newline(&ls[j]) {
                let j = choose|j: int| #![trigger ls[j]]
                    0 <= j < ls.len() && crate::formatter::spec_is_newline(&ls[j]);
                assert(j < lsl.len());
                assert(ls[j] == lsl[j]);
                assert(crate::op_insert::has_terminator(t.take(total as int)));
            }
            if crate::op_insert::has_terminator(t) {
                let w = choose|w: int| #![trigger lsl[w]]
                    0 <= w < lsl.len() && crate::formatter::spec_is_newline(&lsl[w]);
                assert(ls[w] == lsl[w]);
            }
        }
    }
    Ok(lines)
}

/// A prefix of an operation stream holds no more characters than the whole.
proof fn lemma_take_ops_le(ops: Seq<DeltaOperation>, j: int)
    requires
        0 <= j <= ops.len(),
    ensures
        ops_chars(ops.take(j)).len() <= ops_chars(ops).len(),
{
    assert(ops =~= ops.take(j) + ops.skip(j));
    crate::delta_doc::lemma_ops_chars_concat(ops.take(j), ops.skip(j));
}

/// The text of a line: its leaves' runs, concatenated.
pub open spec fn leaves_text(ls: Seq<crate::doc_node::LeafV>) -> Seq<char>
    decreases ls.len(),
{
    if ls.len() == 0 {
        Seq::empty()
    } else {
        ls[0].text + leaves_text(ls.drop_first())
    }
}

/// Extending a leaf list appends its text.
proof fn lemma_leaves_text_snoc(ls: Seq<crate::doc_node::LeafV>, l: crate::doc_node::LeafV)
    ensures
        leaves_text(ls.push(l)) == leaves_text(ls) + l.text,
    decreases ls.len(),
{
    if ls.len() == 0 {
        assert(ls.push(l).drop_first() =~= Seq::<crate::doc_node::LeafV>::empty());
        assert(ls.push(l)[0] == l);
        assert(leaves_text(Seq::<crate::doc_node::LeafV>::empty()) == Seq::<char>::empty());
        assert(leaves_text(ls) == Seq::<char>::empty());
        assert(leaves_text(ls.push(l)) =~= leaves_text(ls) + l.text);
    } else {
        assert(ls.push(l).drop_first() =~= ls.drop_first().push(l));
        assert(ls.push(l)[0] == ls[0]);
        lemma_leaves_text_snoc(ls.drop_first(), l);
        assert(leaves_text(ls.push(l)) =~= leaves_text(ls) + l.text);
    }
}

impl DocumentRoot {
    /// The number of lines (blocks) the document holds.
    pub fn line_count(&self) -> (r: usize)
        ensures
            r == self.blocks().len(),
    {
        self.blocks.len()
    }

    /// The rendered text of line `i`: its leaves' runs, concatenated, without
    /// the line terminator.
    pub fn line_text(&self, i: usize) -> (r: String)
        requires
            self.wf(),
            i < self.blocks().len(),
        ensures
            r@ == leaves_text(self.blocks()[i as int].children),
    {
        let mut out: String = String::new();
        let n = self.blocks[i].children.len();
        let mut l: usize = 0;
        proof {
            assert(leaves_text(self.blocks()[i as int].children.take(0)) =~= Seq::<char>::empty());
        }
        while l < n
            invariant
                self.wf(),
                i < self.blocks@.len(),
                n == self.blocks()[i as int].children.len(),
                l <= n,
                out@ == leaves_text(self.blocks()[i as int].children.take(l as int)),
            decreases n - l,
        {
            proof {
                assert((#[trigger] self.blocks@[i as int]).wf());
                assert((#[trigger] self.blocks@[i as int].children@[l as int]).wf());
                assert(self.blocks()[i as int].children.take(l + 1) =~= self.blocks()[
                    i as int
                ].children.take(l as int).push(self.blocks()[i as int].children[l as int]));
                lemma_leaves_text_snoc(
                    self.blocks()[i as int].children.take(l as int),
                    self.blocks()[i as int].children[l as int],
                );
            }
            out.append(self.blocks[i].children[l].op.text_str());
            l = l + 1;
        }
        proof {
            assert(self.blocks()[i as int].children.take(n as int) =~= self.blocks()[
                i as int
            ].children);
        }
        out
    }

    /// True when line `i` is empty and shows its render placeholder.
    pub fn line_placeholder(&self, i: usize) -> (r: bool)
        requires
            i < self.blocks().len(),
        ensures
            r == self.blocks()[i as int].placeholder,
    {
        AutomaticSoftBreak::has_break(&self.blocks, i)
    }

    /// The number of leaves line `i` holds.
    pub fn line_leaf_count(&self, i: usize) -> (r: usize)
        requires
            i < self.blocks().len(),
        ensures
            r == self.blocks()[i as int].children.len(),
    {
        self.blocks[i].children.len()
    }

    /// Recomputes the cursor's absolute offset by an independent walk from
    /// the start of the document; between operations it always equals the
    /// cached offset.
    pub fn recompute_retain_index(&self) -> (r: usize)
        requires
            self.wf(),
            self.mode() is Edit,
        ensures
            r == loc_offset(self.blocks(), self.cursor().start),
            r == self.cursor().retain,
    {
        self.cursor.calculate_retain_index(&self.blocks)
    }

    /// A copy of the cursor.
    pub fn get_cursor(&self) -> (r: Cursor)
        ensures
            r == self.cursor(),
    {
        self.cursor
    }
}

/// The render tag of a block: the paragraph tag, or a header tag carrying
/// the block's level.
fn block_tag(doc: &DocumentRoot, b: usize) -> (r: String)
    requires
        doc.wf(),
        b < doc.blocks().len(),
    ensures
        doc.blocks()[b as int].fmt is P ==> r@ == "<P>"@,
        r@.len() >= 3,
{
    proof {
        reveal_strlit("<P>");
        reveal_strlit("<H1>");
        reveal_strlit("<H2>");
        reveal_strlit("<H3>");
        reveal_strlit("<H4>");
        reveal_strlit("<H5>");
        reveal_strlit("<H6>");
        reveal_strlit("<H>");
    }
    let is_p = {
        let node = &doc.blocks[b];
        matches!(node.formatter, crate::formatter::Formatter::P(_))
    };
    if is_p {
        return "<P>".to_owned();
    }
    let level = match doc.blocks[b].op.get_attributes().get(
        crate::format_const::HEADER_ATTR_KEY,
    ) {
        Some(crate::attr_val::AttrVal::Number(n)) => *n,
        _ => 0,
    };
    if level == 1 {
        "<H1>".to_owned()
    } else if level == 2 {
        "<H2>".to_owned()
    } else if level == 3 {
        "<H3>".to_owned()
    } else if level == 4 {
        "<H4>".to_owned()
    } else if level == 5 {
        "<H5>".to_owned()
    } else if level == 6 {
        "<H6>".to_owned()
    } else {
        "<H>".to_owned()
    }
}

/// The character the cursor points to, as a string; a cursor standing at a
/// block's edge answers the block's render tag instead.  This lets a test
/// check an expected cursor position by the character found there.
pub fn cursor_points_to(doc: &DocumentRoot) -> (r: String)
    requires
        doc.wf(),
        doc.mode() is Edit,
    ensures
        (match doc.cursor().start {
            CursorLocation::Before(NodeAddr::Leaf { block, leaf }) => r@ == seq![
                doc.blocks()[block as int].children[leaf as int].text[0],
            ],
            CursorLocation::At(NodeAddr::Leaf { block, leaf }, i) => r@ == seq![
                doc.blocks()[block as int].children[leaf as int].text[i as int],
            ],
            CursorLocation::After(NodeAddr::Leaf { block, leaf }) => {
                if leaf + 1 < doc.blocks()[block as int].children.len() {
                    r@ == seq![doc.blocks()[block as int].children[leaf + 1].text[0]]
                } else {
                    r@.len() >= 3 && (doc.blocks()[block as int].fmt is P ==> r@ == "<P>"@)
                }
            },
            CursorLocation::At(NodeAddr::Block { block }, _) => r@.len() >= 3 && (doc.blocks()[
                block as int
            ].fmt is P ==> r@ == "<P>"@),
            _ => r@.len() >= 3,
        }),
{
    let loc = doc.cursor.get_location();
    match loc {
        CursorLocation::Before(NodeAddr::Leaf { block, leaf }) => {
            proof {
                assert((#[trigger] doc.blocks@[block as int]).wf());
                assert((#[trigger] doc.blocks@[block as int].children@[leaf as int]).wf());
            }
            let t = doc.blocks[block].children[leaf].op.text_str();
            t.substring_char(0, 1).to_owned()
        },
        CursorLocation::At(NodeAddr::Leaf { block, leaf }, i) => {
            proof {
                assert((#[trigger] doc.blocks@[block as int]).wf());
                assert((#[trigger] doc.blocks@[block as int].children@[leaf as int]).wf());
            }
            let t = doc.blocks[block].children[leaf].op.text_str();
            t.substring_char(i, i + 1).to_owned()
        },
        CursorLocation::After(NodeAddr::Leaf { block, leaf }) => {
            let count = doc.blocks[block].children.len();
            if leaf + 1 < count {
                proof {
                    assert((#[trigger] doc.blocks@[block as int]).wf());
                    assert((#[trigger] doc.blocks@[block as int].children@[leaf + 1]).wf());
                }
                let t = doc.blocks[block].children[leaf + 1].op.text_str();
                t.substring_char(0, 1).to_owned()
            } else {
                block_tag(doc, block)
            }
        },
        CursorLocation::At(NodeAddr::Block { block }, _) => block_tag(doc, block),
        CursorLocation::Unset => {
            proof {
                assert(false);
            }
            block_tag(doc, 0)
        },
        _ => {
            proof {
                assert(false);
            }
            block_tag(doc, 0)
        },
    }
}

impl DocumentRoot {
    /// Advances the cursor by one character; past the last position this is
    /// a reported error.
    pub fn advance(&mut self) -> (r: Result<(), Error>)
        requires
            old(self).wf(),
            old(self).mode() is Edit,
        ensures
            final(self).wf(),
            final(self).mode() is Edit,
            final(self).blocks() == old(self).blocks(),
            r is Ok ==> final(self).cursor().retain == old(self).cursor().retain + 1
                && old(self).cursor().retain + 2 <= old(self).chars().len(),
            r is Err ==> final(self).cursor() == old(self).cursor() && old(self).cursor().retain
                + 2 > old(self).chars().len(),
    {
        self.cursor.advance(&self.blocks)
    }

    /// Moves the cursor back by one character; at the start of the document
    /// this is a reported error.
    pub fn backspace(&mut self) -> (r: Result<(), Error>)
        requires
            old(self).wf(),
            old(self).mode() is Edit,
        ensures
            final(self).wf(),
            final(self).mode() is Edit,
            final(self).blocks() == old(self).blocks(),
            r is Ok ==> final(self).cursor().retain == old(self).cursor().retain - 1,
            r is Err ==> final(self).cursor() == old(self).cursor() && old(self).cursor().retain
                == 0,
    {
        self.cursor.backspace(&self.blocks)
    }

    /// Restores the cursor from absolute positions: the start lands
    /// `retain_index` characters in, and a positive `selection_length` sets
    /// the stop that many characters further.
    pub fn set_selection(&mut self, retain_index: usize, selection_length: usize) -> (r: Result<
        (),
        Error,
    >)
        requires
            old(self).wf(),
            old(self).mode() is Edit,
            retain_index + selection_length <= usize::MAX,
        ensures
            final(self).wf(),
            final(self).mode() is Edit,
            final(self).blocks() == old(self).blocks(),
            r is Ok,
            final(self).cursor().retain == (if retain_index + 1 <= old(self).chars().len() {
                retain_index as int
            } else {
                old(self).chars().len() - 1
            }),
            selection_length == 0 ==> final(self).cursor().stop is Unset,
            selection_length > 0 ==> !(final(self).cursor().stop is Unset) && loc_valid(
                final(self).blocks(),
                final(self).cursor().stop,
            ) && loc_offset(final(self).blocks(), final(self).cursor().stop) == (
            if final(self).cursor().retain + selection_length + 1 <= old(self).chars().len() {
                final(self).cursor().retain + selection_length
            } else {
                old(self).chars().len() - 1
            }),
    {
        crate::op_retain::set_cursor_selection(
            &self.blocks,
            &mut self.cursor,
            retain_index,
            selection_length,
        )
    }

    /// The number of characters between the cursor's start and stop
    /// locations; zero when no selection is set.
    pub fn selection_length(&self) -> (r: usize)
        requires
            self.wf(),
            self.mode() is Edit,
            !(self.cursor().stop is Unset) ==> loc_valid(self.blocks(), self.cursor().stop)
                && loc_offset(self.blocks(), self.cursor().stop) >= loc_offset(
                self.blocks(),
                self.cursor().start,
            ),
        ensures
            self.cursor().stop is Unset ==> r == 0,
            !(self.cursor().stop is Unset) ==> r == loc_offset(self.blocks(), self.cursor().stop)
                - loc_offset(self.blocks(), self.cursor().start),
    {
        self.cursor.selection_length(&self.blocks)
    }

    /// The line structure is readable off the character stream alone: the
    /// document has exactly as many blocks as the stream holds line
    /// terminators; each block's terminator stands at the block's
    /// terminator offset carrying the block's attributes, and the
    /// characters from the block's start offset up to it are exactly the
    /// block's leaves' characters.
    pub proof fn lemma_line_structure(&self)
        requires
            self.wf(),
        ensures
            self.blocks().len() == crate::doc_node::terminator_count(self.chars()),
            forall|b: int|
                #![trigger crate::doc_node::block_nl_offset(self.blocks(), b)]
                0 <= b < self.blocks().len() ==> {
                    &&& crate::cursor::block_start_offset(self.blocks(), b)
                        <= crate::doc_node::block_nl_offset(self.blocks(), b) < self.chars().len()
                    &&& self.chars()[crate::doc_node::block_nl_offset(self.blocks(), b)]
                        == crate::doc_node::attr_char('\n', self.blocks()[b].attrs)
                    &&& self.chars().subrange(
                        crate::cursor::block_start_offset(self.blocks(), b),
                        crate::doc_node::block_nl_offset(self.blocks(), b),
                    ) == crate::doc_node::leaves_chars(self.blocks()[b].children)
                },
    {
        let bs = self.blocks();
        assert forall|b: int, l: int|
            0 <= b < bs.len() && 0 <= l < bs[b].children.len() implies crate::doc_node::leaf_run_wf(
            #[trigger] bs[b].children[l],
        ) by {
            assert(self.blocks@[b].wf());
            assert(self.blocks@[b].children@[l].wf());
            assert(bs[b].children[l] == self.blocks@[b].children@[l]@);
        };
        crate::doc_node::lemma_blocks_terminator_count(bs);
        assert forall|b: int|
            #![trigger crate::doc_node::block_nl_offset(bs, b)]
            0 <= b < bs.len() implies {
            &&& crate::cursor::block_start_offset(bs, b) <= crate::doc_node::block_nl_offset(
                bs,
                b,
            ) < self.chars().len()
            &&& self.chars()[crate::doc_node::block_nl_offset(bs, b)]
                == crate::doc_node::attr_char('\n', bs[b].attrs)
            &&& self.chars().subrange(
                crate::cursor::block_start_offset(bs, b),
                crate::doc_node::block_nl_offset(bs, b),
            ) == crate::doc_node::leaves_chars(bs[b].children)
        } by {
            crate::doc_node::lemma_blocks_chars_split(bs, b);
            let a = blocks_chars(bs.take(b));
            let lc = crate::doc_node::leaves_chars(bs[b].children);
            let nl = seq![crate::doc_node::attr_char('\n', bs[b].attrs)];
            assert(self.chars() == a + crate::doc_node::block_chars(bs[b]) + blocks_chars(
                bs.skip(b + 1),
            ));
            assert(crate::doc_node::block_chars(bs[b]) == lc + nl);
            assert(self.chars()[a.len() + lc.len() as int] == nl[0]);
            assert(self.chars().subrange(a.len() as int, a.len() + lc.len() as int) =~= lc);
        };
    }
}

} // verus!
