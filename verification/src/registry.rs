//! The format registry: ordered lists of block and leaf formats.
//!
//! Formats are checked in registration order; the first format that
//! recognises an operation handles it.  The mandatory fallbacks -- the plain
//! paragraph and the plain text format -- must therefore be registered last.

use crate::error::Error;
use crate::format_const::{HEADER_ATTR_KEY, NAME_P_BLOCK, NAME_TEXT};
use crate::formatter::{spec_is_newline, spec_text_applies, FmtV, Formatter, Pblock, TextFormat};
use crate::operations::DeltaOperation;
use vstd::prelude::*;

verus! {

/// Whether the format identified by `f` recognises `op`.
pub open spec fn applies_v(f: FmtV, op: &DeltaOperation) -> bool {
    match f {
        FmtV::P => spec_is_newline(op),
        FmtV::Header => spec_is_newline(op) && op.attrs().contains_key(HEADER_ATTR_KEY@),
        FmtV::Text => spec_text_applies(op),
        FmtV::Root(_) => false,
    }
}

/// The index of the first format in `fmts` that recognises `op`, if any.
pub open spec fn first_match(fmts: Seq<FmtV>, op: &DeltaOperation) -> Option<int> {
    if exists|k: int| 0 <= k < fmts.len() && applies_v(#[trigger] fmts[k], op) {
        Some(
            choose|k: int|
                0 <= k < fmts.len() && applies_v(#[trigger] fmts[k], op) && forall|m: int|
                    0 <= m < k ==> !applies_v(#[trigger] fmts[m], op),
        )
    } else {
        None
    }
}

/// When position `i` is the first to recognise `op`, the scan's answer is
/// exactly `i`.
proof fn lemma_first_match_is(fmts: Seq<FmtV>, op: &DeltaOperation, i: int)
    requires
        0 <= i < fmts.len(),
        applies_v(fmts[i], op),
        forall|m: int| 0 <= m < i ==> !applies_v(#[trigger] fmts[m], op),
    ensures
        first_match(fmts, op) == Some(i),
{
    assert(applies_v(fmts[i], op));
    let k = choose|k: int|
        0 <= k < fmts.len() && applies_v(#[trigger] fmts[k], op) && forall|m: int|
            0 <= m < k ==> !applies_v(#[trigger] fmts[m], op);
    if k != i {
        if k < i {
            assert(!applies_v(fmts[k], op));
        } else {
            assert(!applies_v(fmts[i], op));
        }
    }
}

/// What holds of a successful first match: the position is in range and its
/// format recognises the operation.
pub proof fn lemma_first_match_props(fmts: Seq<FmtV>, op: &DeltaOperation)
    requires
        first_match(fmts, op) is Some,
    ensures
        0 <= first_match(fmts, op).unwrap() < fmts.len(),
        applies_v(fmts[first_match(fmts, op).unwrap()], op),
{
    let k = choose|k: int|
        0 <= k < fmts.len() && applies_v(#[trigger] fmts[k], op) && forall|m: int|
            0 <= m < k ==> !applies_v(#[trigger] fmts[m], op);
    if exists|k: int|
        0 <= k < fmts.len() && applies_v(#[trigger] fmts[k], op) && forall|m: int|
            0 <= m < k ==> !applies_v(#[trigger] fmts[m], op) {
        assert(0 <= k < fmts.len() && applies_v(fmts[k], op));
    } else {
        let w = choose|w: int| 0 <= w < fmts.len() && applies_v(#[trigger] fmts[w], op);
        lemma_first_exists(fmts, op, w);
        assert(false);
    }
}

/// When some position recognises the operation, a least such position exists.
proof fn lemma_first_exists(fmts: Seq<FmtV>, op: &DeltaOperation, w: int)
    requires
        0 <= w < fmts.len(),
        applies_v(fmts[w], op),
    ensures
        exists|k: int|
            0 <= k < fmts.len() && applies_v(#[trigger] fmts[k], op) && forall|m: int|
                0 <= m < k ==> !applies_v(#[trigger] fmts[m], op),
    decreases w,
{
    if forall|m: int| 0 <= m < w ==> !applies_v(#[trigger] fmts[m], op) {
        assert(0 <= w < fmts.len() && applies_v(fmts[w], op) && forall|m: int|
            0 <= m < w ==> !applies_v(#[trigger] fmts[m], op));
    } else {
        let w2 = choose|m: int| 0 <= m < w && applies_v(#[trigger] fmts[m], op);
        lemma_first_exists(fmts, op, w2);
    }
}

/// When some position recognises the operation, the scan finds a match.
pub proof fn lemma_some_match(fmts: Seq<FmtV>, op: &DeltaOperation, w: int)
    requires
        0 <= w < fmts.len(),
        applies_v(fmts[w], op),
    ensures
        first_match(fmts, op) is Some,
{
    lemma_first_exists(fmts, op, w);
}

/// Whether the format `f` recognises an insert of one line terminator
/// carrying the attributes `attrs`: the paragraph takes any, a header wants
/// its level key, leaf formats take none.
pub open spec fn applies_nl(f: FmtV, attrs: Map<Seq<char>, crate::attr_val::AttrV>) -> bool {
    match f {
        FmtV::P => true,
        FmtV::Header => attrs.contains_key(HEADER_ATTR_KEY@),
        _ => false,
    }
}

/// The first format recognising a line terminator with these attributes.
pub open spec fn first_nl_match(
    fmts: Seq<FmtV>,
    attrs: Map<Seq<char>, crate::attr_val::AttrV>,
) -> Option<int> {
    if exists|k: int| 0 <= k < fmts.len() && applies_nl(#[trigger] fmts[k], attrs) {
        Some(
            choose|k: int|
                0 <= k < fmts.len() && applies_nl(#[trigger] fmts[k], attrs) && forall|m: int|
                    0 <= m < k ==> !applies_nl(#[trigger] fmts[m], attrs),
        )
    } else {
        None
    }
}

/// A line terminator carrying `attrs` is accepted by the block-format list:
/// some format recognises it, and when that format is a header, the level is
/// a number.
pub open spec fn newline_accepted(
    fmts: Seq<FmtV>,
    attrs: Map<Seq<char>, crate::attr_val::AttrV>,
) -> bool {
    match first_nl_match(fmts, attrs) {
        Some(k) => !(fmts[k] is Header) || (attrs.contains_key(HEADER_ATTR_KEY@)
            && attrs[HEADER_ATTR_KEY@] is Number),
        None => false,
    }
}

/// A run of text carrying `attrs` is accepted by the leaf-format list: some
/// leaf format is registered, and the attributes are empty or name only text
/// formats and text attributes.
pub open spec fn text_run_accepted(
    fmts: Seq<FmtV>,
    attrs: Map<Seq<char>, crate::attr_val::AttrV>,
) -> bool {
    &&& fmts.len() > 0
    &&& {
        ||| attrs == Map::<Seq<char>, crate::attr_val::AttrV>::empty()
        ||| crate::t_formats::spec_has_text_format(attrs)
        ||| crate::t_attributes::spec_has_text_attributes(attrs)
    }
}

/// When a position is the first to recognise a line terminator with these
/// attributes, the attribute-level scan answers exactly it.
proof fn lemma_first_nl_is(
    fmts: Seq<FmtV>,
    attrs: Map<Seq<char>, crate::attr_val::AttrV>,
    i: int,
)
    requires
        0 <= i < fmts.len(),
        applies_nl(fmts[i], attrs),
        forall|m: int| 0 <= m < i ==> !applies_nl(#[trigger] fmts[m], attrs),
    ensures
        first_nl_match(fmts, attrs) == Some(i),
{
    assert(applies_nl(fmts[i], attrs));
    let k = choose|k: int|
        0 <= k < fmts.len() && applies_nl(#[trigger] fmts[k], attrs) && forall|m: int|
            0 <= m < k ==> !applies_nl(#[trigger] fmts[m], attrs);
    if k != i {
        if k < i {
            assert(!applies_nl(fmts[k], attrs));
        } else {
            assert(!applies_nl(fmts[i], attrs));
        }
    }
}

/// For an insert of one line terminator, recognition depends on the
/// attributes alone: the operation-level and attribute-level scans agree.
pub proof fn lemma_nl_match_bridge(fmts: Seq<FmtV>, op: &DeltaOperation)
    requires
        spec_is_newline(op),
    ensures
        first_match(fmts, op) == first_nl_match(fmts, op.attrs()),
{
    assert forall|k: int| 0 <= k < fmts.len() implies applies_v(#[trigger] fmts[k], op)
        == applies_nl(fmts[k], op.attrs()) by {}
    match first_match(fmts, op) {
        Some(k) => {
            lemma_first_match_props(fmts, op);
            assert forall|m: int| 0 <= m < k implies !applies_nl(
                #[trigger] fmts[m],
                op.attrs(),
            ) by {
                lemma_first_least(fmts, op, k, m);
            }
            lemma_first_nl_is(fmts, op.attrs(), k);
        },
        None => {
            if first_nl_match(fmts, op.attrs()) is Some {
                let w = choose|w: int|
                    0 <= w < fmts.len() && applies_nl(#[trigger] fmts[w], op.attrs());
                assert(applies_v(fmts[w], op));
                lemma_some_match(fmts, op, w);
                assert(false);
            }
        },
    }
}

/// The scan's answer recognises nothing before itself.
proof fn lemma_first_least(fmts: Seq<FmtV>, op: &DeltaOperation, k0: int, m0: int)
    requires
        first_match(fmts, op) == Some(k0),
        0 <= m0 < k0,
    ensures
        !applies_v(fmts[m0], op),
{
    if exists|j: int| 0 <= j < fmts.len() && applies_v(#[trigger] fmts[j], op) {
        let w = choose|j: int| 0 <= j < fmts.len() && applies_v(#[trigger] fmts[j], op);
        lemma_first_exists(fmts, op, w);
        let k = choose|k: int|
            0 <= k < fmts.len() && applies_v(#[trigger] fmts[k], op) && forall|m: int|
                0 <= m < k ==> !applies_v(#[trigger] fmts[m], op);
        assert(forall|m: int| 0 <= m < k ==> !applies_v(#[trigger] fmts[m], op));
        assert(k == k0);
    } else {
        assert(false);
    }
}

/// For an insert of a terminator-free run of text, the leaf-format list --
/// all of whose members are the text format -- recognises it exactly when
/// the list is non-empty and the attributes are acceptable.
pub proof fn lemma_text_match_bridge(fmts: Seq<FmtV>, op: &DeltaOperation)
    requires
        op.is_text_insert(),
        !spec_is_newline(op),
        forall|i: int| 0 <= i < fmts.len() ==> (#[trigger] fmts[i]) is Text,
    ensures
        (first_match(fmts, op) is Some) == text_run_accepted(fmts, op.attrs()),
{
    if fmts.len() > 0 {
        assert(applies_v(fmts[0], op) == spec_text_applies(op));
        if spec_text_applies(op) {
            lemma_some_match(fmts, op, 0);
        } else {
            if first_match(fmts, op) is Some {
                lemma_first_match_props(fmts, op);
                assert(false);
            }
        }
    } else {
        if first_match(fmts, op) is Some {
            lemma_first_match_props(fmts, op);
            assert(false);
        }
    }
}

/// A block-format list -- all of whose members are block formats --
/// recognises no terminator-free insert.
pub proof fn lemma_block_no_match_for_text(fmts: Seq<FmtV>, op: &DeltaOperation)
    requires
        !spec_is_newline(op),
        forall|i: int|
            0 <= i < fmts.len() ==> crate::formatter::fmt_is_block(#[trigger] fmts[i]),
    ensures
        first_match(fmts, op) is None,
{
    if first_match(fmts, op) is Some {
        lemma_first_match_props(fmts, op);
        assert(false);
    }
}

/// The registry: block formats and leaf formats, each under a unique label,
/// in priority order.
pub struct Registry {
    block_fmts: Vec<(String, Formatter)>,
    line_fmts: Vec<(String, Formatter)>,
}

impl Registry {
    /// The registered block formats, in order.
    pub closed spec fn block_list(&self) -> Seq<FmtV> {
        self.block_fmts@.map(|i: int, e: (String, Formatter)| e.1@)
    }

    /// The registered leaf formats, in order.
    pub closed spec fn line_list(&self) -> Seq<FmtV> {
        self.line_fmts@.map(|i: int, e: (String, Formatter)| e.1@)
    }

    /// The labels of the registered block formats, in order.
    pub closed spec fn block_labels(&self) -> Seq<Seq<char>> {
        self.block_fmts@.map(|i: int, e: (String, Formatter)| e.0@)
    }

    /// The labels of the registered leaf formats, in order.
    pub closed spec fn line_labels(&self) -> Seq<Seq<char>> {
        self.line_fmts@.map(|i: int, e: (String, Formatter)| e.0@)
    }

    /// Block formats register in the block list, leaf formats in the leaf
    /// list; the inert root format registers nowhere.
    pub closed spec fn wf(&self) -> bool {
        &&& forall|i: int|
            0 <= i < self.block_list().len() ==> crate::formatter::fmt_is_block(
                #[trigger] self.block_list()[i],
            )
        &&& forall|i: int| 0 <= i < self.line_list().len() ==> (#[trigger] self.line_list()[i]) is Text
    }

    /// What well-formedness means for users of the registry: every block
    /// format is a block format, every leaf format is the text format.
    pub proof fn lemma_wf_kinds(&self)
        requires
            self.wf(),
        ensures
            forall|i: int|
                0 <= i < self.block_list().len() ==> crate::formatter::fmt_is_block(
                    #[trigger] self.block_list()[i],
                ),
            forall|i: int|
                0 <= i < self.line_list().len() ==> (#[trigger] self.line_list()[i]) is Text,
    {
    }

    /// An empty registry.
    pub fn init_registry() -> (r: Registry)
        ensures
            r.wf(),
            r.block_list() == Seq::<FmtV>::empty(),
            r.line_list() == Seq::<FmtV>::empty(),
    {
        let r = Registry { block_fmts: Vec::new(), line_fmts: Vec::new() };
        proof {
            assert(r.block_list() =~= Seq::<FmtV>::empty());
            assert(r.line_list() =~= Seq::<FmtV>::empty());
        }
        r
    }

    /// Registers a block format under `label`, behind those already known.
    pub fn register_block_fmt(&mut self, label: &str, formatter: Formatter) -> (r: Result<
        (),
        Error,
    >)
        requires
            old(self).wf(),
            crate::formatter::fmt_is_block(formatter@),
        ensures
            final(self).wf(),
            r is Ok,
            final(self).block_list() == old(self).block_list().push(formatter@),
            final(self).block_labels() == old(self).block_labels().push(label@),
            final(self).line_list() == old(self).line_list(),
            final(self).line_labels() == old(self).line_labels(),
    {
        self.block_fmts.push((label.to_owned(), formatter));
        proof {
            assert(self.block_list() =~= old(self).block_list().push(
                self.block_fmts@.last().1@,
            ));
            assert(self.block_labels() =~= old(self).block_labels().push(
                self.block_fmts@.last().0@,
            ));
            assert(self.line_list() =~= old(self).line_list());
            assert(self.line_labels() =~= old(self).line_labels());
        }
        Ok(())
    }

    /// Registers a leaf format under `label`, behind those already known.
    pub fn register_line_fmt(&mut self, label: &str, formatter: Formatter) -> (r: Result<
        (),
        Error,
    >)
        requires
            old(self).wf(),
            formatter@ is Text,
        ensures
            final(self).wf(),
            r is Ok,
            final(self).line_list() == old(self).line_list().push(formatter@),
            final(self).line_labels() == old(self).line_labels().push(label@),
            final(self).block_list() == old(self).block_list(),
            final(self).block_labels() == old(self).block_labels(),
    {
        self.line_fmts.push((label.to_owned(), formatter));
        proof {
            assert(self.line_list() =~= old(self).line_list().push(self.line_fmts@.last().1@));
            assert(self.line_labels() =~= old(self).line_labels().push(
                self.line_fmts@.last().0@,
            ));
            assert(self.block_list() =~= old(self).block_list());
            assert(self.block_labels() =~= old(self).block_labels());
        }
        Ok(())
    }

    /// True when some registered block format recognises the operation --
    /// which asks, besides a match, that the operation's text holds a line
    /// terminator.
    #[verifier::spinoff_prover]
    #[verifier::rlimit(100)]
    pub fn is_block_fmt(&self, op: &DeltaOperation) -> (r: Result<bool, Error>)
        requires
            self.wf(),
            op.wf(),
            op@.kind is Insert,
        ensures
            match r {
                Ok(b) => b == (first_match(self.block_list(), op) is Some),
                Err(_) => self.line_list().len() == 0 && first_match(self.block_list(), op)
                    is None,
            },
    {
        let new_line = match op.insert_value().str_val() {
            Ok(s) => crate::string_util::contains_newline(s),
            Err(_) => false,
        };
        if !new_line {
            proof {
                assert forall|k: int|
                    0 <= k < self.block_list().len() implies !applies_v(
                    #[trigger] self.block_list()[k],
                    op,
                ) by {
                    if applies_v(self.block_list()[k], op) {
                        assert(crate::formatter::fmt_is_block(self.block_list()[k]));
                        assert(spec_is_newline(op));
                        assert(op.text()[0] == '\n');
                        assert(false);
                    }
                }
            }
            return Ok(false);
        }
        match self.block_format(op) {
            Ok(_) => Ok(true),
            Err(e) => {
                if self.line_fmts.len() == 0 {
                    Err(Error::RegistryNotInitialised)
                } else {
                    Ok(false)
                }
            },
        }
    }

    /// The first registered block format that recognises the operation; the
    /// absence of any match is a configuration error, not a silent default.
    pub fn block_format(&self, op: &DeltaOperation) -> (r: Result<Formatter, Error>)
        requires
            self.wf(),
            op.wf(),
            op@.kind is Insert,
        ensures
            match r {
                Ok(f) => first_match(self.block_list(), op) matches Some(k) && f@
                    == self.block_list()[k],
                Err(e) => first_match(self.block_list(), op) is None && ((e
                    is RegistryNotInitialised) <==> self.line_list().len() == 0),
            },
    {
        let n = self.block_fmts.len();
        let mut i: usize = 0;
        while i < n
            invariant
                self.wf(),
                op.wf(),
                op@.kind is Insert,
                n == self.block_list().len(),
                i <= n,
                forall|m: int| 0 <= m < i ==> !applies_v(#[trigger] self.block_list()[m], op),
            decreases n - i,
        {
            proof {
                assert(self.block_list()[i as int] == self.block_fmts@[i as int].1@);
            }
            let applies = match self.block_fmts[i].1.applies(op) {
                Ok(b) => b,
                Err(_) => {
                    proof {
                        assert(false);
                    }
                    false
                },
            };
            if applies {
                proof {
                    lemma_first_match_is(self.block_list(), op, i as int);
                }
                return Ok(self.block_fmts[i].1.clone());
            }
            i = i + 1;
        }
        if self.line_fmts.len() == 0 {
            Err(Error::RegistryNotInitialised)
        } else {
            Err(Error::RegistryNoFormatForOp { tpe: "block".to_owned() })
        }
    }

    /// The first registered leaf format that recognises the operation.
    pub fn line_format(&self, op: &DeltaOperation) -> (r: Result<Formatter, Error>)
        requires
            self.wf(),
            op.wf(),
            op@.kind is Insert,
        ensures
            match r {
                Ok(f) => first_match(self.line_list(), op) matches Some(k) && f@
                    == self.line_list()[k],
                Err(e) => first_match(self.line_list(), op) is None && ((e
                    is RegistryNotInitialised) <==> self.line_list().len() == 0),
            },
    {
        let n = self.line_fmts.len();
        let mut i: usize = 0;
        while i < n
            invariant
                self.wf(),
                op.wf(),
                op@.kind is Insert,
                n == self.line_list().len(),
                i <= n,
                forall|m: int| 0 <= m < i ==> !applies_v(#[trigger] self.line_list()[m], op),
            decreases n - i,
        {
            proof {
                assert(self.line_list()[i as int] == self.line_fmts@[i as int].1@);
            }
            let applies = match self.line_fmts[i].1.applies(op) {
                Ok(b) => b,
                Err(_) => {
                    proof {
                        assert(false);
                    }
                    false
                },
            };
            if applies {
                proof {
                    lemma_first_match_is(self.line_list(), op, i as int);
                }
                return Ok(self.line_fmts[i].1.clone());
            }
            i = i + 1;
        }
        if self.line_fmts.len() == 0 {
            Err(Error::RegistryNotInitialised)
        } else {
            Err(Error::RegistryNoFormatForOp { tpe: "line".to_owned() })
        }
    }

    /// The registered block format carrying `name`, if any: the first such
    /// registration wins.
    pub fn block_format_from_name(&self, name: &str) -> (r: Result<Formatter, Error>)
        requires
            self.wf(),
        ensures
            match r {
                Ok(f) => exists|k: int|
                    0 <= k < self.block_labels().len() && #[trigger] self.block_labels()[k]
                        == name@ && f@ == self.block_list()[k] && forall|m: int|
                        0 <= m < k ==> self.block_labels()[m] != name@,
                Err(e) => (forall|k: int|
                    0 <= k < self.block_labels().len() ==> #[trigger] self.block_labels()[k]
                        != name@) && ((e is RegistryNotInitialised) <==> self.line_list().len()
                    == 0),
            },
    {
        let n = self.block_fmts.len();
        let owned: String = name.to_owned();
        let mut i: usize = 0;
        while i < n
            invariant
                self.wf(),
                owned@ == name@,
                n == self.block_fmts@.len(),
                i <= n,
                forall|m: int| 0 <= m < i ==> #[trigger] self.block_labels()[m] != name@,
            decreases n - i,
        {
            proof {
                assert(self.block_labels()[i as int] == self.block_fmts@[i as int].0@);
                assert(self.block_list()[i as int] == self.block_fmts@[i as int].1@);
            }
            if self.block_fmts[i].0 == owned {
                return Ok(self.block_fmts[i].1.clone());
            }
            i = i + 1;
        }
        if self.line_fmts.len() == 0 {
            Err(Error::RegistryNotInitialised)
        } else {
            Err(Error::RegistryNoSuchFormat { fmt: owned })
        }
    }

    /// The registered leaf format carrying `name`, if any: the first such
    /// registration wins.
    pub fn line_format_from_name(&self, name: &str) -> (r: Result<Formatter, Error>)
        requires
            self.wf(),
        ensures
            match r {
                Ok(f) => exists|k: int|
                    0 <= k < self.line_labels().len() && #[trigger] self.line_labels()[k]
                        == name@ && f@ == self.line_list()[k] && forall|m: int|
                        0 <= m < k ==> self.line_labels()[m] != name@,
                Err(e) => (forall|k: int|
                    0 <= k < self.line_labels().len() ==> #[trigger] self.line_labels()[k]
                        != name@) && ((e is RegistryNotInitialised) <==> self.line_list().len()
                    == 0),
            },
    {
        let n = self.line_fmts.len();
        let owned: String = name.to_owned();
        let mut i: usize = 0;
        while i < n
            invariant
                self.wf(),
                owned@ == name@,
                n == self.line_fmts@.len(),
                i <= n,
                forall|m: int| 0 <= m < i ==> #[trigger] self.line_labels()[m] != name@,
            decreases n - i,
        {
            proof {
                assert(self.line_labels()[i as int] == self.line_fmts@[i as int].0@);
                assert(self.line_list()[i as int] == self.line_fmts@[i as int].1@);
            }
            if self.line_fmts[i].0 == owned {
                return Ok(self.line_fmts[i].1.clone());
            }
            i = i + 1;
        }
        if self.line_fmts.len() == 0 {
            Err(Error::RegistryNotInitialised)
        } else {
            Err(Error::RegistryNoSuchFormat { fmt: owned })
        }
    }

    /// The attributes that switch off the block format recognising `op`.
    pub fn block_remove_attr(&self, op: &DeltaOperation) -> (r: Result<
        crate::attributes::Attributes,
        Error,
    >)
        requires
            self.wf(),
            op.wf(),
            op@.kind is Insert,
        ensures
            (match r {
                Ok(a) => a.wf() && (first_match(self.block_list(), op) matches Some(k) && (
                self.block_list()[k] is P ==> a@ == Map::<
                    Seq<char>,
                    crate::attr_val::AttrV,
                >::empty()) && (self.block_list()[k] is Header ==> a@ == Map::<
                    Seq<char>,
                    crate::attr_val::AttrV,
                >::empty().insert(HEADER_ATTR_KEY@, crate::attr_val::AttrV::Null))),
                Err(_) => first_match(self.block_list(), op) is None,
            }),
    {
        let f = match self.block_format(op) {
            Ok(f) => f,
            Err(e) => {
                return Err(e);
            },
        };
        proof {
            lemma_first_match_props(self.block_list(), op);
            self.lemma_wf_kinds();
        }
        match f.block_remove_attr() {
            Ok(a) => Ok(a),
            Err(_) => {
                proof {
                    assert(false);
                }
                Err(Error::WrongFormatKind)
            },
        }
    }
}

/// A registry holding only the two mandatory fallbacks: the plain paragraph
/// block format and the plain text leaf format.
pub fn init_test_registry() -> (r: Registry)
    ensures
        r.wf(),
        r.block_list() == seq![FmtV::P],
        r.line_list() == seq![FmtV::Text],
{
    let mut r = Registry::init_registry();
    let _ = r.register_block_fmt(NAME_P_BLOCK, Formatter::P(Pblock::new()));
    let _ = r.register_line_fmt(NAME_TEXT, Formatter::Text(TextFormat::new()));
    proof {
        assert(r.block_list() =~= seq![FmtV::P]);
        assert(r.line_list() =~= seq![FmtV::Text]);
    }
    r
}

} // verus!
