//! The format capability set, as a closed tagged variant.
//!
//! Every content format the engine supports is one variant of [`Formatter`]:
//! the plain paragraph and plain text fallbacks, the header block, and the
//! inert root format.  The registry keeps them in priority order; the engine
//! dispatches by matching.

use crate::attr_val::{AttrV, AttrVal};
use crate::attributes::Attributes;
use crate::error::Error;
use crate::format_const::{HEADER_ATTR_KEY, NAME_HEADER, NAME_P_BLOCK, NAME_TEXT};
use crate::operations::DeltaOperation;
use crate::t_attributes::spec_has_text_attributes;
use crate::t_formats::spec_has_text_format;
use vstd::prelude::*;
use vstd::string::StrSliceExecFns;

verus! {

/// The operation is an insert of exactly one line terminator.
pub open spec fn spec_is_newline(op: &DeltaOperation) -> bool {
    op.is_text_insert() && op.text() == seq!['\n']
}

/// True when `op` inserts exactly one line terminator.
pub fn op_is_newline(op: &DeltaOperation) -> (r: bool)
    requires
        op@.kind is Insert,
    ensures
        r == spec_is_newline(op),
{
    let v = op.insert_value();
    if !v.is_string() {
        return false;
    }
    match v.str_val() {
        Ok(s) => {
            let r = s.unicode_len() == 1 && s.get_char(0) == '\n';
            proof {
                if r {
                    assert(op.text() =~= seq!['\n']);
                } else {
                    assert(op.text() != seq!['\n']) by {
                        if op.text() == seq!['\n'] {
                            assert(op.text().len() == 1 && op.text()[0] == '\n');
                        }
                    }
                }
            }
            r
        },
        Err(_) => false,
    }
}

/// Formatting of a basic paragraph: the mandatory block fallback, which
/// recognises any plain line terminator.
pub struct Pblock {}

impl Pblock {
    pub fn new() -> Pblock {
        Pblock {  }
    }

    /// Recognises an insert of exactly `"\n"`.
    pub fn applies(&self, op: &DeltaOperation) -> (r: Result<bool, Error>)
        requires
            op.wf(),
            op@.kind is Insert,
        ensures
            r matches Ok(b) && b == spec_is_newline(op),
    {
        Ok(op_is_newline(op))
    }
}

/// Formatting of a plain run of text: the mandatory leaf fallback.
pub struct TextFormat {}

/// The operation is a leaf the text format takes: not a lone line terminator,
/// and carrying no attributes beyond the text formats and text attributes.
pub open spec fn spec_text_applies(op: &DeltaOperation) -> bool {
    &&& !spec_is_newline(op)
    &&& {
        ||| op.attrs() == Map::<Seq<char>, AttrV>::empty()
        ||| spec_has_text_format(op.attrs())
        ||| spec_has_text_attributes(op.attrs())
    }
}

impl TextFormat {
    pub fn new() -> TextFormat {
        TextFormat {  }
    }

    /// Recognises any insert that is not a lone line terminator, as long as
    /// its attributes are empty or name a text format or text attribute.
    pub fn applies(&self, op: &DeltaOperation) -> (r: Result<bool, Error>)
        requires
            op.wf(),
            op@.kind is Insert,
        ensures
            r matches Ok(b) && b == spec_text_applies(op),
    {
        if op_is_newline(op) {
            return Ok(false);
        }
        let attr = op.get_attributes();
        if attr.is_empty() {
            return Ok(true);
        }
        Ok(
            crate::t_formats::has_text_fomat(attr) || crate::t_attributes::has_text_attributes(
                attr,
            ),
        )
    }
}

/// Formatting of a header line: a block format selected by the `heading`
/// attribute, whose value gives the header level.
pub struct HeaderBlock {}

impl HeaderBlock {
    pub fn new() -> HeaderBlock {
        HeaderBlock {  }
    }

    /// Recognises an insert of exactly `"\n"` that carries `heading`.
    pub fn applies(&self, op: &DeltaOperation) -> (r: Result<bool, Error>)
        requires
            op.wf(),
            op@.kind is Insert,
        ensures
            r matches Ok(b) && b == (spec_is_newline(op) && op.attrs().contains_key(
                HEADER_ATTR_KEY@,
            )),
    {
        if op_is_newline(op) && op.get_attributes().contains_key(HEADER_ATTR_KEY) {
            Ok(true)
        } else {
            Ok(false)
        }
    }
}

/// The inert format of the document root.  It recognises nothing and has no
/// capabilities; invoking one is a reported error.
pub struct RootFormat {
    pub name: String,
}

impl RootFormat {
    pub fn new(name: &str) -> (r: RootFormat)
        ensures
            r.name@ == name@,
    {
        RootFormat { name: name.to_owned() }
    }
}

/// One registered format.
pub enum Formatter {
    P(Pblock),
    Text(TextFormat),
    Header(HeaderBlock),
    Root(RootFormat),
}

/// Specification-level format identity.
#[verifier::ext_equal]
pub enum FmtV {
    P,
    Text,
    Header,
    Root(Seq<char>),
}

impl View for Formatter {
    type V = FmtV;

    open spec fn view(&self) -> FmtV {
        match self {
            Formatter::P(_) => FmtV::P,
            Formatter::Text(_) => FmtV::Text,
            Formatter::Header(_) => FmtV::Header,
            Formatter::Root(r) => FmtV::Root(r.name@),
        }
    }
}

/// The format lays text out horizontally (a leaf format); block formats and
/// the root format answer false.
pub open spec fn fmt_is_text(f: FmtV) -> bool {
    f is Text
}

/// The format is one of the block formats a block node may carry.
pub open spec fn fmt_is_block(f: FmtV) -> bool {
    f is P || f is Header
}

impl Formatter {
    /// True for the leaf (text) format.
    pub fn is_text_format(&self) -> (r: bool)
        ensures
            r == fmt_is_text(self@),
    {
        matches!(self, Formatter::Text(_))
    }

    /// The unique label under which the format registers.
    pub fn format_name(&self) -> (r: &str)
        ensures
            match self@ {
                FmtV::P => r@ == NAME_P_BLOCK@,
                FmtV::Text => r@ == NAME_TEXT@,
                FmtV::Header => r@ == NAME_HEADER@,
                FmtV::Root(n) => r@ == n,
            },
    {
        match self {
            Formatter::P(_) => NAME_P_BLOCK,
            Formatter::Text(_) => NAME_TEXT,
            Formatter::Header(_) => NAME_HEADER,
            Formatter::Root(rf) => rf.name.as_str(),
        }
    }

    /// Whether this format handles the given operation; see each format's own
    /// `applies`.
    pub fn applies(&self, op: &DeltaOperation) -> (r: Result<bool, Error>)
        requires
            op.wf(),
            op@.kind is Insert,
        ensures
            match self@ {
                FmtV::P => r matches Ok(b) && b == spec_is_newline(op),
                FmtV::Text => r matches Ok(b) && b == spec_text_applies(op),
                FmtV::Header => r matches Ok(b) && b == (spec_is_newline(op)
                    && op.attrs().contains_key(HEADER_ATTR_KEY@)),
                FmtV::Root(_) => r is Err,
            },
    {
        match self {
            Formatter::P(f) => f.applies(op),
            Formatter::Text(f) => f.applies(op),
            Formatter::Header(f) => f.applies(op),
            Formatter::Root(_) => Err(Error::WrongFormatKind),
        }
    }

    /// The attributes that switch this block format off: its defining keys,
    /// each set to the clearing marker.
    pub fn block_remove_attr(&self) -> (r: Result<Attributes, Error>)
        ensures
            match self@ {
                FmtV::P => r matches Ok(a) && a@ == Map::<Seq<char>, AttrV>::empty() && a.wf(),
                FmtV::Header => r matches Ok(a) && a@ == Map::<Seq<char>, AttrV>::empty().insert(
                    HEADER_ATTR_KEY@,
                    AttrV::Null,
                ) && a.wf(),
                _ => r is Err,
            },
    {
        match self {
            Formatter::P(_) => Ok(Attributes::new()),
            Formatter::Header(_) => {
                let mut attr = Attributes::new();
                attr.insert(HEADER_ATTR_KEY, AttrVal::Null);
                Ok(attr)
            },
            _ => Err(Error::WrongFormatKind),
        }
    }
}

impl Clone for Formatter {
    /// A clone denotes the same format.
    fn clone(&self) -> (r: Self)
        ensures
            r@ == self@,
    {
        match self {
            Formatter::P(_) => Formatter::P(Pblock {  }),
            Formatter::Text(_) => Formatter::Text(TextFormat {  }),
            Formatter::Header(_) => Formatter::Header(HeaderBlock {  }),
            Formatter::Root(rf) => Formatter::Root(RootFormat { name: rf.name.clone() }),
        }
    }
}

} // verus!
