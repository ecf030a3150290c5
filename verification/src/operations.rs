//! One edit operation of the stream: insert, delete or retain, each
//! optionally carrying attributes.

use crate::attr_val::AttrV;
use crate::attributes::Attributes;
use crate::error::Error;
use vstd::prelude::*;
use vstd::string::StrSliceExecFns;

verus! {

/// The payload of an insert: a run of text, or an embedded-object descriptor
/// (a tagged key-to-value mapping, such as an image reference).
pub enum OpsVal {
    Text(String),
    Object(Attributes),
}

/// Specification-level insert payload.
#[verifier::ext_equal]
pub enum InsertV {
    Text(Seq<char>),
    Object(Map<Seq<char>, AttrV>),
}

impl View for OpsVal {
    type V = InsertV;

    open spec fn view(&self) -> InsertV {
        match self {
            OpsVal::Text(s) => InsertV::Text(s@),
            OpsVal::Object(a) => InsertV::Object(a@),
        }
    }
}

impl OpsVal {
    /// The payload is well formed.
    pub open spec fn wf(&self) -> bool {
        match self {
            OpsVal::Text(_) => true,
            OpsVal::Object(a) => a.wf(),
        }
    }

    /// True for a text payload.
    pub fn is_string(&self) -> (r: bool)
        ensures
            r == (self@ is Text),
    {
        matches!(self, OpsVal::Text(_))
    }

    /// The text payload, or an error for an embedded object.
    pub fn str_val(&self) -> (r: Result<&str, Error>)
        ensures
            match r {
                Ok(s) => self@ is Text && s@ == self@->Text_0,
                Err(_) => !(self@ is Text),
            },
    {
        match self {
            OpsVal::Text(s) => Ok(s.as_str()),
            OpsVal::Object(_) => Err(Error::NotAStringValue),
        }
    }
}

/// The kind of one operation: what it does to the character stream.
pub enum OpKind {
    Insert(OpsVal),
    Delete(usize),
    Retain(usize),
}

/// Specification-level operation kind.
#[verifier::ext_equal]
pub enum OpKindV {
    Insert(InsertV),
    Delete(int),
    Retain(int),
}

impl View for OpKind {
    type V = OpKindV;

    open spec fn view(&self) -> OpKindV {
        match self {
            OpKind::Insert(v) => OpKindV::Insert(v@),
            OpKind::Delete(n) => OpKindV::Delete(*n as int),
            OpKind::Retain(n) => OpKindV::Retain(*n as int),
        }
    }
}

/// Specification-level operation: kind plus attributes.
#[verifier::ext_equal]
pub struct OpV {
    pub kind: OpKindV,
    pub attrs: Map<Seq<char>, AttrV>,
}

/// The stream length an operation accounts for: character count of a text
/// insert, one for an embedded object, the count of a delete or retain.
pub open spec fn spec_op_len(op: OpV) -> int {
    match op.kind {
        OpKindV::Insert(InsertV::Text(s)) => s.len() as int,
        OpKindV::Insert(InsertV::Object(_)) => 1,
        OpKindV::Delete(n) => n,
        OpKindV::Retain(n) => n,
    }
}

/// One operation of the edit stream.
pub struct DeltaOperation {
    kind: OpKind,
    attrs: Attributes,
}

impl View for DeltaOperation {
    type V = OpV;

    closed spec fn view(&self) -> OpV {
        OpV { kind: self.kind@, attrs: self.attrs@ }
    }
}

impl DeltaOperation {
    /// The attributes (and any object payload) are well formed.
    pub closed spec fn wf(&self) -> bool {
        self.attrs.wf() && match &self.kind {
            OpKind::Insert(v) => v.wf(),
            _ => true,
        }
    }

    /// True for an insert of a run of text.
    pub open spec fn is_text_insert(&self) -> bool {
        self@.kind matches OpKindV::Insert(InsertV::Text(_))
    }

    /// The text of a text insert.
    pub open spec fn text(&self) -> Seq<char>
        recommends
            self.is_text_insert(),
    {
        self@.kind->Insert_0->Text_0
    }

    /// The attribute map carried by the operation.
    pub open spec fn attrs(&self) -> Map<Seq<char>, AttrV> {
        self@.attrs
    }

    /// An insert of `txt` without attributes.
    pub fn insert(txt: &str) -> (r: DeltaOperation)
        ensures
            r.wf(),
            r@.kind == OpKindV::Insert(InsertV::Text(txt@)),
            r.attrs() == Map::<Seq<char>, AttrV>::empty(),
    {
        DeltaOperation { kind: OpKind::Insert(OpsVal::Text(txt.to_owned())), attrs: Attributes::new() }
    }

    /// An insert of `txt` carrying `attr`.
    pub fn insert_attr(txt: &str, attr: Attributes) -> (r: DeltaOperation)
        requires
            attr.wf(),
        ensures
            r.wf(),
            r@.kind == OpKindV::Insert(InsertV::Text(txt@)),
            r.attrs() == attr@,
    {
        DeltaOperation { kind: OpKind::Insert(OpsVal::Text(txt.to_owned())), attrs: attr }
    }

    /// An insert of the embedded object `descriptor`.
    pub fn insert_object(descriptor: Attributes) -> (r: DeltaOperation)
        requires
            descriptor.wf(),
        ensures
            r.wf(),
            r@.kind == OpKindV::Insert(InsertV::Object(descriptor@)),
            r.attrs() == Map::<Seq<char>, AttrV>::empty(),
    {
        DeltaOperation { kind: OpKind::Insert(OpsVal::Object(descriptor)), attrs: Attributes::new() }
    }

    /// A delete of `n` characters.
    pub fn delete(n: usize) -> (r: DeltaOperation)
        ensures
            r.wf(),
            r@.kind == OpKindV::Delete(n as int),
            r.attrs() == Map::<Seq<char>, AttrV>::empty(),
    {
        DeltaOperation { kind: OpKind::Delete(n), attrs: Attributes::new() }
    }

    /// A retain of `n` characters without attributes: a pure cursor move.
    pub fn retain(n: usize) -> (r: DeltaOperation)
        ensures
            r.wf(),
            r@.kind == OpKindV::Retain(n as int),
            r.attrs() == Map::<Seq<char>, AttrV>::empty(),
    {
        DeltaOperation { kind: OpKind::Retain(n), attrs: Attributes::new() }
    }

    /// A retain of `n` characters that applies `attr` over the range.
    pub fn retain_attr(n: usize, attr: Attributes) -> (r: DeltaOperation)
        requires
            attr.wf(),
        ensures
            r.wf(),
            r@.kind == OpKindV::Retain(n as int),
            r.attrs() == attr@,
    {
        DeltaOperation { kind: OpKind::Retain(n), attrs: attr }
    }

    /// The stream length this operation accounts for; see [`spec_op_len`].
    pub fn op_len(&self) -> (r: usize)
        ensures
            r == spec_op_len(self@),
    {
        match &self.kind {
            OpKind::Insert(OpsVal::Text(s)) => s.as_str().unicode_len(),
            OpKind::Insert(OpsVal::Object(_)) => 1,
            OpKind::Delete(n) => *n,
            OpKind::Retain(n) => *n,
        }
    }

    /// The payload of an insert operation.
    pub fn insert_value(&self) -> (r: &OpsVal)
        requires
            self@.kind is Insert,
        ensures
            r@ == self@.kind->Insert_0,
    {
        match &self.kind {
            OpKind::Insert(v) => v,
            _ => unreached(),
        }
    }

    /// The text of a text insert, as a borrowed string.
    pub fn text_str(&self) -> (r: &str)
        requires
            self.is_text_insert(),
        ensures
            r@ == self.text(),
    {
        match &self.kind {
            OpKind::Insert(OpsVal::Text(s)) => s.as_str(),
            _ => unreached(),
        }
    }

    /// Replaces the kind of the operation.
    pub fn set_op_kind(&mut self, kind: OpKind)
        requires
            (match kind {
                OpKind::Insert(ref v) => v.wf(),
                _ => true,
            }),
        ensures
            final(self)@.kind == kind@,
            final(self).attrs() == old(self).attrs(),
            old(self).wf() ==> final(self).wf(),
    {
        self.kind = kind;
    }

    /// The kind of the operation.
    pub fn get_op_kind(&self) -> (r: &OpKind)
        ensures
            r@ == self@.kind,
    {
        &self.kind
    }

    /// The attributes carried by the operation.
    pub fn get_attributes(&self) -> (r: &Attributes)
        ensures
            r@ == self.attrs(),
            self.wf() ==> r.wf(),
    {
        &self.attrs
    }

    /// Replaces the attributes carried by the operation.
    pub fn set_attributes(&mut self, attr: Attributes)
        requires
            attr.wf(),
        ensures
            final(self)@.kind == old(self)@.kind,
            final(self).attrs() == attr@,
            old(self).wf() ==> final(self).wf(),
    {
        self.attrs = attr;
    }
}

impl Clone for DeltaOperation {
    /// A clone denotes the same operation.
    fn clone(&self) -> (r: Self)
        ensures
            r@ == self@,
            r.wf() == self.wf(),
    {
        let kind = match &self.kind {
            OpKind::Insert(OpsVal::Text(s)) => OpKind::Insert(OpsVal::Text(s.clone())),
            OpKind::Insert(OpsVal::Object(a)) => OpKind::Insert(OpsVal::Object(a.clone())),
            OpKind::Delete(n) => OpKind::Delete(*n),
            OpKind::Retain(n) => OpKind::Retain(*n),
        };
        DeltaOperation { kind, attrs: self.attrs.clone() }
    }
}

} // verus!
