//! The value carried by one formatting attribute.

use vstd::prelude::*;

verus! {

/// An attribute's value on the wire: a string, a number, a boolean, or the
/// distinguished clearing marker `Null`.  Composing `Null` onto existing
/// formatting removes the attribute instead of setting it.
#[derive(Debug)]
pub enum AttrVal {
    Null,
    Bool(bool),
    Number(i64),
    Str(String),
}

/// Specification-level attribute value: what an [`AttrVal`] abstracts to.
#[verifier::ext_equal]
pub enum AttrV {
    Null,
    Bool(bool),
    Number(int),
    Str(Seq<char>),
}

impl View for AttrVal {
    type V = AttrV;

    open spec fn view(&self) -> AttrV {
        match self {
            AttrVal::Null => AttrV::Null,
            AttrVal::Bool(b) => AttrV::Bool(*b),
            AttrVal::Number(n) => AttrV::Number(*n as int),
            AttrVal::Str(s) => AttrV::Str(s@),
        }
    }
}

impl AttrVal {
    /// True for the clearing marker.
    pub fn is_null(&self) -> (r: bool)
        ensures
            r == (self@ is Null),
    {
        matches!(self, AttrVal::Null)
    }

    /// True for a string value.
    pub fn is_string(&self) -> (r: bool)
        ensures
            r == (self@ is Str),
    {
        matches!(self, AttrVal::Str(_))
    }

    /// The string payload of a string value.
    pub fn str_val(&self) -> (r: &str)
        requires
            self@ is Str,
        ensures
            r@ == self@->Str_0,
    {
        match self {
            AttrVal::Str(s) => s.as_str(),
            _ => unreached(),
        }
    }

    /// The numeric payload of a number value.
    pub fn number_val(&self) -> (r: i64)
        requires
            self@ is Number,
        ensures
            r as int == self@->Number_0,
    {
        match self {
            AttrVal::Number(n) => *n,
            _ => unreached(),
        }
    }

    /// Value equality, decided structurally.
    pub fn eq_val(&self, other: &AttrVal) -> (r: bool)
        ensures
            r == (self@ == other@),
    {
        match (self, other) {
            (AttrVal::Null, AttrVal::Null) => true,
            (AttrVal::Bool(a), AttrVal::Bool(b)) => a == b,
            (AttrVal::Number(a), AttrVal::Number(b)) => a == b,
            (AttrVal::Str(a), AttrVal::Str(b)) => *a == *b,
            _ => false,
        }
    }
}

impl Clone for AttrVal {
    fn clone(&self) -> (r: Self)
        ensures
            r == *self,
    {
        match self {
            AttrVal::Null => AttrVal::Null,
            AttrVal::Bool(b) => AttrVal::Bool(*b),
            AttrVal::Number(n) => AttrVal::Number(*n),
            AttrVal::Str(s) => AttrVal::Str(s.clone()),
        }
    }
}

} // verus!
