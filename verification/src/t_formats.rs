//! Toggling text formats (bold, italic, ...) and their render-side tags.

use crate::attributes::Attributes;
use crate::format_const::{
    FORMAT_BOLD, FORMAT_DELETED, FORMAT_INSERTED, FORMAT_ITALIC, FORMAT_MARKED, FORMAT_SMALL,
    FORMAT_STRIKE, FORMAT_SUB, FORMAT_SUP, FORMAT_UNDERLINE,
};
use crate::lookup::AttributesLookup;
use vstd::prelude::*;

verus! {

/// Builds the table of toggling text formats, each with the element tag it
/// renders to, in priority order.
pub fn initialise() -> (r: AttributesLookup)
    ensures
        r.pairs().len() == 10,
        r.pairs()[0] == (FORMAT_BOLD@, "strong"@),
        r.pairs()[1] == (FORMAT_ITALIC@, "em"@),
        r.pairs()[2] == (FORMAT_UNDERLINE@, "U"@),
        r.pairs()[3] == (FORMAT_STRIKE@, "S"@),
        r.pairs()[4] == (FORMAT_SUB@, "SUB"@),
        r.pairs()[5] == (FORMAT_SUP@, "sup"@),
        r.pairs()[6] == (FORMAT_DELETED@, "DEL"@),
        r.pairs()[7] == (FORMAT_INSERTED@, "INS"@),
        r.pairs()[8] == (FORMAT_MARKED@, "MARK"@),
        r.pairs()[9] == (FORMAT_SMALL@, "SMALL"@),
{
    let mut attr = AttributesLookup::new(10);
    attr.fill_one(FORMAT_BOLD, "strong");
    attr.fill_one(FORMAT_ITALIC, "em");
    attr.fill_one(FORMAT_UNDERLINE, "U");
    attr.fill_one(FORMAT_STRIKE, "S");
    attr.fill_one(FORMAT_SUB, "SUB");
    attr.fill_one(FORMAT_SUP, "sup");
    attr.fill_one(FORMAT_DELETED, "DEL");
    attr.fill_one(FORMAT_INSERTED, "INS");
    attr.fill_one(FORMAT_MARKED, "MARK");
    attr.fill_one(FORMAT_SMALL, "SMALL");
    attr
}

/// Some toggling text format is named by the attribute map.
pub open spec fn spec_has_text_format(m: Map<Seq<char>, crate::attr_val::AttrV>) -> bool {
    ||| m.contains_key(FORMAT_BOLD@)
    ||| m.contains_key(FORMAT_ITALIC@)
    ||| m.contains_key(FORMAT_UNDERLINE@)
    ||| m.contains_key(FORMAT_STRIKE@)
    ||| m.contains_key(FORMAT_SUB@)
    ||| m.contains_key(FORMAT_SUP@)
    ||| m.contains_key(FORMAT_DELETED@)
    ||| m.contains_key(FORMAT_INSERTED@)
    ||| m.contains_key(FORMAT_MARKED@)
    ||| m.contains_key(FORMAT_SMALL@)
}

/// True when `attr` names at least one toggling text format.
pub fn has_text_fomat(attr: &Attributes) -> (r: bool)
    requires
        attr.wf(),
    ensures
        r == spec_has_text_format(attr@),
{
    attr.contains_key(FORMAT_BOLD) || attr.contains_key(FORMAT_ITALIC) || attr.contains_key(
        FORMAT_UNDERLINE,
    ) || attr.contains_key(FORMAT_STRIKE) || attr.contains_key(FORMAT_SUB) || attr.contains_key(
        FORMAT_SUP,
    ) || attr.contains_key(FORMAT_DELETED) || attr.contains_key(FORMAT_INSERTED)
        || attr.contains_key(FORMAT_MARKED) || attr.contains_key(FORMAT_SMALL)
}

} // verus!
