//! Valued text attributes (font, size, color, background) and their
//! render-side translations.

use crate::attributes::Attributes;
use crate::format_const::{TEXT_ATTR_BACK_GROUND, TEXT_ATTR_COLOR, TEXT_ATTR_FONT, TEXT_ATTR_SIZE};
use crate::lookup::AttributesLookup;
use vstd::prelude::*;

verus! {

/// Builds the table of valued text attributes, each with the class prefix or
/// style key it renders to, in priority order.
pub fn initialise() -> (r: AttributesLookup)
    ensures
        r.pairs().len() == 4,
        r.pairs()[0] == (TEXT_ATTR_FONT@, "ql-font-"@),
        r.pairs()[1] == (TEXT_ATTR_SIZE@, "font-size"@),
        r.pairs()[2] == (TEXT_ATTR_COLOR@, "color"@),
        r.pairs()[3] == (TEXT_ATTR_BACK_GROUND@, "background-color"@),
{
    let mut attr = AttributesLookup::new(4);
    attr.fill_one(TEXT_ATTR_FONT, "ql-font-");
    attr.fill_one(TEXT_ATTR_SIZE, "font-size");
    attr.fill_one(TEXT_ATTR_COLOR, "color");
    attr.fill_one(TEXT_ATTR_BACK_GROUND, "background-color");
    attr
}

/// Some valued text attribute is named by the attribute map.
pub open spec fn spec_has_text_attributes(m: Map<Seq<char>, crate::attr_val::AttrV>) -> bool {
    ||| m.contains_key(TEXT_ATTR_FONT@)
    ||| m.contains_key(TEXT_ATTR_SIZE@)
    ||| m.contains_key(TEXT_ATTR_COLOR@)
    ||| m.contains_key(TEXT_ATTR_BACK_GROUND@)
}

/// True when `attr` names at least one valued text attribute.
pub fn has_text_attributes(attr: &Attributes) -> (r: bool)
    requires
        attr.wf(),
    ensures
        r == spec_has_text_attributes(attr@),
{
    attr.contains_key(TEXT_ATTR_FONT) || attr.contains_key(TEXT_ATTR_SIZE) || attr.contains_key(
        TEXT_ATTR_COLOR,
    ) || attr.contains_key(TEXT_ATTR_BACK_GROUND)
}

} // verus!
