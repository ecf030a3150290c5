//! Block-level attributes (direction, align, indent) and the class prefixes
//! they render to.

use crate::lookup::AttributesLookup;
use vstd::prelude::*;

verus! {

/// Builds the table of block-level attributes, each with the class prefix it
/// renders to, in priority order.
pub fn initialise() -> (r: AttributesLookup)
    ensures
        r.pairs().len() == 3,
        r.pairs()[0] == ("direction"@, "ql-direction-"@),
        r.pairs()[1] == ("align"@, "ql-align-"@),
        r.pairs()[2] == ("indent"@, "ql-indent-"@),
{
    let mut attr = AttributesLookup::new(3);
    attr.fill_one("direction", "ql-direction-");
    attr.fill_one("align", "ql-align-");
    attr.fill_one("indent", "ql-indent-");
    attr
}

} // verus!
