//! Attribute names used in the edit-operation stream.

use vstd::prelude::*;

verus! {

/// Toggling text formats: present (usually `true`) switches the format on, a
/// clearing value switches it off.
pub const FORMAT_BOLD: &'static str = "bold";

pub const FORMAT_ITALIC: &'static str = "italic";

pub const FORMAT_UNDERLINE: &'static str = "underline";

pub const FORMAT_STRIKE: &'static str = "strike";

pub const FORMAT_SUB: &'static str = "subscript";

pub const FORMAT_SUP: &'static str = "superscript";

pub const FORMAT_DELETED: &'static str = "deleted";

pub const FORMAT_INSERTED: &'static str = "inserted";

pub const FORMAT_MARKED: &'static str = "marked";

pub const FORMAT_SMALL: &'static str = "small";

/// Valued text attributes.
pub const TEXT_ATTR_FONT: &'static str = "font";

pub const TEXT_ATTR_SIZE: &'static str = "size";

pub const TEXT_ATTR_COLOR: &'static str = "color";

pub const TEXT_ATTR_BACK_GROUND: &'static str = "background";

/// Registry label of the mandatory paragraph fallback.
pub const NAME_P_BLOCK: &'static str = "F_P-BLOCK";

/// Registry label of the mandatory plain-text fallback.
pub const NAME_TEXT: &'static str = "F_TEXT";

/// Registry label of the header block format.
pub const NAME_HEADER: &'static str = "heading";

/// Attribute key that selects a header level.
pub const HEADER_ATTR_KEY: &'static str = "heading";

} // verus!
