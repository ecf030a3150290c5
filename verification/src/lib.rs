//! Editing core of a rich-text document engine.
//!
//! A document is a tree of blocks (one per line, each worth one character for
//! its line terminator) holding leaves (runs of text with attributes).  The
//! engine applies a stream of edit operations -- insert, delete, retain, each
//! optionally carrying formatting attributes -- to that tree, keeping a cursor
//! correctly positioned and the tree in canonical form.

pub mod attr_val;
pub mod auto_soft_break;
pub mod attributes;
pub mod block;
pub mod block_format;
pub mod cursor;
pub mod delta_doc;
pub mod doc_root;
pub mod doc_node;
pub mod error;
pub mod format_const;
pub mod formatter;
pub mod lookup;
pub mod node_morph;
pub mod op_delete;
pub mod op_insert;
pub mod op_retain;
pub mod operations;
pub mod registry;
pub mod string_util;
pub mod t_attributes;
pub mod tree_traverse;
pub mod t_formats;
