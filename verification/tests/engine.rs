//! The three operation entry points driving a whole document.

use quill_core::attr_val::AttrVal;
use quill_core::attributes::Attributes;
use quill_core::delta_doc::Delta;
use quill_core::doc_root::DocumentRoot;
use quill_core::error::Error;
use quill_core::format_const::{NAME_HEADER, NAME_P_BLOCK, NAME_TEXT};
use quill_core::formatter::{Formatter, HeaderBlock, Pblock, TextFormat};
use quill_core::operations::DeltaOperation;
use quill_core::registry::{init_test_registry, Registry};

fn header_registry() -> Registry {
    let mut r = Registry::init_registry();
    r.register_block_fmt(NAME_HEADER, Formatter::Header(HeaderBlock::new()))
        .unwrap();
    r.register_block_fmt(NAME_P_BLOCK, Formatter::P(Pblock::new()))
        .unwrap();
    r.register_line_fmt(NAME_TEXT, Formatter::Text(TextFormat::new()))
        .unwrap();
    r
}

#[test]
fn round_trip_test() -> Result<(), Error> {
    // Applying one multi-line insert to an empty document, then serializing
    // the tree back, reproduces an equivalent stream; the document shows two
    // paragraph lines.
    let mut doc = DocumentRoot::new(init_test_registry());
    doc.open()?;
    doc.apply_operation(DeltaOperation::insert("Hello\n World"))?;

    assert_eq!(doc.line_count(), 2);
    assert_eq!(doc.line_text(0), "Hello");
    assert_eq!(doc.line_text(1), " World");
    assert!(!doc.line_placeholder(0));
    assert!(!doc.line_placeholder(1));

    let delta = doc.to_delta();
    let ops = delta.get_ops_ref();
    assert_eq!(ops.len(), 4);
    assert_eq!(ops[0].insert_value().str_val()?, "Hello");
    assert_eq!(ops[1].insert_value().str_val()?, "\n");
    assert_eq!(ops[2].insert_value().str_val()?, " World");
    assert_eq!(ops[3].insert_value().str_val()?, "\n");
    Ok(())
}

#[test]
fn empty_paragraphs_test() -> Result<(), Error> {
    // An empty document renders as one empty paragraph with a placeholder;
    // inserting a line terminator again gives two empty paragraphs.
    let mut doc = DocumentRoot::new(init_test_registry());
    doc.open()?;
    assert_eq!(doc.line_count(), 1);
    assert!(doc.line_placeholder(0));

    doc.apply_operation(DeltaOperation::retain(0))?;
    doc.apply_operation(DeltaOperation::insert("\n"))?;
    assert_eq!(doc.line_count(), 2);
    assert!(doc.line_placeholder(0));
    assert!(doc.line_placeholder(1));
    Ok(())
}

#[test]
fn line_break_delete_merges_with_second_format_test() -> Result<(), Error> {
    // Lines "abc" (plain) and "def" (centered): deleting the break between
    // them leaves one line "abcdef" carrying the centered line's attributes.
    let mut doc = DocumentRoot::new(init_test_registry());
    doc.open()?;
    doc.apply_operation(DeltaOperation::insert("abc\ndef"))?;
    assert_eq!(doc.line_count(), 2);

    let mut center = Attributes::new();
    center.insert("align", AttrVal::Str("center".to_string()));
    let mut delta = Delta::new();
    delta.retain(7);
    delta.retain_attr(1, center);
    doc.apply_delta(delta)?;

    let mut delta = Delta::new();
    delta.retain(3);
    delta.delete(1);
    doc.apply_delta(delta)?;

    assert_eq!(doc.line_count(), 1);
    assert_eq!(doc.line_text(0), "abcdef");
    let out = doc.to_delta();
    let ops = out.get_ops_ref();
    assert_eq!(ops.len(), 2);
    assert_eq!(ops[0].insert_value().str_val()?, "abcdef");
    assert_eq!(ops[1].insert_value().str_val()?, "\n");
    let nl_attrs = ops[1].get_attributes();
    assert!(nl_attrs.contains_key("align"));
    assert!(nl_attrs.get("align").unwrap().eq_val(&AttrVal::Str("center".to_string())));
    Ok(())
}

#[test]
fn retain_toggle_restores_plain_leaf_test() -> Result<(), Error> {
    // Inserting plain text, setting bold over part of it and clearing bold
    // again restores the original unformatted, merged leaf.
    let mut doc = DocumentRoot::new(init_test_registry());
    doc.open()?;
    doc.apply_operation(DeltaOperation::insert("hello world"))?;
    assert_eq!(doc.line_leaf_count(0), 1);

    let mut bold = Attributes::new();
    bold.insert("bold", AttrVal::Bool(true));
    let mut delta = Delta::new();
    delta.retain(2);
    delta.retain_attr(5, bold);
    doc.apply_delta(delta)?;
    assert_eq!(doc.line_leaf_count(0), 3);
    assert_eq!(doc.line_text(0), "hello world");

    let mut clear = Attributes::new();
    clear.insert("bold", AttrVal::Null);
    let mut delta = Delta::new();
    delta.retain(2);
    delta.retain_attr(5, clear);
    doc.apply_delta(delta)?;

    assert_eq!(doc.line_leaf_count(0), 1);
    assert_eq!(doc.line_text(0), "hello world");
    let out = doc.to_delta();
    let ops = out.get_ops_ref();
    assert_eq!(ops.len(), 2);
    assert!(ops[0].get_attributes().is_empty());
    Ok(())
}

#[test]
fn cursor_offset_consistency_test() -> Result<(), Error> {
    // After every insert, delete and retain, the cursor's cached offset
    // equals an independently recomputed walk from document start.
    let mut doc = DocumentRoot::new(init_test_registry());
    doc.open()?;
    assert_eq!(doc.recompute_retain_index(), doc.get_cursor().retain);

    doc.apply_operation(DeltaOperation::insert("stream of edits"))?;
    assert_eq!(doc.recompute_retain_index(), doc.get_cursor().retain);

    let mut delta = Delta::new();
    delta.retain(7);
    doc.apply_delta(delta)?;
    assert_eq!(doc.recompute_retain_index(), doc.get_cursor().retain);

    doc.apply_operation(DeltaOperation::delete(3))?;
    assert_eq!(doc.recompute_retain_index(), doc.get_cursor().retain);
    assert_eq!(doc.line_text(0), "stream edits");

    doc.apply_operation(DeltaOperation::insert("ed\nnew line"))?;
    assert_eq!(doc.recompute_retain_index(), doc.get_cursor().retain);
    Ok(())
}

#[test]
fn header_format_test() -> Result<(), Error> {
    // A "heading" attribute on the line terminator turns the line into a
    // header block; clearing it turns the header back into a paragraph.
    let mut doc = DocumentRoot::new(header_registry());
    doc.open()?;
    let mut h2 = Attributes::new();
    h2.insert("heading", AttrVal::Number(2));
    let mut delta = Delta::new();
    delta.insert("H2 header");
    delta.insert_attr("\n", h2);
    doc.apply_delta(delta)?;

    assert_eq!(doc.line_count(), 2);
    let out = doc.to_delta();
    assert!(out.get_ops_ref()[1].get_attributes().contains_key("heading"));

    let mut clear = Attributes::new();
    clear.insert("heading", AttrVal::Null);
    let mut delta = Delta::new();
    delta.retain(9);
    delta.retain_attr(1, clear);
    doc.apply_delta(delta)?;
    let out = doc.to_delta();
    assert!(!out.get_ops_ref()[1].get_attributes().contains_key("heading"));
    Ok(())
}

#[test]
fn bad_header_level_is_error_test() -> Result<(), Error> {
    // A header whose level is not a number is rejected as a configuration
    // error.
    let mut doc = DocumentRoot::new(header_registry());
    doc.open()?;
    let mut bad = Attributes::new();
    bad.insert("heading", AttrVal::Bool(true));
    let r = doc.apply_operation(DeltaOperation::insert_attr("\n", bad));
    assert!(r.is_err());
    Ok(())
}

#[test]
fn delete_last_terminator_is_error_test() -> Result<(), Error> {
    // The last line terminator can never be deleted.
    let mut doc = DocumentRoot::new(init_test_registry());
    doc.open()?;
    doc.apply_operation(DeltaOperation::insert("abc"))?;
    let mut delta = Delta::new();
    delta.retain(3);
    delta.delete(1);
    let r = doc.apply_delta(delta);
    assert!(r.is_err());
    Ok(())
}

#[test]
fn unrecognised_leaf_attrs_is_error_test() -> Result<(), Error> {
    // No registered format recognises an insert with unknown attributes: a
    // configuration error, not a silent default.
    let mut doc = DocumentRoot::new(init_test_registry());
    doc.open()?;
    let mut odd = Attributes::new();
    odd.insert("blink", AttrVal::Bool(true));
    let r = doc.apply_operation(DeltaOperation::insert_attr("x", odd));
    assert!(r.is_err());
    Ok(())
}

#[test]
fn cursor_points_to_test() -> Result<(), Error> {
    // Walking the whole stream with retains, the cursor points to each
    // character in turn; at a block's edge it points to the block's tag.
    let mut doc = DocumentRoot::new(init_test_registry());
    doc.open()?;
    doc.apply_operation(DeltaOperation::insert("ab
cd"))?;
    let expected = ["a", "b", "<P>", "c", "d", "<P>"];
    for (i, want) in expected.iter().enumerate() {
        let mut delta = Delta::new();
        delta.retain(i);
        doc.apply_delta(delta)?;
        assert_eq!(quill_core::doc_root::cursor_points_to(&doc), *want);
    }
    Ok(())
}

#[test]
fn advance_backspace_selection_test() -> Result<(), Error> {
    // Advancing and stepping back move the cursor by exactly one character;
    // both report an error past the document's edges.  A selection's length
    // is the character count between its ends.
    let mut doc = DocumentRoot::new(init_test_registry());
    doc.open()?;
    doc.apply_operation(DeltaOperation::insert("ab"))?;
    // The document is "ab" plus its line terminator; the cursor sits at 2.
    assert_eq!(doc.get_cursor().retain, 2);
    assert!(doc.advance().is_err());
    doc.backspace()?;
    assert_eq!(doc.get_cursor().retain, 1);
    doc.advance()?;
    assert_eq!(doc.get_cursor().retain, 2);
    doc.backspace()?;
    doc.backspace()?;
    assert_eq!(doc.get_cursor().retain, 0);
    assert!(doc.backspace().is_err());

    doc.set_selection(0, 2)?;
    assert_eq!(doc.selection_length(), 2);
    doc.set_selection(1, 0)?;
    assert_eq!(doc.selection_length(), 0);
    Ok(())
}

#[test]
fn closed_document_rejects_edits_test() {
    // A document not opened for editing rejects every operation.
    let mut doc = DocumentRoot::new(init_test_registry());
    assert!(doc.apply_operation(DeltaOperation::insert("x")).is_err());
    let mut delta = Delta::new();
    delta.insert("x");
    assert!(doc.apply_delta(delta).is_err());
}

#[test]
fn error_closes_editing_test() -> Result<(), Error> {
    // After an engine error the document leaves edit mode, and further
    // operations are rejected until it is reopened.
    let mut doc = DocumentRoot::new(init_test_registry());
    doc.open()?;
    let mut odd = Attributes::new();
    odd.insert("blink", AttrVal::Bool(true));
    assert!(doc.apply_operation(DeltaOperation::insert_attr("x", odd)).is_err());
    assert!(doc.apply_operation(DeltaOperation::insert("y")).is_err());
    doc.open()?;
    doc.apply_operation(DeltaOperation::insert("y"))?;
    assert_eq!(doc.line_text(0), "y");
    Ok(())
}

#[test]
fn selection_clamps_to_document_end_test() -> Result<(), Error> {
    // A selection reaching past the end lands on the last position.
    let mut doc = DocumentRoot::new(init_test_registry());
    doc.open()?;
    doc.apply_operation(DeltaOperation::insert("ab"))?;
    // The document holds "ab" plus its terminator: positions 0, 1 and 2.
    doc.set_selection(10, 0)?;
    assert_eq!(doc.get_cursor().retain, 2);
    doc.set_selection(0, 10)?;
    assert_eq!(doc.get_cursor().retain, 0);
    assert_eq!(doc.selection_length(), 2);
    Ok(())
}

#[test]
fn insert_splits_formatted_run_test() -> Result<(), Error> {
    // Inserting differently formatted text inside a run splits it; equal
    // neighbours merge back together.
    let mut doc = DocumentRoot::new(init_test_registry());
    doc.open()?;
    let mut bold = Attributes::new();
    bold.insert("bold", AttrVal::Bool(true));
    let mut delta = Delta::new();
    delta.insert("abcd");
    doc.apply_delta(delta)?;

    let mut delta = Delta::new();
    delta.retain(2);
    delta.insert_attr("XY", bold);
    doc.apply_delta(delta)?;

    assert_eq!(doc.line_text(0), "abXYcd");
    assert_eq!(doc.line_leaf_count(0), 3);

    // Inserting plain text right after the plain prefix merges with it.
    let mut delta = Delta::new();
    delta.retain(2);
    delta.insert("z");
    doc.apply_delta(delta)?;
    assert_eq!(doc.line_text(0), "abzXYcd");
    assert_eq!(doc.line_leaf_count(0), 3);
    Ok(())
}
