//! Format recognition, attribute tables and the registry.

use quill_core::attr_val::AttrVal;
use quill_core::attributes::Attributes;
use quill_core::delta_doc::Delta;
use quill_core::error::Error;
use quill_core::format_const::{NAME_HEADER, NAME_P_BLOCK, NAME_TEXT};
use quill_core::formatter::{Formatter, HeaderBlock, Pblock, TextFormat};
use quill_core::lookup::{Attributor, AttributesLookup};
use quill_core::operations::DeltaOperation;
use quill_core::registry::Registry;
use quill_core::t_formats::has_text_fomat;

#[test]
pub fn has_text_format_test() {
    let mut attr = Attributes::new();
    attr.insert("bold", AttrVal::Bool(true));
    attr.insert("small", AttrVal::Bool(true));
    attr.insert("some", AttrVal::Str("thing".to_string()));
    attr.insert("else", AttrVal::Str("to_do".to_string()));
    let v = has_text_fomat(&attr);
    assert_eq!(v, true);

    let mut attr = Attributes::new();
    attr.insert("some", AttrVal::Str("thing".to_string()));
    attr.insert("else", AttrVal::Str("to_do".to_string()));
    let v = has_text_fomat(&attr);
    assert_eq!(v, false);
}

#[test]
fn test_lookup() {
    let mut lookup = AttributesLookup::new(6);
    lookup.fill_one("key_1", "html_tag_1");
    lookup.fill_one("key_2", "html_tag_2");
    lookup.fill_one("key_3", "html_tag_3");
    lookup.fill_one("key_4", "html_tag_4");
    lookup.fill_one("key_5", "html_tag_5");
    lookup.fill_one("key_6", "html_tag_6");

    let mut attr = Attributes::new();
    attr.insert("key_1", AttrVal::Str("val_1".to_string()));
    attr.insert("key_3", AttrVal::Bool(true));
    attr.insert("key_6", AttrVal::Null);

    for (format, attr_val) in Attributor::selected(&attr, &lookup) {
        if let AttrVal::Bool(b) = &attr_val {
            if *b {
                println!("bool or null: {}", format);
            }
        }
        if let AttrVal::Null = &attr_val {
            println!("bool or null: {}", format);
        }
        println!("found: ({:?}, {:?})", format, attr_val);
    }

    for i in Attributor::all_key(&lookup) {
        println!("found 'all key': ({})", i);
    }
}

#[test]
fn detect_hx_line_format() -> Result<(), Error> {
    let mut attr = Attributes::new();
    attr.insert("heading", AttrVal::Number(2));

    let mut delta = Delta::new();
    delta.insert("This text is a normal first line \n This one will become a H2 header ");
    delta.insert_attr("\n", attr);

    let op = delta.get_ops_ref().get(1).unwrap();

    let hx_block = Formatter::Header(HeaderBlock::new());
    assert_eq!(hx_block.format_name(), NAME_HEADER);

    assert_eq!(hx_block.applies(op)?, true);
    Ok(())
}

#[test]
fn registry_block_format_test() -> Result<(), Error> {
    let mut registry = Registry::init_registry();
    registry.register_block_fmt(NAME_P_BLOCK, Formatter::P(Pblock::new()))?;
    registry.register_line_fmt(NAME_TEXT, Formatter::Text(TextFormat::new()))?;

    let op = DeltaOperation::insert("\n");
    assert!(registry.is_block_fmt(&op)?);

    let op = DeltaOperation::insert(r#"hello \nworld"#);
    assert!(!registry.is_block_fmt(&op)?);
    Ok(())
}

#[test]
fn attr_val_kinds_test() {
    assert!(AttrVal::Null.is_null());
    assert!(AttrVal::Str("x".to_string()).is_string());
    assert!(AttrVal::Bool(true).eq_val(&AttrVal::Bool(true)));
    assert!(!AttrVal::Bool(true).eq_val(&AttrVal::Bool(false)));
    assert_eq!(AttrVal::Number(3).number_val(), 3);
}

#[test]
fn compose_clearing_test() {
    // Composing layers the incoming attributes on top; a clearing value
    // removes its key.
    let mut base = Attributes::new();
    base.insert("bold", AttrVal::Bool(true));
    base.insert("size", AttrVal::Number(6));
    let mut incoming = Attributes::new();
    incoming.insert("bold", AttrVal::Null);
    incoming.insert("italic", AttrVal::Bool(true));
    let merged = quill_core::attributes::compose(&base, &incoming, false);
    assert!(!merged.contains_key("bold"));
    assert!(merged.contains_key("italic"));
    assert!(merged.contains_key("size"));
    assert_eq!(merged.len(), 2);
}
