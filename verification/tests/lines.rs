//! Splitting multi-line inserts into single-line operations.

use quill_core::delta_doc::Delta;
use quill_core::doc_root::split_text_lines;
use quill_core::error::Error;

#[test]
fn split_text_lines_test() -> Result<(), Error> {
    let mut delta = Delta::new();
    delta.insert("\nHello sweet \nworld");
    let v = split_text_lines(delta.first().unwrap())?;

    assert_eq!(v.first().unwrap().insert_value().str_val()?, "\n");
    assert_eq!(v.get(1).unwrap().insert_value().str_val()?, "Hello sweet ");
    assert_eq!(v.get(2).unwrap().insert_value().str_val()?, "\n");
    assert_eq!(v.get(3).unwrap().insert_value().str_val()?, "world");
    Ok(())
}

#[test]
fn split_multi_block_formats_test() -> Result<(), Error> {
    let mut delta = Delta::new();
    delta.insert("\n\n\n");
    delta.insert("\n");

    let v = split_text_lines(delta.first().unwrap())?;

    assert_eq!(v.first().unwrap().insert_value().str_val()?, "\n");
    assert_eq!(v.get(1).unwrap().insert_value().str_val()?, "\n");
    assert_eq!(v.get(2).unwrap().insert_value().str_val()?, "\n");
    assert_eq!(v.get(3).unwrap().insert_value().str_val()?, "\n");
    Ok(())
}
