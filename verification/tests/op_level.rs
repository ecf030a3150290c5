//! Operation-level text edits: splitting, merging, inserting and deleting
//! inside one insert operation.

use quill_core::error::Error;
use quill_core::node_morph::{delete_at, insert_at, merge, split_at};
use quill_core::operations::DeltaOperation;

#[test]
fn insert_test() -> Result<(), Error> {
    let mut op = DeltaOperation::insert("HellWorld");
    insert_at(&mut op, 4, "o ")?;
    assert_eq!(op.insert_value().str_val()?, "Hello World");
    Ok(())
}

#[test]
fn delete_at_test() -> Result<(), Error> {
    let mut op = DeltaOperation::insert("Hello World");
    delete_at(&mut op, 5, 1)?;
    assert_eq!(op.insert_value().str_val()?, "HelloWorld");

    let mut op = DeltaOperation::insert("Hello World");
    delete_at(&mut op, 6, 5)?;
    assert_eq!(op.insert_value().str_val()?, "Hello ");

    let mut op = DeltaOperation::insert("Hello World");
    delete_at(&mut op, 0, 5)?;
    assert_eq!(op.insert_value().str_val()?, " World");

    let mut op = DeltaOperation::insert("Hello World");
    delete_at(&mut op, 0, 11)?;
    assert_eq!(op.insert_value().str_val()?, "");
    Ok(())
}

#[test]
fn merge_test() -> Result<(), Error> {
    let left = DeltaOperation::insert("Hello ");
    let right = DeltaOperation::insert("World");
    let op = merge(&left, &right)?;
    assert_eq!(op.insert_value().str_val()?, "Hello World");
    Ok(())
}

#[test]
fn split_at_test() -> Result<(), Error> {
    let op = DeltaOperation::insert("Hello World");
    let (left, right) = split_at(&op, 5)?;
    assert_eq!(left.insert_value().str_val()?, "Hello");
    assert_eq!(right.insert_value().str_val()?, " World");

    let op = DeltaOperation::insert("Hello World");
    let (left, right) = split_at(&op, 0)?;
    assert_eq!(left.insert_value().str_val()?, "");
    assert_eq!(right.insert_value().str_val()?, "Hello World");

    let op = DeltaOperation::insert("Hello World");
    let (left, right) = split_at(&op, 11)?;
    assert_eq!(left.insert_value().str_val()?, "Hello World");
    assert_eq!(right.insert_value().str_val()?, "");
    Ok(())
}

#[test]
fn split_then_merge_restores_test() -> Result<(), Error> {
    // Splitting an operation and merging the halves yields the original
    // content and attributes.
    let mut attr = quill_core::attributes::Attributes::new();
    attr.insert("bold", quill_core::attr_val::AttrVal::Bool(true));
    let op = DeltaOperation::insert_attr("editing core", attr.clone());
    let (left, right) = split_at(&op, 4)?;
    let joined = merge(&left, &right)?;
    assert_eq!(joined.insert_value().str_val()?, "editing core");
    assert!(joined.get_attributes().is_equal(&attr));
    Ok(())
}

#[test]
fn split_object_is_error_test() {
    let descriptor = quill_core::attributes::Attributes::new();
    let op = DeltaOperation::insert_object(descriptor);
    assert!(split_at(&op, 0).is_err());
}
