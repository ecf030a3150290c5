//! Typed errors reported by the engine.
//!
//! Document-state errors are reported to the caller; after one, the tree may
//! have been partly mutated, and the caller must treat the document as
//! needing re-synchronization.

use vstd::prelude::*;

verus! {

/// Everything that the cursor, the registry and the three operation entry
/// points can report.
#[derive(Debug)]
pub enum Error {
    /// A non-empty block has no previous node to traverse to.
    NonEmptyBlockCanNotTraversePrev,
    /// The cursor would move before the start of the document.
    BackspaceBeyondStart,
    /// The cursor would move past the end of the document.
    AdvanceBeyondEnd,
    /// A location was required but the cursor is unset.
    UnexepectedCursorPosNone,
    /// The registry holds no formats yet.
    RegistryNotInitialised,
    /// No registered format carries the requested label.
    RegistryNoSuchFormat { fmt: String },
    /// No registered format recognises the operation.
    RegistryNoFormatForOp { tpe: String },
    /// The cursor stands somewhere the operation cannot use.
    UnexpectedCursorPosition { pos: String },
    /// The document is not open for editing.
    DocumentNotOpenForEdit,
    /// The last block of a document can never be deleted.
    DeletingLastBlock,
    /// A delete ran past the end of the document.
    DeleteOperationOnEmptyDocument,
    /// An operation would grow the document or move the cursor past the
    /// machine's addressable size.
    DocumentCapacityExceeded,
    /// No following block exists to merge a deleted block's children into.
    CanNotFindNextBlock,
    /// A render placeholder was inserted into a block that already has one.
    DoubleInsertionOfASoftBreak,
    /// A render placeholder was removed from a block that has none.
    CanNotRemoveASoftBreak,
    /// An operation's payload is not a string where one was required.
    NotAStringValue,
    /// A capability of the wrong format kind was invoked.
    WrongFormatKind,
}

} // verus!
