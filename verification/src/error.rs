//! What goes wrong.

use vstd::prelude::*;

use crate::json_text::JsonError;
use crate::kind::BodyKind;

verus! {

/// An error of the storage layer.
#[derive(Debug)]
pub enum StorageError {
    /// A text is no JSON document, or not the one that was expected.
    Json(JsonError),
    /// The file has another version of the schema.
    VersionMismatch { found: i32, expected: i32 },
    /// The file is no soundbank database.
    BadApplicationId { found: i32 },
    /// An id is neither a name nor a hash.
    InvalidIdKind(String),
    /// A hash cannot be read, or no object has it.
    BadHash(String),
    /// The bank has no header.
    MissingBkhd,
}

/// What an error of the storage layer says.
#[verifier::ext_equal]
pub enum StorageFault {
    Json(JsonError),
    VersionMismatch { found: i32, expected: i32 },
    BadApplicationId { found: i32 },
    InvalidIdKind(Seq<char>),
    BadHash(Seq<char>),
    MissingBkhd,
}

impl View for StorageError {
    type V = StorageFault;

    open spec fn view(&self) -> StorageFault {
        match self {
            StorageError::Json(e) => StorageFault::Json(*e),
            StorageError::VersionMismatch { found, expected } => StorageFault::VersionMismatch {
                found: *found,
                expected: *expected,
            },
            StorageError::BadApplicationId { found } => StorageFault::BadApplicationId {
                found: *found,
            },
            StorageError::InvalidIdKind(kind) => StorageFault::InvalidIdKind(kind@),
            StorageError::BadHash(text) => StorageFault::BadHash(text@),
            StorageError::MissingBkhd => StorageFault::MissingBkhd,
        }
    }
}

/// Why an edit of a bank was refused.
#[derive(Debug)]
pub enum EditError {
    /// No object is meant by the text that was given for a parent.
    NoSuchParent(String),
    /// No object is meant by the text that was given for a child.
    NoSuchChild(String),
    /// The text that was given for a child is no id.
    BadChildId(String),
    /// No object is meant by the text.
    NoSuchObject(String),
    /// The bank has no section with objects.
    NoHirc,
    /// The object is not in the first section with objects.
    NotInHirc(u32),
    /// Objects of this kind have no children.
    NoChildren(BodyKind),
    /// The id is not among the children.
    NotAChild(u32),
    /// The text is not the body of an object.
    Json(JsonError),
    /// The new id is empty.
    EmptyId,
    /// The new id has another hash, and references were not to be rewritten.
    HashWouldChange { from: u32, to: u32 },
    /// Another object has the hash of the new id.
    HashTaken(u32),
    /// No object in the source is meant by the text that was given for an event.
    EventNotFound(String),
    /// The object to copy is no event.
    NotAnEvent(BodyKind),
    /// No object in the destination is meant by the text that was given for a parent.
    ParentNotFound(String),
    /// No action of the event has a target.
    NoContainer,
    /// The destination has no section with objects.
    NoHircInDestination,
}

/// What a refusal of an edit says.
#[verifier::ext_equal]
pub enum EditFault {
    NoSuchParent(Seq<char>),
    NoSuchChild(Seq<char>),
    BadChildId(Seq<char>),
    NoSuchObject(Seq<char>),
    NoHirc,
    NotInHirc(u32),
    NoChildren(BodyKind),
    NotAChild(u32),
    Json(JsonError),
    EmptyId,
    HashWouldChange { from: u32, to: u32 },
    HashTaken(u32),
    EventNotFound(Seq<char>),
    NotAnEvent(BodyKind),
    ParentNotFound(Seq<char>),
    NoContainer,
    NoHircInDestination,
}

impl View for EditError {
    type V = EditFault;

    open spec fn view(&self) -> EditFault {
        match self {
            EditError::NoSuchParent(text) => EditFault::NoSuchParent(text@),
            EditError::NoSuchChild(text) => EditFault::NoSuchChild(text@),
            EditError::BadChildId(text) => EditFault::BadChildId(text@),
            EditError::NoSuchObject(text) => EditFault::NoSuchObject(text@),
            EditError::NoHirc => EditFault::NoHirc,
            EditError::NotInHirc(id) => EditFault::NotInHirc(*id),
            EditError::NoChildren(kind) => EditFault::NoChildren(*kind),
            EditError::NotAChild(id) => EditFault::NotAChild(*id),
            EditError::Json(e) => EditFault::Json(*e),
            EditError::EmptyId => EditFault::EmptyId,
            EditError::HashWouldChange { from, to } => EditFault::HashWouldChange {
                from: *from,
                to: *to,
            },
            EditError::HashTaken(hash) => EditFault::HashTaken(*hash),
            EditError::EventNotFound(text) => EditFault::EventNotFound(text@),
            EditError::NotAnEvent(kind) => EditFault::NotAnEvent(*kind),
            EditError::ParentNotFound(text) => EditFault::ParentNotFound(text@),
            EditError::NoContainer => EditFault::NoContainer,
            EditError::NoHircInDestination => EditFault::NoHircInDestination,
        }
    }
}

} // verus!
