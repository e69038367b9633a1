//! The closed set of failures a page operation can report.
//!
//! Each kind is a unit type of its own; [`MemKvError`] is their sum, which the
//! page operations return.

use vstd::prelude::*;
use vstd::string::StringExecFns;

verus! {

/// The page cannot accept the value.
#[derive(Clone, Copy, Debug, PartialEq, Eq, Structural)]
pub struct NoSpaceLeftError;

impl NoSpaceLeftError {
    /// The text shown for this failure.
    pub fn message(&self) -> (text: String)
        ensures
            text@ == "no space left on page to add value"@,
    {
        String::from_str("no space left on page to add value")
    }
}

/// The index already maps the key.
#[derive(Clone, Copy, Debug, PartialEq, Eq, Structural)]
pub struct KeyAlreadyExistsError;

impl KeyAlreadyExistsError {
    /// The text shown for this failure.
    pub fn message(&self) -> (text: String)
        ensures
            text@ == "key already exists in page"@,
    {
        String::from_str("key already exists in page")
    }
}

/// The index holds no entry for the key.
#[derive(Clone, Copy, Debug, PartialEq, Eq, Structural)]
pub struct KeyDoesNotExistError;

impl KeyDoesNotExistError {
    /// The text shown for this failure.
    pub fn message(&self) -> (text: String)
        ensures
            text@ == "key does not exist in page"@,
    {
        String::from_str("key does not exist in page")
    }
}

/// No usable mapping of the page's capacity could be had.
#[derive(Clone, Copy, Debug, PartialEq, Eq, Structural)]
pub struct MemmapCreationFailureError;

impl MemmapCreationFailureError {
    /// The text shown for this failure.
    pub fn message(&self) -> (text: String)
        ensures
            text@ == "failed to create memmap"@,
    {
        String::from_str("failed to create memmap")
    }
}

/// The header of an indexed entry already carries the tombstone flag.
#[derive(Clone, Copy, Debug, PartialEq, Eq, Structural)]
pub struct EntryAlreadyDeletedInFileError;

impl EntryAlreadyDeletedInFileError {
    /// The text shown for this failure.
    pub fn message(&self) -> (text: String)
        ensures
            text@ == "entry already deleted in file"@,
    {
        String::from_str("entry already deleted in file")
    }
}

/// A header's type byte names no value kind, or a payload does not fit its kind.
#[derive(Clone, Copy, Debug, PartialEq, Eq, Structural)]
pub struct InvalidDataTypeError;

impl InvalidDataTypeError {
    /// The text shown for this failure.
    pub fn message(&self) -> (text: String)
        ensures
            text@ == "Invalid data type"@,
    {
        String::from_str("Invalid data type")
    }
}

/// Any failure of a page operation.
#[derive(Clone, Copy, Debug, PartialEq, Eq, Structural)]
pub enum MemKvError {
    NoSpaceLeft(NoSpaceLeftError),
    KeyAlreadyExists(KeyAlreadyExistsError),
    KeyDoesNotExist(KeyDoesNotExistError),
    MemmapCreationFailure(MemmapCreationFailureError),
    EntryAlreadyDeletedInFile(EntryAlreadyDeletedInFileError),
    InvalidDataType(InvalidDataTypeError),
}

impl MemKvError {
    /// The text of the failure that this value wraps.
    pub open spec fn message_text(self) -> Seq<char> {
        match self {
            MemKvError::NoSpaceLeft(_) => "no space left on page to add value"@,
            MemKvError::KeyAlreadyExists(_) => "key already exists in page"@,
            MemKvError::KeyDoesNotExist(_) => "key does not exist in page"@,
            MemKvError::MemmapCreationFailure(_) => "failed to create memmap"@,
            MemKvError::EntryAlreadyDeletedInFile(_) => "entry already deleted in file"@,
            MemKvError::InvalidDataType(_) => "Invalid data type"@,
        }
    }

    /// The text shown for this failure.
    pub fn message(&self) -> (text: String)
        ensures
            text@ == self.message_text(),
    {
        match self {
            MemKvError::NoSpaceLeft(kind) => kind.message(),
            MemKvError::KeyAlreadyExists(kind) => kind.message(),
            MemKvError::KeyDoesNotExist(kind) => kind.message(),
            MemKvError::MemmapCreationFailure(kind) => kind.message(),
            MemKvError::EntryAlreadyDeletedInFile(kind) => kind.message(),
            MemKvError::InvalidDataType(kind) => kind.message(),
        }
    }
}

} // verus!
