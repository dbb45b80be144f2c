//! The storage that segments are kept in: requests to it, and its errors.

use vstd::prelude::*;
use crate::numerals::{append_decimal, decimal};

verus! {

/// Why the storage did not deliver.
#[derive(Debug, Clone)]
pub enum StorageError {
    /// Reading or writing a file failed.
    Io(String),
    /// A request to an object store failed.
    S3(String),
    /// There is no such object.
    NotFound(String),
}

/// A storage error, its text as a sequence of characters.
#[verifier::ext_equal]
pub enum StorageFault {
    Io(Seq<char>),
    S3(Seq<char>),
    NotFound(Seq<char>),
}

impl View for StorageError {
    type V = StorageFault;

    open spec fn view(&self) -> StorageFault {
        match self {
            StorageError::Io(text) => StorageFault::Io(text@),
            StorageError::S3(text) => StorageFault::S3(text@),
            StorageError::NotFound(text) => StorageFault::NotFound(text@),
        }
    }
}

impl StorageError {
    /// The text of the error.
    pub open spec fn text(&self) -> Seq<char> {
        match self {
            StorageError::Io(e) => "I/O error: "@ + e@,
            StorageError::S3(e) => "S3 error: "@ + e@,
            StorageError::NotFound(e) => "Object not found: "@ + e@,
        }
    }

    /// Describes the error.
    pub fn message(&self) -> (r: String)
        ensures
            r@ == self.text(),
    {
        match self {
            StorageError::Io(e) => String::from_str("I/O error: ").concat(e.as_str()),
            StorageError::S3(e) => String::from_str("S3 error: ").concat(e.as_str()),
            StorageError::NotFound(e) => String::from_str("Object not found: ").concat(e.as_str()),
        }
    }
}

/// What the errors of a storage say, and what their model holds.
pub proof fn law_storage_errors(e: StorageError)
    ensures
        e matches StorageError::Io(text) ==> e.text() == "I/O error: "@ + text@ && e@
            == StorageFault::Io(text@),
        e matches StorageError::S3(text) ==> e.text() == "S3 error: "@ + text@ && e@
            == StorageFault::S3(text@),
        e matches StorageError::NotFound(text) ==> e.text() == "Object not found: "@ + text@ && e@
            == StorageFault::NotFound(text@),
{
}

/// The header that asks an object store for the bytes from `start` to before `end`.
pub fn range_header(start: u64, end: u64) -> (text: String)
    requires
        end > 0,
    ensures
        text@ == "bytes="@ + decimal(start as nat) + "-"@ + decimal((end - 1) as nat),
{
    let mut text = String::from_str("bytes=");
    append_decimal(&mut text, start);
    text.append("-");
    append_decimal(&mut text, end - 1);
    text
}

/// The header that asks an object store for the last `len` bytes.
pub fn suffix_header(len: u64) -> (text: String)
    ensures
        text@ == "bytes=-"@ + decimal(len as nat),
{
    let mut text = String::from_str("bytes=-");
    append_decimal(&mut text, len);
    text
}

/// Checks that a file of `size` bytes has `len` bytes to read from its end.
pub fn check_tail(len: u64, size: u64) -> (r: Result<(), StorageError>)
    ensures
        match r {
            Ok(_) => len <= size,
            Err(e) => len > size && e@ == StorageFault::Io(
                "Requested tail "@ + decimal(len as nat) + " bytes but file is only "@ + decimal(
                    size as nat,
                ) + " bytes"@,
            ),
        },
{
    if len <= size {
        return Ok(());
    }
    let mut text = String::from_str("Requested tail ");
    append_decimal(&mut text, len);
    text.append(" bytes but file is only ");
    append_decimal(&mut text, size);
    text.append(" bytes");
    Err(StorageError::Io(text))
}

} // verus!
