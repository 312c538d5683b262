//! What can go wrong while a plan is executed.
use vstd::prelude::*;

use crate::storage::StorageError;
#[allow(unused_imports)]
use crate::storage::StorageErrV;
use crate::text;

verus! {

/// An error of execution.
#[derive(Debug, PartialEq, Eq)]
pub enum Error {
    /// An `INSERT` whose embedding does not have the declared dimension of its table.
    EmbeddingDimMismatch { table: String, expected: usize, actual: usize },
    /// The log or the main file could not be written.
    Storage(StorageError),
    /// A memory was named outside a plan.
    MemoryWithoutContext { name: String },
}

#[verifier::ext_equal]
pub enum ErrorV {
    EmbeddingDimMismatch { table: Seq<char>, expected: usize, actual: usize },
    Storage(StorageErrV),
    MemoryWithoutContext { name: Seq<char> },
}

impl View for Error {
    type V = ErrorV;

    open spec fn view(&self) -> ErrorV {
        match *self {
            Error::EmbeddingDimMismatch { table, expected, actual } => {
                ErrorV::EmbeddingDimMismatch { table: table@, expected, actual }
            },
            Error::Storage(e) => ErrorV::Storage(e@),
            Error::MemoryWithoutContext { name } => ErrorV::MemoryWithoutContext { name: name@ },
        }
    }
}

/// An error of execution in writing.
pub open spec fn error_text(e: ErrorV) -> Seq<char> {
    match e {
        ErrorV::EmbeddingDimMismatch { table, expected, actual } =>
            "embedding dimension mismatch for table `"@ + table + "`: declared dim "@
                + text::dec_text(expected as nat) + ", got "@ + text::dec_text(actual as nat),
        ErrorV::Storage(s) => "storage error: "@ + crate::storage::storage_error_text(s),
        ErrorV::MemoryWithoutContext { name } => "`MEMORY "@ + name
            + "` must run inside a plan to switch context"@,
    }
}

impl Clone for Error {
    fn clone(&self) -> (r: Self)
        ensures
            r@ == self@,
    {
        match self {
            Error::EmbeddingDimMismatch { table, expected, actual } => Error::EmbeddingDimMismatch {
                table: text::owned(table.as_str()),
                expected: *expected,
                actual: *actual,
            },
            Error::Storage(e) => Error::Storage(e.clone()),
            Error::MemoryWithoutContext { name } => Error::MemoryWithoutContext {
                name: text::owned(name.as_str()),
            },
        }
    }
}

impl Error {
    /// The error in writing.
    pub fn to_text(&self) -> (r: String)
        ensures
            r@ == error_text(self@),
    {
        match self {
            Error::EmbeddingDimMismatch { table, expected, actual } => {
                let want = text::usize_text(*expected);
                let got = text::usize_text(*actual);
                let mut r = text::join4(
                    "embedding dimension mismatch for table `",
                    table.as_str(),
                    "`: declared dim ",
                    want.as_str(),
                );
                r.append(", got ");
                r.append(got.as_str());
                r
            },
            Error::Storage(e) => {
                let t = e.to_text();
                text::join2("storage error: ", t.as_str())
            },
            Error::MemoryWithoutContext { name } => text::join3(
                "`MEMORY ",
                name.as_str(),
                "` must run inside a plan to switch context",
            ),
        }
    }
}

/// What an error of execution says: which table declares which dimension and which it got; or what the
/// storage says.
pub proof fn law_execution_errors_say(table: Seq<char>, expected: usize, actual: usize, s: StorageErrV)
    ensures
        error_text(ErrorV::EmbeddingDimMismatch { table, expected, actual })
            == "embedding dimension mismatch for table `"@ + table + "`: declared dim "@
            + text::dec_text(expected as nat) + ", got "@ + text::dec_text(actual as nat),
        error_text(ErrorV::Storage(s)) == "storage error: "@ + crate::storage::storage_error_text(s),
{
}

} // verus!
