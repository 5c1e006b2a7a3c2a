//! The interface to a reader and writer of one reference-data file.

use vstd::prelude::*;

use crate::errors::DbError;

verus! {

/// Reads or writes one value of type `T` under a conventional file
/// name.  Implementations perform the actual I/O and parsing; the
/// loaders validate and index whatever comes back.
pub trait DataSource<T> {
    /// Reads the value stored under `file_name`, appending the
    /// implementation's extension when `add_extension` is set.
    fn load(&self, file_name: String, add_extension: bool) -> Result<T, DbError>;

    /// Writes the value under `file_name`.
    fn save(&self, data: &T, file_name: String) -> Result<(), DbError>;
}

} // verus!
