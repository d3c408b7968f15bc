//! Conversion of memory-card backup images into individually named save-file
//! archives: locating candidate files in a directory tree, resolving game
//! codes against a reference dataset, and synthesizing destination filenames.

pub mod db;
pub mod locate;
pub mod naming;
pub mod region;
pub mod text;
pub mod title;

use vstd::prelude::*;

verus! {

/// Errors that abort a conversion run.
#[derive(Clone, Copy, Debug, PartialEq, Eq, Structural)]
pub enum MemcardError {
    /// A record's code, or a candidate file, does not follow the expected
    /// naming convention.
    McdNameError,
    /// The reference dataset holds no record for a derived lookup key.
    UnresolvedRecord,
    /// The reference dataset could not be queried.
    DatasetError,
}

impl MemcardError {
    /// A short diagnostic text for the error.
    pub fn message(&self) -> (r: &'static str)
        ensures
            *self is McdNameError ==> r@ == "mcd file doesn't match expected naming convention"@,
            *self is UnresolvedRecord ==> r@ == "no dataset record for lookup key"@,
            *self is DatasetError ==> r@ == "the reference dataset could not be queried"@,
    {
        match self {
            MemcardError::McdNameError => "mcd file doesn't match expected naming convention",
            MemcardError::UnresolvedRecord => "no dataset record for lookup key",
            MemcardError::DatasetError => "the reference dataset could not be queried",
        }
    }
}

} // verus!
