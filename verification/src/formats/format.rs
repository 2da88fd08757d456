use vstd::prelude::*;
use crate::fs_utils::FileType;
use crate::formats::v1::integrity_checker_errors::{V1IntegrityError, recoverable};

verus! {

/// One entry of a directory listing.
pub struct DirectoryContentEntry {
    pub filename: String,
    pub file_type: FileType,
}

/// The listing of a directory.
pub struct DirectoryContentResult {
    pub entries: Vec<DirectoryContentEntry>,
}

/// The errors found by an integrity check.
pub struct IntegrityResult {
    pub errors: Vec<V1IntegrityError>,
}

impl IntegrityResult {
    /// No error was found.
    pub fn is_ok(&self) -> (r: bool)
        ensures
            r == (self.errors@.len() == 0),
    {
        self.errors.len() == 0
    }

    /// Every error found can be repaired.
    pub fn is_recoverable(&self) -> (r: bool)
        ensures
            r == (forall|i: int| 0 <= i < self.errors@.len() ==> recoverable(#[trigger] self.errors@[i])),
    {
        let mut i: usize = 0;
        while i < self.errors.len()
            invariant
                0 <= i <= self.errors@.len(),
                forall|k: int| 0 <= k < i ==> recoverable(#[trigger] self.errors@[k]),
            decreases self.errors@.len() - i,
        {
            if !self.errors[i].is_recoverable() {
                return false;
            }
            i = i + 1;
        }
        true
    }
}

} // verus!
