//! Where the node table is kept between runs.

use std::path::PathBuf;
use vstd::prelude::*;

verus! {

/// `std::path::PathBuf`, a path of the file system, declared as an opaque
/// type: the engine carries it and never looks inside, and nothing is
/// claimed of it.
#[verifier::external_type_specification]
#[verifier::external_body]
pub struct ExPathBuf(PathBuf);

/// How a database persists.
#[derive(Debug)]
pub enum Storage {
    /// Not at all: the table lives in memory only.
    Memory,
    /// As a snapshot of the whole table in the file at this path.
    File(PathBuf),
}

impl Storage {
    /// Where a save has to write the table: the path of the snapshot file,
    /// or nowhere for a table that lives in memory only.
    pub fn save(&self) -> (res: Option<&PathBuf>)
        ensures
            match *self {
                Storage::Memory => res is None,
                Storage::File(path) => res == Some(&path),
            },
    {
        match self {
            Storage::Memory => None,
            Storage::File(path) => Some(path),
        }
    }
}

} // verus!
