//! The catalog store's paths. The store writes atomically: the new content
//! goes to the temp path and is renamed over the primary, after the previous
//! good file was copied to the backup path; callers perform the file I/O
//! with the paths given here and the catalog text from the codec.
use vstd::prelude::*;

use vstd::string::StringExecFns;

verus! {

/// Where the catalog lives on disk: the primary file and its backup sibling.
#[derive(Debug)]
pub struct ServiceStore {
    pub path: String,
    pub backup_path: String,
}

impl ServiceStore {
    /// A store at `path`, backed up at the `.bak` sibling.
    pub fn new(path: String) -> (r: Self)
        ensures
            r.path@ == path@,
            r.backup_path@ == path@ + ".bak"@,
    {
        let backup_path = path.clone().concat(".bak");
        ServiceStore { path, backup_path }
    }

    /// The sibling that atomic writes stage their content in.
    pub fn temp_path(&self) -> (r: String)
        ensures
            r@ == self.path@ + ".tmp"@,
    {
        self.path.clone().concat(".tmp")
    }
}

} // verus!
