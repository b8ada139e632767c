//! Removing a trashed file for good.
use vstd::prelude::*;
use crate::path::{file_name, spec_file_name};
use super::model::TrashedFile;

verus! {

/// The name of the metadata records to drop when `file` is removed for
/// good: the name of its file in the trash, when it has one.
pub fn purge_trashed_file(file: &TrashedFile) -> (out: Option<String>)
    ensures
        match spec_file_name(file@.trash_path) {
            Some(n) => out is Some && out->0@ == n,
            None => out is None,
        },
{
    file_name(file.trash_path.as_str())
}

} // verus!
