//! Trash roots and the trashed files found in them.
use vstd::prelude::*;
use crate::path::{relative_to, spec_relative_to};

verus! {

/// A trash folder and the metadata file that describes its contents.
#[derive(Debug, Clone)]
pub struct TrashRoot {
    pub trash_dir: String,
    pub native_metadata_path: String,
}

/// A file in a trash folder, with where it came from.
#[derive(Debug, Clone)]
pub struct TrashedFile {
    pub original_location: String,
    /// The modification time of the trashed file, as shown to the user.
    pub modified_date: Option<String>,
    /// The modification time of the trashed file, in nanoseconds since the
    /// Unix epoch.
    pub trashed_at: Option<i128>,
    pub trash_path: String,
    pub trash_root: TrashRoot,
}

/// The content of a [`TrashRoot`].
pub struct TrashRootView {
    pub trash_dir: Seq<char>,
    pub native_metadata_path: Seq<char>,
}

/// The content of a [`TrashedFile`].
pub struct TrashedFileView {
    pub original_location: Seq<char>,
    pub modified_date: Option<Seq<char>>,
    pub trashed_at: Option<i128>,
    pub trash_path: Seq<char>,
    pub trash_root: TrashRootView,
}

impl View for TrashRoot {
    type V = TrashRootView;

    open spec fn view(&self) -> TrashRootView {
        TrashRootView { trash_dir: self.trash_dir@, native_metadata_path: self.native_metadata_path@ }
    }
}

impl View for TrashedFile {
    type V = TrashedFileView;

    open spec fn view(&self) -> TrashedFileView {
        TrashedFileView {
            original_location: self.original_location@,
            modified_date: match self.modified_date {
                Some(d) => Some(d@),
                None => None,
            },
            trashed_at: self.trashed_at,
            trash_path: self.trash_path@,
            trash_root: self.trash_root@,
        }
    }
}

/// The views of a sequence of trashed files.
pub open spec fn file_views(v: Seq<TrashedFile>) -> Seq<TrashedFileView> {
    Seq::new(v.len(), |i: int| v[i]@)
}

impl TrashRoot {
    /// A copy of this root.
    pub fn copy(&self) -> (out: TrashRoot)
        ensures
            out@ == self@,
    {
        TrashRoot { trash_dir: self.trash_dir.clone(), native_metadata_path: self.native_metadata_path.clone() }
    }
}

impl TrashedFile {
    /// Whether the file came from `target` or from inside it.
    pub fn matches_target(&self, target: &str) -> (r: bool)
        ensures
            r == spec_relative_to(self@.original_location, target@) is Some,
    {
        relative_to(self.original_location.as_str(), target).is_some()
    }
}

} // verus!
