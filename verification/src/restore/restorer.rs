//! Restoring one file: whether it may go back, and what is reported.
use vstd::prelude::*;
use crate::error::{Error, ErrorView};
use crate::path::{basename, spec_file_name};
use crate::text::{append_chars, chars_of, string_of};
use crate::trash::model::{TrashedFile, TrashedFileView};

verus! {

/// The result of restoring one file: a warning when the file was moved back
/// but its trash metadata could not be updated.
#[derive(Debug, Default)]
pub struct RestoreOutcome {
    pub metadata_warning: Option<String>,
}

/// What restoring a file does: whether the file now at its original
/// location is removed first, and the name of its metadata records.
#[derive(Debug)]
pub struct RestorePlan {
    pub remove_existing: bool,
    pub entry_name: String,
}

/// A name, or nothing.
pub open spec fn name_or_empty(n: Option<Seq<char>>) -> Seq<char> {
    match n {
        Some(s) => s,
        None => Seq::<char>::empty(),
    }
}

/// The refusal to overwrite an existing file.
pub open spec fn refusal(f: TrashedFileView) -> ErrorView {
    ErrorView::Message(
        "refusing to overwrite existing file \""@ + name_or_empty(spec_file_name(f.original_location)) + "\""@,
    )
}

/// How to restore `file` when something `exists` at its original location:
/// refused unless `overwrite`, in which case the existing file goes first.
pub fn restore_file(file: &TrashedFile, overwrite: bool, exists: bool) -> (r: Result<RestorePlan, Error>)
    ensures
        exists && !overwrite ==> r is Err && r->Err_0@ == refusal(file@),
        !(exists && !overwrite) ==> r is Ok && r->Ok_0.remove_existing == (overwrite && exists)
            && r->Ok_0.entry_name@ == name_or_empty(spec_file_name(file@.trash_path)),
{
    if exists && !overwrite {
        let mut v = chars_of("refusing to overwrite existing file \"");
        append_chars(&mut v, &chars_of(basename(file.original_location.as_str()).as_str()));
        append_chars(&mut v, &chars_of("\""));
        return Err(Error::Message(string_of(v.as_slice())));
    }
    Ok(RestorePlan { remove_existing: overwrite && exists, entry_name: basename(file.trash_path.as_str()) })
}

/// The warning for a file restored without its metadata being updated.
pub open spec fn metadata_warning_text(f: TrashedFileView, why: Seq<char>) -> Seq<char> {
    "restored "@ + f.original_location + ", but failed to update metadata "@ + f.trash_root.native_metadata_path
        + ": "@ + why
}

/// What restoring `file` reports, given why its metadata could not be
/// updated, if it could not.
pub fn restore_outcome(file: &TrashedFile, metadata_error: Option<&str>) -> (r: RestoreOutcome)
    ensures
        match metadata_error {
            Some(why) => r.metadata_warning is Some && r.metadata_warning->0@ == metadata_warning_text(file@, why@),
            None => r.metadata_warning is None,
        },
{
    match metadata_error {
        None => RestoreOutcome { metadata_warning: None },
        Some(why) => {
            let mut v = chars_of("restored ");
            append_chars(&mut v, &chars_of(file.original_location.as_str()));
            append_chars(&mut v, &chars_of(", but failed to update metadata "));
            append_chars(&mut v, &chars_of(file.trash_root.native_metadata_path.as_str()));
            append_chars(&mut v, &chars_of(": "));
            append_chars(&mut v, &chars_of(why));
            RestoreOutcome { metadata_warning: Some(string_of(v.as_slice())) }
        },
    }
}

} // verus!
