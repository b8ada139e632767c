//! Choosing and restoring trashed files.
use vstd::prelude::*;
use crate::text::{append_chars, chars_of, dec, dec_u64, string_of};

pub mod index;
pub mod restorer;

pub use index::parse_indexes;

verus! {

/// The question asked before restoring, for `count` listed files.
pub fn prompt_text(count: usize) -> (out: String)
    requires
        count >= 1,
    ensures
        out@ == "What file to restore [0.."@ + dec((count - 1) as nat) + "]: "@,
{
    let mut v = chars_of("What file to restore [0..");
    append_chars(&mut v, &dec_u64((count - 1) as u64));
    append_chars(&mut v, &chars_of("]: "));
    string_of(v.as_slice())
}

/// What is said when no trashed file matches.
pub fn nothing_found(target_path: Option<&str>) -> (out: String)
    ensures
        out@ == match target_path {
            Some(t) => "No matching trashed files found for '"@ + t@ + "'"@,
            None => "No matching trashed files found"@,
        },
{
    match target_path {
        Some(t) => {
            let mut v = chars_of("No matching trashed files found for '");
            append_chars(&mut v, &chars_of(t));
            append_chars(&mut v, &chars_of("'"));
            string_of(v.as_slice())
        },
        None => string_of(chars_of("No matching trashed files found").as_slice()),
    }
}

} // verus!
