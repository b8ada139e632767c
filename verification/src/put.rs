//! Moving files to the trash: which paths, and the names they get there.
use vstd::prelude::*;
use crate::error::{Error, ErrorView};
use crate::path::{resolve, spec_normalize, spec_push};
use crate::text::{append_chars, chars_of, dec, dec_u64, lemma_dec_injective, lemma_dec_len, string_of, string_views};

verus! {

/// The absolute, normalised paths to trash, from the paths given and the
/// current folder; at least one path is needed.
pub fn put_targets(cwd: &str, paths: &[String]) -> (r: Result<Vec<String>, Error>)
    ensures
        paths@.len() == 0 ==> r is Err && r->Err_0@ == ErrorView::Message("put requires at least one path"@),
        paths@.len() > 0 ==> r is Ok && string_views(r->Ok_0@) == Seq::new(
            paths@.len(),
            |i: int| spec_normalize(spec_push(cwd@, paths@[i]@)),
        ),
{
    if paths.len() == 0 {
        return Err(Error::message("put requires at least one path"));
    }
    let mut out: Vec<String> = Vec::new();
    let mut i: usize = 0;
    while i < paths.len()
        invariant
            i <= paths@.len(),
            string_views(out@) == Seq::new(i as nat, |j: int| spec_normalize(spec_push(cwd@, paths@[j]@))),
        decreases paths@.len() - i,
    {
        let ghost before = string_views(out@);
        let r = resolve(cwd, paths[i].as_str());
        out.push(r);
        assert(string_views(out@) =~= before.push(r@));
        assert(string_views(out@) =~= Seq::new((i + 1) as nat, |j: int| spec_normalize(spec_push(cwd@, paths@[j]@))));
        i = i + 1;
    }
    Ok(out)
}

/// The error for a path that does not exist.
pub fn missing_path(path: &str) -> (e: Error)
    ensures
        e@ == ErrorView::Message("path does not exist: "@ + path@),
{
    let mut v = chars_of("path does not exist: ");
    append_chars(&mut v, &chars_of(path));
    Error::Message(string_of(v.as_slice()))
}

/// The `index`-th name tried for a file in the trash: its own name first,
/// then the name followed by `_1`, `_2`, and so on.
pub open spec fn spec_candidate_name(basename: Seq<char>, index: nat) -> Seq<char> {
    if index == 0 {
        basename
    } else {
        basename + seq!['_'] + dec(index)
    }
}

/// The `index`-th name tried for a file named `basename` in the trash.
pub fn candidate_name(basename: &str, index: usize) -> (out: String)
    ensures
        out@ == spec_candidate_name(basename@, index as nat),
{
    let mut v = chars_of(basename);
    if index > 0 {
        v.push('_');
        append_chars(&mut v, &dec_u64(index as u64));
    }
    string_of(v.as_slice())
}

/// Every name tried for a file differs from the others, so each look for a
/// free name in the trash tries a new one.
pub proof fn lemma_candidate_names_differ(basename: Seq<char>, i: nat, j: nat)
    requires
        i != j,
    ensures
        spec_candidate_name(basename, i) != spec_candidate_name(basename, j),
{
    if i > 0 && j > 0 {
        let pre = basename + seq!['_'];
        if spec_candidate_name(basename, i) == spec_candidate_name(basename, j) {
            assert((pre + dec(i)).skip(pre.len() as int) =~= dec(i));
            assert((pre + dec(j)).skip(pre.len() as int) =~= dec(j));
            lemma_dec_injective(i, j);
        }
    } else {
        lemma_dec_len(i);
        lemma_dec_len(j);
        if i == 0 {
            assert(spec_candidate_name(basename, j).len() > basename.len());
        } else {
            assert(spec_candidate_name(basename, i).len() > basename.len());
        }
    }
}

} // verus!
