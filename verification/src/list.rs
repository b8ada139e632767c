//! Listing trashed files: which ones, in what order, and how each is shown.
use vstd::prelude::*;
use vstd::utf8::encode_utf8;
use crate::args::SortMode;
use crate::order::{
    bytes_eq, bytes_less, bytes_lt, lemma_bytes_lt_irreflexive, lemma_bytes_lt_transitive, lemma_insert_pos_at,
    lemma_sort_by_contains, lemma_sort_by_ordered, ordered_by, sort_by, strict_order,
};
use crate::path::{
    is_abs, lemma_path_lt_irreflexive, lemma_path_lt_transitive, norm_segs, path_less, path_lt, spec_relative_to,
};
use crate::text::{append_chars, chars_of, dec, dec_u64, string_of};
use crate::trash::model::{TrashedFile, TrashedFileView, file_views};

verus! {

// ---------------------------------------------------------------------------
// Order
// ---------------------------------------------------------------------------

/// The date a file is sorted by: its shown date, or nothing.
pub open spec fn date_key(f: TrashedFileView) -> Seq<u8> {
    encode_utf8(
        match f.modified_date {
            Some(d) => d,
            None => Seq::<char>::empty(),
        },
    )
}

/// Date order: by shown date, then by original location, component by component.
pub open spec fn date_lt(a: TrashedFileView, b: TrashedFileView) -> bool {
    bytes_lt(date_key(a), date_key(b)) || (date_key(a) == date_key(b) && path_lt(
        a.original_location,
        b.original_location,
    ))
}

/// Path order: by original location as text, then by shown date.
pub open spec fn path_order_lt(a: TrashedFileView, b: TrashedFileView) -> bool {
    let pa = encode_utf8(a.original_location);
    let pb = encode_utf8(b.original_location);
    bytes_lt(pa, pb) || (pa == pb && bytes_lt(date_key(a), date_key(b)))
}

/// The order of a sort mode, as a value.
pub open spec fn order_of(sort: SortMode) -> spec_fn(TrashedFileView, TrashedFileView) -> bool {
    if sort == SortMode::Date {
        |a: TrashedFileView, b: TrashedFileView| date_lt(a, b)
    } else {
        |a: TrashedFileView, b: TrashedFileView| path_order_lt(a, b)
    }
}

/// The files in the order of a sort mode; as they are when unsorted. Files
/// that compare equal keep their order.
pub open spec fn sorted_files(fs: Seq<TrashedFileView>, sort: SortMode) -> Seq<TrashedFileView> {
    if sort == SortMode::Unsorted {
        fs
    } else {
        sort_by(fs, order_of(sort))
    }
}

fn date_bytes(f: &TrashedFile) -> (out: &[u8])
    ensures
        out@ == date_key(f@),
{
    match &f.modified_date {
        Some(d) => d.as_str().as_bytes(),
        None => {
            proof {
                reveal_strlit("");
                assert(""@ =~= Seq::<char>::empty());
            }
            "".as_bytes()
        },
    }
}

fn item_less(a: &TrashedFile, b: &TrashedFile, sort: SortMode) -> (r: bool)
    requires
        sort != SortMode::Unsorted,
    ensures
        r == (order_of(sort))(a@, b@),
{
    proof {
        reveal_strlit("");
    }
    if sort == SortMode::Date {
        let da = date_bytes(a);
        let db = date_bytes(b);
        bytes_less(da, db) || (bytes_eq(da, db) && path_less(a.original_location.as_str(), b.original_location.as_str()))
    } else {
        let pa = a.original_location.as_str().as_bytes();
        let pb = b.original_location.as_str().as_bytes();
        bytes_less(pa, pb) || (bytes_eq(pa, pb) && bytes_less(date_bytes(a), date_bytes(b)))
    }
}

fn sort_vec(items: Vec<TrashedFile>, sort: SortMode) -> (out: Vec<TrashedFile>)
    requires
        sort != SortMode::Unsorted,
    ensures
        file_views(out@) == sort_by(file_views(items@), order_of(sort)),
{
    let ghost all = file_views(items@);
    let ghost lt = order_of(sort);
    let mut rest = items;
    let mut out: Vec<TrashedFile> = Vec::new();
    let ghost mut done: int = 0;
    assert(all.take(0) =~= Seq::<TrashedFileView>::empty());
    assert(file_views(rest@) =~= all.skip(0));
    while rest.len() > 0
        invariant
            0 <= done <= all.len(),
            sort != SortMode::Unsorted,
            lt == order_of(sort),
            file_views(rest@) == all.skip(done),
            file_views(out@) == sort_by(all.take(done), lt),
        decreases rest@.len(),
    {
        let ghost before_rest = file_views(rest@);
        let ghost old_rest = rest@;
        let x = rest.remove(0);
        assert(file_views(rest@) =~= before_rest.drop_first());
        assert(before_rest[0] == old_rest[0]@);
        assert(x@ == all[done]);
        let ghost sorted = file_views(out@);
        let mut k: usize = 0;
        while k < out.len() && !item_less(&x, &out[k], sort)
            invariant
                k <= out@.len(),
                sort != SortMode::Unsorted,
                lt == order_of(sort),
                sorted == file_views(out@),
                forall|j: int| 0 <= j < k ==> !lt(x@, #[trigger] sorted[j]),
            decreases out@.len() - k,
        {
            k = k + 1;
        }
        proof {
            lemma_insert_pos_at(sorted, x@, lt, k as int);
        }
        out.insert(k, x);
        proof {
            let t = all.take(done + 1);
            assert(t.drop_last() =~= all.take(done));
            assert(t.last() == x@);
            assert(file_views(out@) =~= sorted.take(k as int) + seq![x@] + sorted.skip(k as int));
            done = done + 1;
            assert(all.skip(done) =~= all.skip(done - 1).drop_first());
        }
    }
    assert(all.take(done) =~= all);
    out
}

/// Puts the files in the order of `sort`.
pub fn sort_items(items: &mut Vec<TrashedFile>, sort: SortMode)
    ensures
        file_views(final(items)@) == sorted_files(file_views(old(items)@), sort),
{
    if sort == SortMode::Unsorted {
        return;
    }
    let mut taken: Vec<TrashedFile> = Vec::new();
    std::mem::swap(items, &mut taken);
    *items = sort_vec(taken, sort);
}

// ---------------------------------------------------------------------------
// Choosing
// ---------------------------------------------------------------------------

/// Whether a file is listed for an optional target path.
pub open spec fn listed_for(f: TrashedFileView, target: Option<Seq<char>>) -> bool {
    match target {
        Some(t) => spec_relative_to(f.original_location, t) is Some,
        None => true,
    }
}

/// The text of an optional `&str`.
pub open spec fn opt_str(o: Option<&str>) -> Option<Seq<char>> {
    match o {
        Some(s) => Some(s@),
        None => None,
    }
}

/// The files that came from the target path (all of them without one), in
/// the order of `sort`.
pub fn candidates(files: Vec<TrashedFile>, target_path: Option<&str>, sort: SortMode) -> (out: Vec<TrashedFile>)
    ensures
        file_views(out@) == sorted_files(
            file_views(files@).filter(|f: TrashedFileView| listed_for(f, opt_str(target_path))),
            sort,
        ),
{
    let ghost all = file_views(files@);
    let ghost pred = |f: TrashedFileView| listed_for(f, opt_str(target_path));
    let mut rest = files;
    let mut items: Vec<TrashedFile> = Vec::new();
    let ghost mut done: int = 0;
    assert(all.take(0) =~= Seq::<TrashedFileView>::empty());
    assert(file_views(rest@) =~= all.skip(0));
    while rest.len() > 0
        invariant
            0 <= done <= all.len(),
            pred == (|f: TrashedFileView| listed_for(f, opt_str(target_path))),
            file_views(rest@) == all.skip(done),
            file_views(items@) == all.take(done).filter(pred),
        decreases rest@.len(),
    {
        let ghost before_rest = file_views(rest@);
        let ghost old_rest = rest@;
        let f = rest.remove(0);
        assert(file_views(rest@) =~= before_rest.drop_first());
        assert(before_rest[0] == old_rest[0]@);
        assert(f@ == all[done]);
        let keep = match target_path {
            Some(t) => f.matches_target(t),
            None => true,
        };
        assert(keep == pred(f@));
        let ghost before = file_views(items@);
        proof {
            reveal(Seq::filter);
            assert(all.take(done + 1).drop_last() =~= all.take(done));
            assert(all.take(done + 1).last() == f@);
        }
        if keep {
            items.push(f);
            assert(file_views(items@) =~= before.push(f@));
        }
        proof {
            done = done + 1;
            assert(all.skip(done) =~= all.skip(done - 1).drop_first());
        }
    }
    assert(all.take(done) =~= all);
    sort_items(&mut items, sort);
    items
}

// ---------------------------------------------------------------------------
// Showing
// ---------------------------------------------------------------------------

/// The date shown for a file: its modification time, or `-`.
pub open spec fn shown_date(f: TrashedFileView) -> Seq<char> {
    match f.modified_date {
        Some(d) => d,
        None => seq!['-'],
    }
}

/// `s` right-aligned in a field of `width` characters.
pub open spec fn pad_left(s: Seq<char>, width: nat) -> Seq<char> {
    if s.len() < width {
        Seq::new((width - s.len()) as nat, |i: int| ' ') + s
    } else {
        s
    }
}

fn shown_date_chars(file: &TrashedFile) -> (out: Vec<char>)
    ensures
        out@ == shown_date(file@),
{
    match &file.modified_date {
        Some(d) => chars_of(d.as_str()),
        None => {
            let mut v: Vec<char> = Vec::new();
            v.push('-');
            assert(v@ =~= seq!['-']);
            v
        },
    }
}

/// A file as listed: `date path`.
pub fn format_item(file: &TrashedFile) -> (out: String)
    ensures
        out@ == shown_date(file@) + seq![' '] + file@.original_location,
{
    let mut v = shown_date_chars(file);
    v.push(' ');
    append_chars(&mut v, &chars_of(file.original_location.as_str()));
    string_of(v.as_slice())
}

/// A file as listed for choosing: its index right-aligned in four
/// columns, then `date path`.
pub fn format_indexed_item(index: usize, file: &TrashedFile) -> (out: String)
    ensures
        out@ == pad_left(dec(index as nat), 4) + seq![' '] + shown_date(file@) + seq![' ']
            + file@.original_location,
{
    let digits = dec_u64(index as u64);
    let mut v: Vec<char> = Vec::new();
    let mut k: usize = digits.len();
    while k < 4
        invariant
            digits.len() <= k <= 4 || (digits.len() > 4 && k == digits.len()),
            v@ == Seq::new((k - digits.len()) as nat, |i: int| ' '),
        decreases 4 - k,
    {
        v.push(' ');
        k = k + 1;
        assert(v@ =~= Seq::new((k - digits.len()) as nat, |i: int| ' '));
    }
    append_chars(&mut v, &digits);
    assert(v@ =~= pad_left(dec(index as nat), 4));
    v.push(' ');
    append_chars(&mut v, &shown_date_chars(file));
    v.push(' ');
    append_chars(&mut v, &chars_of(file.original_location.as_str()));
    string_of(v.as_slice())
}

// ---------------------------------------------------------------------------
// Listing order
// ---------------------------------------------------------------------------

proof fn lemma_orders_strict(sort: SortMode)
    requires
        sort != SortMode::Unsorted,
    ensures
        strict_order(order_of(sort)),
{
    let lt = order_of(sort);
    assert forall|a: TrashedFileView| !(#[trigger] lt(a, a)) by {
        lemma_bytes_lt_irreflexive(date_key(a));
        lemma_bytes_lt_irreflexive(encode_utf8(a.original_location));
        lemma_path_lt_irreflexive(a.original_location);
    }
    assert forall|a: TrashedFileView, b: TrashedFileView, c: TrashedFileView|
        #[trigger] lt(a, b) && #[trigger] lt(b, c) implies lt(a, c) by {
        if sort == SortMode::Date {
            if bytes_lt(date_key(a), date_key(b)) && bytes_lt(date_key(b), date_key(c)) {
                lemma_bytes_lt_transitive(date_key(a), date_key(b), date_key(c));
            }
            if date_key(a) == date_key(b) && date_key(b) == date_key(c) {
                lemma_bytes_lt_irreflexive(date_key(a));
                lemma_path_lt_transitive(a.original_location, b.original_location, c.original_location);
            }
        } else {
            let pa = encode_utf8(a.original_location);
            let pb = encode_utf8(b.original_location);
            let pc = encode_utf8(c.original_location);
            if bytes_lt(pa, pb) && bytes_lt(pb, pc) {
                lemma_bytes_lt_transitive(pa, pb, pc);
            }
            if pa == pb && pb == pc {
                lemma_bytes_lt_irreflexive(pa);
                lemma_bytes_lt_transitive(date_key(a), date_key(b), date_key(c));
            }
        }
    }
}

/// Listing sorted by date or by path puts the files in that order (no file
/// comes after one it sorts before) and keeps every file: the same number
/// of files, and the same files.
pub proof fn lemma_sorted_files(fs: Seq<TrashedFileView>, sort: SortMode)
    ensures
        sorted_files(fs, sort).len() == fs.len(),
        forall|f: TrashedFileView| #[trigger] sorted_files(fs, sort).contains(f) <==> fs.contains(f),
        sort != SortMode::Unsorted ==> ordered_by(sorted_files(fs, sort), order_of(sort)),
{
    if sort != SortMode::Unsorted {
        lemma_orders_strict(sort);
        lemma_sort_by_ordered(fs, order_of(sort));
        lemma_sort_by_contains(fs, order_of(sort));
    }
}


/// Sorted by path, a file whose location is the smaller text (byte by byte,
/// not shorter first) comes first, and files from the same location come by
/// date; sorted by date, an earlier date comes first, and files of the same
/// date come by location, component by component.
pub proof fn lemma_listing_order(fs: Seq<TrashedFileView>)
    ensures
        ({
            let by_path = sorted_files(fs, SortMode::Path);
            forall|i: int, j: int|
                0 <= i < j < by_path.len() ==> {
                    let a = #[trigger] by_path[i];
                    let b = #[trigger] by_path[j];
                    &&& !bytes_lt(encode_utf8(b.original_location), encode_utf8(a.original_location))
                    &&& encode_utf8(b.original_location) == encode_utf8(a.original_location) ==> !bytes_lt(
                        date_key(b),
                        date_key(a),
                    )
                }
        }),
        ({
            let by_date = sorted_files(fs, SortMode::Date);
            forall|i: int, j: int|
                0 <= i < j < by_date.len() ==> {
                    let a = #[trigger] by_date[i];
                    let b = #[trigger] by_date[j];
                    &&& !bytes_lt(date_key(b), date_key(a))
                    &&& date_key(b) == date_key(a) ==> !path_lt(b.original_location, a.original_location)
                }
        }),
{
    lemma_sorted_files(fs, SortMode::Path);
    lemma_sorted_files(fs, SortMode::Date);
    let by_path = sorted_files(fs, SortMode::Path);
    let by_date = sorted_files(fs, SortMode::Date);
    assert forall|i: int, j: int| 0 <= i < j < by_path.len() implies {
        let a = #[trigger] by_path[i];
        let b = #[trigger] by_path[j];
        &&& !bytes_lt(encode_utf8(b.original_location), encode_utf8(a.original_location))
        &&& encode_utf8(b.original_location) == encode_utf8(a.original_location) ==> !bytes_lt(date_key(b), date_key(a))
    } by {
        assert(!(order_of(SortMode::Path))(by_path[j], by_path[i]));
    }
    assert forall|i: int, j: int| 0 <= i < j < by_date.len() implies {
        let a = #[trigger] by_date[i];
        let b = #[trigger] by_date[j];
        &&& !bytes_lt(date_key(b), date_key(a))
        &&& date_key(b) == date_key(a) ==> !path_lt(b.original_location, a.original_location)
    } by {
        assert(!(order_of(SortMode::Date))(by_date[j], by_date[i]));
    }
}

/// A target path chooses a file exactly when, both normalised, the target
/// is the file's location or one of its folders: its components are the
/// first components of the location's, and both are absolute or both
/// relative (so `/work` chooses `/work/a.txt` but not `/workshop/b.txt`). A
/// relative target with no component at all, such as `.`, chooses every
/// file. The chosen files are exactly the files of the list that pass this
/// test.
pub proof fn lemma_target_chooses(fs: Seq<TrashedFileView>, t: Seq<char>, sort: SortMode)
    ensures
        ({
            let chosen = sorted_files(fs.filter(|f: TrashedFileView| listed_for(f, Some(t))), sort);
            forall|f: TrashedFileView| #[trigger] chosen.contains(f) <==> {
                &&& fs.contains(f)
                &&& {
                    let segs = norm_segs(f.original_location);
                    ||| !is_abs(t) && norm_segs(t).len() == 0
                    ||| is_abs(t) == is_abs(f.original_location) && norm_segs(t).len() <= segs.len() && segs.take(
                        norm_segs(t).len() as int,
                    ) == norm_segs(t)
                }
            }
        }),
{
    let pred = |f: TrashedFileView| listed_for(f, Some(t));
    let kept = fs.filter(pred);
    lemma_sorted_files(kept, sort);
    assert forall|f: TrashedFileView| kept.contains(f) <==> (fs.contains(f) && pred(f)) by {
        if kept.contains(f) {
            fs.lemma_filter_contains_rev(pred, f);
            let k = choose|k: int| 0 <= k < kept.len() && kept[k] == f;
            fs.lemma_filter_pred(pred, k);
        }
        if fs.contains(f) && pred(f) {
            let k = choose|k: int| 0 <= k < fs.len() && fs[k] == f;
            fs.lemma_filter_contains(pred, k);
        }
    }
}

} // verus!
