//! Scanning trash roots: the files in each trash folder, matched with the
//! `.DS_Store` records that say where they came from.
use vstd::prelude::*;
use crate::error::error_text;
use crate::path::{file_name, normalize, push_path, spec_file_name, spec_normalize, spec_push};
use crate::text::{chars_of, concat, string_of};
use super::date::{clock_time, display_time, format_for_display};
use super::ds_store::{
    DsStoreEntry, EntryView, ValueView, entry_views, is_location_of, location_entry, ptbl, ptbn, recorded_parent,
    spec_upsert_file, value_text,
};
use super::ds_store::roundtrip::lemma_upsert_then_read;
use super::ds_store::read::{parse_entries, spec_parse_entries};
use super::model::{TrashRoot, TrashRootView, TrashedFile, TrashedFileView, file_views};

verus! {

// ---------------------------------------------------------------------------
// Inputs and results
// ---------------------------------------------------------------------------

/// A file found in a trash folder: its name, its path, and its modification
/// time (nanoseconds since the Unix epoch) when it could be read.
#[derive(Debug)]
pub struct ListedFile {
    pub file_name: String,
    pub path: String,
    pub modified: Option<i128>,
}

/// What was read of one trash root: the bytes of its metadata file (`None`
/// when there is none) or why they could not be read, and the files of its
/// trash folder (`None` when there is no folder), each or the whole folder
/// with the reason it could not be read.
#[derive(Debug)]
pub struct RootListing {
    pub root: TrashRoot,
    pub metadata: Result<Option<Vec<u8>>, String>,
    pub entries: Result<Option<Vec<Result<ListedFile, String>>>, String>,
}

/// The trashed files found, and what could not be read.
#[derive(Debug)]
pub struct ScanReport {
    pub files: Vec<TrashedFile>,
    pub warnings: Vec<String>,
}

/// The content of a [`ListedFile`].
pub struct ListedFileView {
    pub file_name: Seq<char>,
    pub path: Seq<char>,
    pub modified: Option<i128>,
}

impl View for ListedFile {
    type V = ListedFileView;

    open spec fn view(&self) -> ListedFileView {
        ListedFileView { file_name: self.file_name@, path: self.path@, modified: self.modified }
    }
}

/// The content of one read folder entry.
pub open spec fn item_view(r: Result<ListedFile, String>) -> Result<ListedFileView, Seq<char>> {
    match r {
        Ok(f) => Ok(f@),
        Err(e) => Err(e@),
    }
}

/// The contents of read folder entries.
pub open spec fn item_views(v: Seq<Result<ListedFile, String>>) -> Seq<Result<ListedFileView, Seq<char>>> {
    Seq::new(v.len(), |i: int| item_view(v[i]))
}

/// The views of a sequence of strings.
pub open spec fn texts(v: Seq<String>) -> Seq<Seq<char>> {
    Seq::new(v.len(), |i: int| v[i]@)
}

/// Every listed modification time is one a system clock holds.
pub open spec fn clock_times(items: Seq<Result<ListedFileView, Seq<char>>>) -> bool {
    forall|i: int| 0 <= i < items.len() ==> (#[trigger] items[i] matches Ok(f) ==> (f.modified matches Some(t) ==> clock_time(t)))
}

// ---------------------------------------------------------------------------
// Where a trashed file came from
// ---------------------------------------------------------------------------

/// The location a trashed file came from, from its recorded folder (made
/// absolute) and name: the name is added unless the folder already ends
/// with it, and the result is normalised.
pub open spec fn spec_original_location(parent: Option<Seq<char>>, name: Option<Seq<char>>) -> Seq<char> {
    let base = match parent {
        Some(p) => if p.len() > 0 && p[0] == '/' {
            p
        } else {
            spec_push(seq!['/'], p)
        },
        None => seq!['/'],
    };
    let full = match name {
        Some(n) => if spec_file_name(base) != Some(n) || base == seq!['/'] {
            spec_push(base, n)
        } else {
            base
        },
        None => base,
    };
    spec_normalize(full)
}

fn root_path() -> (out: String)
    ensures
        out@ == seq!['/'],
{
    let mut v: Vec<char> = Vec::new();
    v.push('/');
    assert(v@ =~= seq!['/']);
    string_of(v.as_slice())
}

/// The location a trashed file came from, from its recorded folder and name.
pub fn build_macos_original_location(parent_path: Option<&str>, file_name_opt: Option<&str>) -> (out: String)
    ensures
        out@ == spec_original_location(
            match parent_path {
                Some(p) => Some(p@),
                None => None,
            },
            match file_name_opt {
                Some(n) => Some(n@),
                None => None,
            },
        ),
{
    let base = match parent_path {
        Some(value) => {
            let cs = chars_of(value);
            if cs.len() > 0 && cs[0] == '/' {
                string_of(cs.as_slice())
            } else {
                let root = root_path();
                push_path(root.as_str(), value)
            }
        },
        None => root_path(),
    };
    let full = match file_name_opt {
        Some(name) => {
            let current = file_name(base.as_str());
            let same = match &current {
                Some(c) => *c == name.to_owned(),
                None => false,
            };
            let bc = chars_of(base.as_str());
            let is_root = bc.len() == 1 && bc[0] == '/';
            proof {
                if base@ == seq!['/'] {
                    assert(bc@.len() == 1 && bc@[0] == '/');
                }
                if is_root {
                    assert(bc@ =~= seq!['/']);
                }
            }
            if !same || is_root {
                push_path(base.as_str(), name)
            } else {
                base
            }
        },
        None => base,
    };
    normalize(full.as_str())
}

// ---------------------------------------------------------------------------
// Metadata of a root
// ---------------------------------------------------------------------------

/// What the records about `name` say: `None` when there is no record about
/// it, else the last recorded folder and the last recorded name.
pub open spec fn meta_of(es: Seq<EntryView>, name: Seq<char>) -> Option<(Option<Seq<char>>, Option<Seq<char>>)>
    decreases es.len(),
{
    if es.len() == 0 {
        None
    } else {
        let m = meta_of(es.drop_last(), name);
        let e = es.last();
        if e.filename != name {
            m
        } else {
            let (p, f) = match m {
                Some(pf) => pf,
                None => (None, None),
            };
            if e.structure_type == ptbl() && value_text(e.value) is Some {
                Some((value_text(e.value), f))
            } else if e.structure_type == ptbn() && value_text(e.value) is Some {
                Some((p, value_text(e.value)))
            } else {
                Some((p, f))
            }
        }
    }
}

/// The entries of a root's metadata file and the warning when it could not
/// be read.
pub open spec fn root_entries(root: TrashRootView, metadata: Result<Option<Seq<u8>>, Seq<char>>) -> (Seq<EntryView>, Seq<Seq<char>>) {
    let fail = |why: Seq<char>| seq![
        "failed to read macOS trash metadata "@ + root.native_metadata_path + ": "@ + why,
    ];
    match metadata {
        Ok(None) => (seq![], seq![]),
        Ok(Some(b)) => match spec_parse_entries(b) {
            Ok(es) => (es, seq![]),
            Err(e) => (seq![], fail(error_text(e))),
        },
        Err(why) => (seq![], fail(why)),
    }
}

/// One record of metadata gathered by file name.
struct Meta {
    name: String,
    parent: Option<String>,
    file: Option<String>,
}

spec fn opt_view(o: Option<String>) -> Option<Seq<char>> {
    match o {
        Some(s) => Some(s@),
        None => None,
    }
}

/// The metadata gathered for `name`: the first record with that name.
spec fn find_meta(ms: Seq<Meta>, name: Seq<char>) -> Option<(Option<Seq<char>>, Option<Seq<char>>)>
    decreases ms.len(),
{
    if ms.len() == 0 {
        None
    } else if ms[0].name@ == name {
        Some((opt_view(ms[0].parent), opt_view(ms[0].file)))
    } else {
        find_meta(ms.drop_first(), name)
    }
}

fn copy_opt(o: &Option<String>) -> (out: Option<String>)
    ensures
        opt_view(out) == opt_view(*o),
{
    match o {
        Some(s) => Some(s.clone()),
        None => None,
    }
}

fn text_of(e: &DsStoreEntry) -> (out: Option<String>)
    ensures
        opt_view(out) == value_text(e@.value),
{
    match e.value.as_string() {
        Some(s) => Some(s.to_owned()),
        None => None,
    }
}

/// Index of the first record for `name`, if any.
fn meta_index(ms: &Vec<Meta>, name: &String) -> (r: Option<usize>)
    ensures
        match r {
            Some(k) => k < ms@.len() && ms@[k as int].name@ == name@ && find_meta(ms@, name@) == Some(
                (opt_view(ms@[k as int].parent), opt_view(ms@[k as int].file)),
            ) && forall|j: int| 0 <= j < k ==> ms@[j].name@ != name@,
            None => find_meta(ms@, name@) is None && forall|j: int| 0 <= j < ms@.len() ==> ms@[j].name@ != name@,
        },
{
    let mut k: usize = 0;
    assert(ms@.skip(0) =~= ms@);
    while k < ms.len()
        invariant
            k <= ms@.len(),
            forall|j: int| 0 <= j < k ==> ms@[j].name@ != name@,
            find_meta(ms@, name@) == find_meta(ms@.skip(k as int), name@),
        decreases ms@.len() - k,
    {
        assert(ms@.skip(k as int)[0] == ms@[k as int]);
        if ms[k].name == *name {
            return Some(k);
        }
        assert(ms@.skip(k as int).drop_first() =~= ms@.skip(k + 1));
        k = k + 1;
    }
    None
}

proof fn lemma_find_meta_update(ms: Seq<Meta>, k: int, m: Meta, name: Seq<char>)
    requires
        0 <= k < ms.len(),
        m.name@ == ms[k].name@,
        forall|j: int| 0 <= j < k ==> ms[j].name@ != ms[k].name@,
    ensures
        find_meta(ms.update(k, m), name) == if name == ms[k].name@ {
            Some((opt_view(m.parent), opt_view(m.file)))
        } else {
            find_meta(ms, name)
        },
    decreases ms.len(),
{
    if k > 0 {
        assert(ms.update(k, m).drop_first() =~= ms.drop_first().update(k - 1, m));
        assert(ms.update(k, m)[0] == ms[0]);
        lemma_find_meta_update(ms.drop_first(), k - 1, m, name);
    } else {
        assert(ms.update(0, m).drop_first() =~= ms.drop_first());
    }
}

proof fn lemma_find_meta_push(ms: Seq<Meta>, m: Meta, name: Seq<char>)
    requires
        forall|j: int| 0 <= j < ms.len() ==> ms[j].name@ != m.name@,
    ensures
        find_meta(ms.push(m), name) == if find_meta(ms, name) is Some {
            find_meta(ms, name)
        } else if name == m.name@ {
            Some((opt_view(m.parent), opt_view(m.file)))
        } else {
            None
        },
    decreases ms.len(),
{
    if ms.len() > 0 {
        assert(ms.push(m).drop_first() =~= ms.drop_first().push(m));
        assert(ms.push(m)[0] == ms[0]);
        lemma_find_meta_push(ms.drop_first(), m, name);
    } else {
        assert(ms.push(m).drop_first() =~= Seq::<Meta>::empty());
        assert(find_meta(Seq::<Meta>::empty(), name) is None);
        assert(ms.push(m)[0] == m);
    }
}

/// The records gathered by file name.
fn gather(entries: &Vec<DsStoreEntry>) -> (ms: Vec<Meta>)
    ensures
        forall|n: Seq<char>| #[trigger] find_meta(ms@, n) == meta_of(entry_views(entries@), n),
{
    let ghost es = entry_views(entries@);
    let mut ms: Vec<Meta> = Vec::new();
    let mut i: usize = 0;
    proof {
        assert(es.take(0) =~= Seq::<EntryView>::empty());
    }
    while i < entries.len()
        invariant
            i <= entries@.len(),
            es == entry_views(entries@),
            forall|n: Seq<char>| #[trigger] find_meta(ms@, n) == meta_of(es.take(i as int), n),
            forall|a: int, b: int| 0 <= a < b < ms@.len() ==> ms@[a].name@ != ms@[b].name@,
        decreases entries@.len() - i,
    {
        let e = &entries[i];
        assert(es[i as int] == e@);
        assert(es.take(i + 1).drop_last() =~= es.take(i as int));
        assert(es.take(i + 1).last() == e@);
        let ptbl_s = "ptbL".to_owned();
        let ptbn_s = "ptbN".to_owned();
        proof {
            reveal_strlit("ptbL");
            reveal_strlit("ptbN");
            assert(ptbl_s@ =~= ptbl());
            assert(ptbn_s@ =~= ptbn());
        }
        let is_l = e.structure_type == ptbl_s;
        let is_n = e.structure_type == ptbn_s;
        let text = text_of(e);
        let ghost old_ms = ms@;
        match meta_index(&ms, &e.filename) {
            Some(k) => {
                let parent = if is_l && text.is_some() { copy_opt(&text) } else { copy_opt(&ms[k].parent) };
                let file = if !is_l && is_n && text.is_some() { copy_opt(&text) } else { copy_opt(&ms[k].file) };
                let m = Meta { name: e.filename.clone(), parent, file };
                proof {
                    lemma_find_meta_update(old_ms, k as int, m, e@.filename);
                    assert forall|n: Seq<char>| #[trigger] find_meta(old_ms.update(k as int, m), n) == meta_of(es.take(i + 1), n) by {
                        lemma_find_meta_update(old_ms, k as int, m, n);
                    }
                }
                ms.set(k, m);
            },
            None => {
                let parent = if is_l && text.is_some() { copy_opt(&text) } else { None };
                let file = if !is_l && is_n && text.is_some() { copy_opt(&text) } else { None };
                let m = Meta { name: e.filename.clone(), parent, file };
                proof {
                    assert forall|n: Seq<char>| #[trigger] find_meta(old_ms.push(m), n) == meta_of(es.take(i + 1), n) by {
                        lemma_find_meta_push(old_ms, m, n);
                    }
                }
                ms.push(m);
            },
        }
        i = i + 1;
    }
    assert(es.take(i as int) =~= es);
    ms
}

fn read_metadata(root: &TrashRoot, metadata: &Result<Option<Vec<u8>>, String>, warnings: &mut Vec<String>) -> (es: Vec<DsStoreEntry>)
    ensures
        ({
            let r = root_entries(root@, match metadata {
                Ok(Some(b)) => Ok(Some(b@)),
                Ok(None) => Ok(None),
                Err(w) => Err(w@),
            });
            &&& entry_views(es@) == r.0
            &&& texts(final(warnings)@) == texts(old(warnings)@) + r.1
        }),
{
    let prefix = concat("failed to read macOS trash metadata ", root.native_metadata_path.as_str());
    let ghost start = texts(warnings@);
    match metadata {
        Ok(None) => {
            let v: Vec<DsStoreEntry> = Vec::new();
            assert(entry_views(v@) =~= Seq::<EntryView>::empty());
            assert(texts(warnings@) =~= start + Seq::<Seq<char>>::empty());
            v
        },
        Ok(Some(b)) => match parse_entries(b.as_slice()) {
            Ok(es) => {
                assert(texts(warnings@) =~= start + Seq::<Seq<char>>::empty());
                es
            },
            Err(e) => {
                let w = concat(concat(prefix.as_str(), ": ").as_str(), e.text().as_str());
                warnings.push(w);
                assert(texts(warnings@) =~= start + seq![w@]);
                let v: Vec<DsStoreEntry> = Vec::new();
                assert(entry_views(v@) =~= Seq::<EntryView>::empty());
                v
            },
        },
        Err(why) => {
            let w = concat(concat(prefix.as_str(), ": ").as_str(), why.as_str());
            warnings.push(w);
            assert(texts(warnings@) =~= start + seq![w@]);
            let v: Vec<DsStoreEntry> = Vec::new();
            assert(entry_views(v@) =~= Seq::<EntryView>::empty());
            v
        },
    }
}

// ---------------------------------------------------------------------------
// The files of a root
// ---------------------------------------------------------------------------

/// `.DS_Store`, the metadata file itself, which is not a trashed file.
pub open spec fn is_native_metadata(name: Seq<char>) -> bool {
    name == ".DS_Store"@
}

/// The trashed file a folder entry stands for, given what the records say
/// about it (the recorded name, or else the entry's own name, ends the
/// original location).
pub open spec fn found_file(root: TrashRootView, meta: (Option<Seq<char>>, Option<Seq<char>>), f: ListedFileView) -> TrashedFileView {
    TrashedFileView {
        original_location: spec_original_location(
            meta.0,
            Some(
                match meta.1 {
                    Some(n) => n,
                    None => f.file_name,
                },
            ),
        ),
        modified_date: match f.modified {
            Some(t) => Some(display_time(t)),
            None => None,
        },
        trashed_at: f.modified,
        trash_path: f.path,
        trash_root: root,
    }
}

/// What scanning a folder has found so far, and the names whose records
/// have been used.
pub struct ScanState {
    pub files: Seq<TrashedFileView>,
    pub warnings: Seq<Seq<char>>,
    pub taken: Seq<Seq<char>>,
}

/// One folder entry scanned: a read error is a warning, the metadata file
/// is skipped, a file without (unused) records is a warning, and any other
/// file is found and its records used up.
pub open spec fn listing_step(root: TrashRootView, es: Seq<EntryView>, st: ScanState, item: Result<ListedFileView, Seq<char>>) -> ScanState {
    match item {
        Err(why) => ScanState {
            warnings: st.warnings.push("failed to read an entry in "@ + root.trash_dir + ": "@ + why),
            ..st
        },
        Ok(f) => if is_native_metadata(f.file_name) {
            st
        } else if st.taken.contains(f.file_name) || meta_of(es, f.file_name) is None {
            ScanState { warnings: st.warnings.push("missing macOS trash metadata for file: "@ + f.path), ..st }
        } else {
            ScanState {
                files: st.files.push(found_file(root, meta_of(es, f.file_name)->0, f)),
                taken: st.taken.push(f.file_name),
                ..st
            }
        },
    }
}

/// The first `n` folder entries scanned.
pub open spec fn listing_fold(root: TrashRootView, es: Seq<EntryView>, items: Seq<Result<ListedFileView, Seq<char>>>, n: nat) -> ScanState
    decreases n,
{
    if n == 0 {
        ScanState { files: seq![], warnings: seq![], taken: seq![] }
    } else {
        listing_step(root, es, listing_fold(root, es, items, (n - 1) as nat), items[n - 1])
    }
}

/// The content of a [`RootListing`].
pub struct RootListingView {
    pub root: TrashRootView,
    pub metadata: Result<Option<Seq<u8>>, Seq<char>>,
    pub entries: Result<Option<Seq<Result<ListedFileView, Seq<char>>>>, Seq<char>>,
}

impl View for RootListing {
    type V = RootListingView;

    open spec fn view(&self) -> RootListingView {
        RootListingView {
            root: self.root@,
            metadata: match self.metadata {
                Ok(Some(b)) => Ok(Some(b@)),
                Ok(None) => Ok(None),
                Err(w) => Err(w@),
            },
            entries: match self.entries {
                Ok(Some(v)) => Ok(Some(item_views(v@))),
                Ok(None) => Ok(None),
                Err(w) => Err(w@),
            },
        }
    }
}

/// The trashed files of one root and the warnings about it.
pub open spec fn root_scan(l: RootListingView) -> (Seq<TrashedFileView>, Seq<Seq<char>>) {
    let (es, w) = root_entries(l.root, l.metadata);
    match l.entries {
        Ok(None) => (seq![], w),
        Err(why) => (seq![], w.push("failed to read trash dir "@ + l.root.trash_dir + ": "@ + why)),
        Ok(Some(items)) => {
            let st = listing_fold(l.root, es, items, items.len());
            (st.files, w + st.warnings)
        },
    }
}

/// The trashed files of the first `n` roots and the warnings about them.
pub open spec fn spec_scan(ls: Seq<RootListingView>, n: nat) -> (Seq<TrashedFileView>, Seq<Seq<char>>)
    decreases n,
{
    if n == 0 {
        (seq![], seq![])
    } else {
        let (fs, ws) = spec_scan(ls, (n - 1) as nat);
        let (f, w) = root_scan(ls[n - 1]);
        (fs + f, ws + w)
    }
}

/// Every modification time listed for a root is one a system clock holds.
pub open spec fn listing_clock_times(l: RootListingView) -> bool {
    l.entries matches Ok(Some(items)) ==> clock_times(items)
}

fn should_skip_native_entry(file_name: &String) -> (r: bool)
    ensures
        r == is_native_metadata(file_name@),
{
    *file_name == ".DS_Store".to_owned()
}

fn contains_name(v: &Vec<String>, n: &String) -> (r: bool)
    ensures
        r == texts(v@).contains(n@),
{
    let mut k: usize = 0;
    while k < v.len()
        invariant
            k <= v@.len(),
            forall|j: int| 0 <= j < k ==> v@[j]@ != n@,
        decreases v@.len() - k,
    {
        if v[k] == *n {
            assert(texts(v@)[k as int] == n@);
            return true;
        }
        k = k + 1;
    }
    proof {
        if texts(v@).contains(n@) {
            let j = choose|j: int| 0 <= j < texts(v@).len() && texts(v@)[j] == n@;
            assert(v@[j]@ == n@);
        }
    }
    false
}

fn modified_text(m: Option<i128>) -> (out: Option<String>)
    requires
        m matches Some(t) ==> clock_time(t),
    ensures
        opt_view(out) == match m {
            Some(t) => Some(display_time(t)),
            None => None,
        },
{
    match m {
        Some(t) => Some(format_for_display(t)),
        None => None,
    }
}

/// Scans the entries of one folder, adding to `files` and `warnings`.
fn scan_items(
    root: &TrashRoot,
    entries: &Vec<DsStoreEntry>,
    items: &Vec<Result<ListedFile, String>>,
    files: &mut Vec<TrashedFile>,
    warnings: &mut Vec<String>,
)
    requires
        clock_times(item_views(items@)),
    ensures
        ({
            let st = listing_fold(root@, entry_views(entries@), item_views(items@), items@.len());
            &&& file_views(final(files)@) == file_views(old(files)@) + st.files
            &&& texts(final(warnings)@) == texts(old(warnings)@) + st.warnings
        }),
{
    let ghost es = entry_views(entries@);
    let ghost iv = item_views(items@);
    let ghost f0 = file_views(files@);
    let ghost w0 = texts(warnings@);
    let ms = gather(entries);
    let mut taken: Vec<String> = Vec::new();
    let mut i: usize = 0;
    let prefix_entry = concat(concat("failed to read an entry in ", root.trash_dir.as_str()).as_str(), ": ");
    proof {
        assert(f0 + Seq::<TrashedFileView>::empty() =~= f0);
        assert(w0 + Seq::<Seq<char>>::empty() =~= w0);
        assert(texts(taken@) =~= Seq::<Seq<char>>::empty());
    }
    while i < items.len()
        invariant
            i <= items@.len(),
            es == entry_views(entries@),
            iv == item_views(items@),
            clock_times(iv),
            prefix_entry@ == "failed to read an entry in "@ + root@.trash_dir + ": "@,
            forall|n: Seq<char>| #[trigger] find_meta(ms@, n) == meta_of(es, n),
            ({
                let st = listing_fold(root@, es, iv, i as nat);
                &&& file_views(files@) == f0 + st.files
                &&& texts(warnings@) == w0 + st.warnings
                &&& texts(taken@) == st.taken
            }),
        decreases items@.len() - i,
    {
        let ghost st = listing_fold(root@, es, iv, i as nat);
        let ghost fs = file_views(files@);
        let ghost ws = texts(warnings@);
        let ghost tk = texts(taken@);
        assert(iv[i as int] == item_view(items@[i as int]));
        match &items[i] {
            Err(why) => {
                warnings.push(concat(prefix_entry.as_str(), why.as_str()));
                assert(texts(warnings@) =~= ws.push("failed to read an entry in "@ + root@.trash_dir + ": "@ + why@));
                assert(w0 + st.warnings.push("failed to read an entry in "@ + root@.trash_dir + ": "@ + why@) =~= ws.push(
                    "failed to read an entry in "@ + root@.trash_dir + ": "@ + why@,
                ));
            },
            Ok(f) => {
                if should_skip_native_entry(&f.file_name) {
                } else {
                    let found = meta_index(&ms, &f.file_name);
                    if contains_name(&taken, &f.file_name) || found.is_none() {
                        let w = concat("missing macOS trash metadata for file: ", f.path.as_str());
                        warnings.push(w);
                        assert(texts(warnings@) =~= ws.push(w@));
                        assert(w0 + st.warnings.push(w@) =~= ws.push(w@));
                    } else {
                        let k = found.unwrap();
                        let name = match &ms[k].file {
                            Some(n) => n.as_str(),
                            None => f.file_name.as_str(),
                        };
                        let parent = match &ms[k].parent {
                            Some(p) => Some(p.as_str()),
                            None => None,
                        };
                        let original_location = build_macos_original_location(parent, Some(name));
                        assert(iv[i as int] matches Ok(g) && g == f@);
                        let modified_date = modified_text(f.modified);
                        let file = TrashedFile {
                            original_location,
                            modified_date,
                            trashed_at: f.modified,
                            trash_path: f.path.clone(),
                            trash_root: root.copy(),
                        };
                        let ghost meta = meta_of(es, f@.file_name)->0;
                        assert(file@ == found_file(root@, meta, f@));
                        files.push(file);
                        taken.push(f.file_name.clone());
                        assert(file_views(files@) =~= fs.push(file@));
                        assert(f0 + st.files.push(file@) =~= fs.push(file@));
                        assert(texts(taken@) =~= tk.push(f@.file_name));
                    }
                }
            },
        }
        i = i + 1;
    }
}

/// Scans one root, adding to the report.
fn scan_macos_root(listing: &RootListing, report: &mut ScanReport)
    requires
        listing_clock_times(listing@),
    ensures
        file_views(final(report).files@) == file_views(old(report).files@) + root_scan(listing@).0,
        texts(final(report).warnings@) == texts(old(report).warnings@) + root_scan(listing@).1,
{
    let ghost f0 = file_views(report.files@);
    let ghost w0 = texts(report.warnings@);
    let entries = read_metadata(&listing.root, &listing.metadata, &mut report.warnings);
    let ghost w1 = texts(report.warnings@);
    match &listing.entries {
        Ok(None) => {
            assert(file_views(report.files@) =~= f0 + Seq::<TrashedFileView>::empty());
        },
        Err(why) => {
            let w = concat(
                concat(concat("failed to read trash dir ", listing.root.trash_dir.as_str()).as_str(), ": ").as_str(),
                why.as_str(),
            );
            report.warnings.push(w);
            assert(texts(report.warnings@) =~= w1.push(w@));
            assert(file_views(report.files@) =~= f0 + Seq::<TrashedFileView>::empty());
        },
        Ok(Some(items)) => {
            scan_items(&listing.root, &entries, items, &mut report.files, &mut report.warnings);
        },
    }
}

/// The trashed files of the given roots, in order, with the warnings about
/// what could not be read.
pub fn scan(listings: &Vec<RootListing>) -> (r: ScanReport)
    requires
        forall|i: int| 0 <= i < listings@.len() ==> listing_clock_times(#[trigger] listings@[i]@),
    ensures
        file_views(r.files@) == spec_scan(Seq::new(listings@.len(), |i: int| listings@[i]@), listings@.len()).0,
        texts(r.warnings@) == spec_scan(Seq::new(listings@.len(), |i: int| listings@[i]@), listings@.len()).1,
{
    let ghost ls = Seq::new(listings@.len(), |i: int| listings@[i]@);
    let mut report = ScanReport { files: Vec::new(), warnings: Vec::new() };
    let mut i: usize = 0;
    assert(file_views(report.files@) =~= Seq::<TrashedFileView>::empty());
    assert(texts(report.warnings@) =~= Seq::<Seq<char>>::empty());
    while i < listings.len()
        invariant
            i <= listings@.len(),
            ls == Seq::new(listings@.len(), |i: int| listings@[i]@),
            forall|i: int| 0 <= i < listings@.len() ==> listing_clock_times(#[trigger] listings@[i]@),
            file_views(report.files@) == spec_scan(ls, i as nat).0,
            texts(report.warnings@) == spec_scan(ls, i as nat).1,
        decreases listings@.len() - i,
    {
        assert(ls[i as int] == listings@[i as int]@);
        scan_macos_root(&listings[i], &mut report);
        i = i + 1;
    }
    report
}


// ---------------------------------------------------------------------------
// Where a recorded file is found to come from
// ---------------------------------------------------------------------------

/// When the only location records about `name` are a folder record and a
/// name record, the records say that folder and that name.
proof fn lemma_meta_of_location(es: Seq<EntryView>, name: Seq<char>, folder: Seq<char>, base: Seq<char>)
    requires
        forall|e: EntryView| #[trigger] es.contains(e) && is_location_of(e, name) ==> e == location_entry(
            name,
            ptbl(),
            folder,
        ) || e == location_entry(name, ptbn(), base),
    ensures
        es.contains(location_entry(name, ptbl(), folder)) ==> (meta_of(es, name) matches Some(m) && m.0 == Some(folder)),
        es.contains(location_entry(name, ptbn(), base)) ==> (meta_of(es, name) matches Some(m) && m.1 == Some(base)),
    decreases es.len(),
{
    if es.len() > 0 {
        let init = es.drop_last();
        let e = es.last();
        let fe = location_entry(name, ptbl(), folder);
        let be = location_entry(name, ptbn(), base);
        assert(ptbl()[3] != ptbn()[3]);
        assert(es[es.len() - 1] == e);
        assert forall|x: EntryView| #[trigger] init.contains(x) && is_location_of(x, name) implies x == fe || x == be by {
            let k = choose|k: int| 0 <= k < init.len() && init[k] == x;
            assert(es[k] == x);
            assert(es.contains(x));
        }
        lemma_meta_of_location(init, name, folder, base);
        if es.contains(fe) && e != fe {
            let k = choose|k: int| 0 <= k < es.len() && es[k] == fe;
            assert(init[k] == fe);
        }
        if es.contains(be) && e != be {
            let k = choose|k: int| 0 <= k < es.len() && es[k] == be;
            assert(init[k] == be);
        }
        assert(value_text(ValueView::Str(folder)) == Some(folder));
        assert(value_text(ValueView::Str(base)) == Some(base));
        if e.filename == name {
            if e.structure_type == ptbl() || e.structure_type == ptbn() {
                assert(es.contains(e));
                assert(e == fe || e == be);
            }
        }
    }
}

/// Scanning a trash folder whose metadata was written by recording that
/// the entry `name` came from `original` (whatever the file held before)
/// finds that entry as one trashed file, at its own path, that came from
/// the recorded folder with the recorded name: the name `original` ends
/// with, not the name the entry has in the trash (so `demo.txt_1`,
/// recorded as `/work/demo.txt`, is found to come from `/work/demo.txt`).
pub proof fn lemma_scan_finds_recorded_location(
    root: TrashRootView,
    existing: Option<Seq<u8>>,
    name: Seq<char>,
    original: Seq<char>,
    entry: ListedFileView,
)
    requires
        spec_upsert_file(existing, name, original) is Ok,
        entry.file_name == name,
        !is_native_metadata(name),
    ensures
        ({
            let listing = RootListingView {
                root,
                metadata: Ok(Some(spec_upsert_file(existing, name, original)->Ok_0)),
                entries: Ok(Some(seq![Ok(entry)])),
            };
            let found = root_scan(listing);
            &&& found.0.len() == 1
            &&& found.0[0].original_location == spec_original_location(
                Some(recorded_parent(original)),
                Some(spec_file_name(original)->0),
            )
            &&& found.0[0].trash_path == entry.path
            &&& found.1.len() == 0
        }),
{
    lemma_upsert_then_read(existing, name, original);
    let read = spec_parse_entries(spec_upsert_file(existing, name, original)->Ok_0)->Ok_0;
    let folder = recorded_parent(original);
    let base = spec_file_name(original)->0;
    assert forall|e: EntryView| #[trigger] read.contains(e) && is_location_of(e, name) implies e == location_entry(
        name,
        ptbl(),
        folder,
    ) || e == location_entry(name, ptbn(), base) by {}
    lemma_meta_of_location(read, name, folder, base);
    let items = seq![Ok::<ListedFileView, Seq<char>>(entry)];
    reveal_with_fuel(listing_fold, 2);
    assert(items[0] == Ok::<ListedFileView, Seq<char>>(entry));
    let st0 = ScanState { files: seq![], warnings: seq![], taken: seq![] };
    assert(!st0.taken.contains(name));
}

} // verus!
