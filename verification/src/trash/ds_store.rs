//! `.DS_Store` metadata: the entries a trash folder keeps about the files in
//! it, how they are read from and written to the file format, and how the
//! entries of one trashed file are added and removed.
use vstd::prelude::*;

pub mod read;
pub mod write;
pub mod roundtrip;

pub use read::parse_entries;
pub use write::encode_entries;

use crate::error::{Error, ErrorView};
use crate::path::{file_name, parent, spec_file_name, spec_parent};
use read::spec_parse_entries;
use write::spec_encode;



verus! {

/// One record of a `.DS_Store` file: a property of one file.
#[derive(Debug, Clone)]
pub struct DsStoreEntry {
    pub filename: String,
    pub structure_type: String,
    pub data_type: String,
    pub value: DsStoreValue,
}

/// The value of a record.
#[derive(Debug, Clone)]
pub enum DsStoreValue {
    Bool(bool),
    U32(u32),
    U64(u64),
    FourCharCode(String),
    String(String),
    Blob(Vec<u8>),
}

/// The content of a [`DsStoreValue`].
pub enum ValueView {
    Bool(bool),
    U32(u32),
    U64(u64),
    FourCharCode(Seq<char>),
    Str(Seq<char>),
    Blob(Seq<u8>),
}

/// The content of a [`DsStoreEntry`].
pub struct EntryView {
    pub filename: Seq<char>,
    pub structure_type: Seq<char>,
    pub data_type: Seq<char>,
    pub value: ValueView,
}

impl View for DsStoreValue {
    type V = ValueView;

    open spec fn view(&self) -> ValueView {
        match self {
            DsStoreValue::Bool(b) => ValueView::Bool(*b),
            DsStoreValue::U32(v) => ValueView::U32(*v),
            DsStoreValue::U64(v) => ValueView::U64(*v),
            DsStoreValue::FourCharCode(s) => ValueView::FourCharCode(s@),
            DsStoreValue::String(s) => ValueView::Str(s@),
            DsStoreValue::Blob(b) => ValueView::Blob(b@),
        }
    }
}

impl View for DsStoreEntry {
    type V = EntryView;

    open spec fn view(&self) -> EntryView {
        EntryView {
            filename: self.filename@,
            structure_type: self.structure_type@,
            data_type: self.data_type@,
            value: self.value@,
        }
    }
}

/// The views of a sequence of entries.
pub open spec fn entry_views(v: Seq<DsStoreEntry>) -> Seq<EntryView> {
    Seq::new(v.len(), |i: int| v[i]@)
}

/// The text a value holds, for string and four-character-code values.
pub open spec fn value_text(v: ValueView) -> Option<Seq<char>> {
    match v {
        ValueView::Str(s) => Some(s),
        ValueView::FourCharCode(s) => Some(s),
        _ => None,
    }
}

impl DsStoreValue {
    /// The text of a string or four-character-code value.
    pub fn as_string(&self) -> (out: Option<&str>)
        ensures
            match value_text(self@) {
                Some(t) => out is Some && out->0@ == t,
                None => out is None,
            },
    {
        match self {
            DsStoreValue::String(value) => Some(value.as_str()),
            DsStoreValue::FourCharCode(value) => Some(value.as_str()),
            _ => None,
        }
    }
}

// ---------------------------------------------------------------------------
// The records of one trashed file
// ---------------------------------------------------------------------------

/// `ptbL`: the folder a trashed file came from.
pub open spec fn ptbl() -> Seq<char> {
    seq!['p', 't', 'b', 'L']
}

/// `ptbN`: the name a trashed file had.
pub open spec fn ptbn() -> Seq<char> {
    seq!['p', 't', 'b', 'N']
}

/// `ustr`: a UTF-16 string value.
pub open spec fn ustr() -> Seq<char> {
    seq!['u', 's', 't', 'r']
}

/// Whether `e` is one of the records that say where the trashed file
/// `name` came from.
pub open spec fn is_location_of(e: EntryView, name: Seq<char>) -> bool {
    e.filename == name && (e.structure_type == ptbl() || e.structure_type == ptbn())
}

/// A string record of the given structure type about `name`.
pub open spec fn location_entry(name: Seq<char>, structure_type: Seq<char>, text: Seq<char>) -> EntryView {
    EntryView { filename: name, structure_type, data_type: ustr(), value: ValueView::Str(text) }
}

/// The folder recorded for a file that came from `original`: its parent,
/// or `/` when it has none.
pub open spec fn recorded_parent(original: Seq<char>) -> Seq<char> {
    match spec_parent(original) {
        Some(p) => p,
        None => seq!['/'],
    }
}

/// The entries after recording that `name` came from `original`: its old
/// location records go, two new ones (folder and name) are added at the end.
pub open spec fn spec_upsert(es: Seq<EntryView>, name: Seq<char>, original: Seq<char>) -> Result<Seq<EntryView>, ErrorView> {
    match spec_file_name(original) {
        None => Err(ErrorView::Message("invalid original file name"@)),
        Some(f) => Ok(es.filter(|e: EntryView| !is_location_of(e, name)) + seq![
            location_entry(name, ptbl(), recorded_parent(original)),
            location_entry(name, ptbn(), f),
        ]),
    }
}

/// The entries without any record about `name`.
pub open spec fn spec_remove(es: Seq<EntryView>, name: Seq<char>) -> Seq<EntryView> {
    es.filter(|e: EntryView| e.filename != name)
}

/// The entries a file holds: none when there is no file.
pub open spec fn existing_entries(existing: Option<Seq<u8>>) -> Result<Seq<EntryView>, ErrorView> {
    match existing {
        None => Ok(seq![]),
        Some(b) => spec_parse_entries(b),
    }
}

/// The bytes of an optional file.
pub open spec fn bytes_of(existing: Option<&[u8]>) -> Option<Seq<u8>> {
    match existing {
        Some(b) => Some(b@),
        None => None,
    }
}

/// The new contents of a metadata file after recording where `name` came from.
pub open spec fn spec_upsert_file(existing: Option<Seq<u8>>, name: Seq<char>, original: Seq<char>) -> Result<Seq<u8>, ErrorView> {
    match existing_entries(existing) {
        Err(e) => Err(e),
        Ok(es) => match spec_upsert(es, name, original) {
            Err(e) => Err(e),
            Ok(es2) => spec_encode(es2),
        },
    }
}

/// The new contents of a metadata file after forgetting `name`: `None` when
/// no entry is left and the file is to be removed.
pub open spec fn spec_remove_file(existing: Option<Seq<u8>>, name: Seq<char>) -> Result<Option<Seq<u8>>, ErrorView> {
    match existing_entries(existing) {
        Err(e) => Err(e),
        Ok(es) => {
            let rest = spec_remove(es, name);
            if rest.len() == 0 {
                Ok(None)
            } else {
                match spec_encode(rest) {
                    Err(e) => Err(e),
                    Ok(b) => Ok(Some(b)),
                }
            }
        },
    }
}

fn same_name(e: &DsStoreEntry, name: &str) -> (r: bool)
    ensures
        r == (e@.filename == name@),
{
    let n = name.to_owned();
    e.filename == n
}

fn is_location_record(e: &DsStoreEntry, name: &str) -> (r: bool)
    ensures
        r == is_location_of(e@, name@),
{
    if !same_name(e, name) {
        return false;
    }
    let l = "ptbL".to_owned();
    let n = "ptbN".to_owned();
    proof {
        reveal_strlit("ptbL");
        reveal_strlit("ptbN");
        assert(l@ =~= ptbl());
        assert(n@ =~= ptbn());
    }
    e.structure_type == l || e.structure_type == n
}

fn string_entry(name: &String, structure_type: &str, text: String) -> (e: DsStoreEntry)
    ensures
        e@ == location_entry(name@, structure_type@, text@),
{
    let u = "ustr".to_owned();
    proof {
        reveal_strlit("ustr");
        assert(u@ =~= ustr());
    }
    DsStoreEntry {
        filename: name.clone(),
        structure_type: structure_type.to_owned(),
        data_type: u,
        value: DsStoreValue::String(text),
    }
}

/// Keeps the entries `keep` says yes to, in order.
fn retain_entries(entries: Vec<DsStoreEntry>, name: &str, locations_only: bool) -> (out: Vec<DsStoreEntry>)
    ensures
        locations_only ==> entry_views(out@) == entry_views(entries@).filter(|e: EntryView| !is_location_of(e, name@)),
        !locations_only ==> entry_views(out@) == spec_remove(entry_views(entries@), name@),
{
    let ghost all = entry_views(entries@);
    let ghost pred = if locations_only {
        |e: EntryView| !is_location_of(e, name@)
    } else {
        |e: EntryView| e.filename != name@
    };
    let mut rest = entries;
    let mut out: Vec<DsStoreEntry> = Vec::new();
    let ghost mut done: int = 0;
    assert(all.take(0) =~= Seq::<EntryView>::empty());
    assert(entry_views(rest@) =~= all.skip(0));
    while rest.len() > 0
        invariant
            0 <= done <= all.len(),
            entry_views(rest@) == all.skip(done),
            entry_views(out@) == all.take(done).filter(pred),
            pred == (if locations_only {
                |e: EntryView| !is_location_of(e, name@)
            } else {
                |e: EntryView| e.filename != name@
            }),
        decreases rest@.len(),
    {
        let ghost before = entry_views(rest@);
        let ghost old_rest = rest@;
        let e = rest.remove(0);
        assert(entry_views(rest@) =~= before.drop_first());
        assert(before[0] == old_rest[0]@);
        assert(e@ == all[done]);
        let keep = if locations_only {
            !is_location_record(&e, name)
        } else {
            !same_name(&e, name)
        };
        assert(keep == pred(e@));
        let ghost out_before = entry_views(out@);
        proof {
            reveal(Seq::filter);
            assert(all.take(done + 1).drop_last() =~= all.take(done));
            assert(all.take(done + 1).last() == e@);
            assert(all.take(done + 1).filter(pred) == (if pred(e@) {
                all.take(done).filter(pred).push(e@)
            } else {
                all.take(done).filter(pred)
            }));
        }
        if keep {
            out.push(e);
            assert(entry_views(out@) =~= out_before.push(e@));
        }
        proof {
            done = done + 1;
            assert(all.skip(done) =~= all.skip(done - 1).drop_first());
        }
    }
    assert(all.take(done) =~= all);
    out
}

/// The entries after recording that the trashed file `trashed_name` came
/// from `original_path`.
pub fn upsert_entries(entries: Vec<DsStoreEntry>, trashed_name: &str, original_path: &str) -> (r: Result<Vec<DsStoreEntry>, Error>)
    ensures
        match spec_upsert(entry_views(entries@), trashed_name@, original_path@) {
            Ok(es) => r is Ok && entry_views(r->Ok_0@) == es,
            Err(x) => r is Err && r->Err_0@ == x,
        },
{
    let name = trashed_name.to_owned();
    let mut kept = retain_entries(entries, trashed_name, true);
    let original_name = match file_name(original_path) {
        Some(n) => n,
        None => {
            return Err(Error::message("invalid original file name"));
        },
    };
    let parent_path = match parent(original_path) {
        Some(p) => p,
        None => {
            let root = "/".to_owned();
            proof {
                reveal_strlit("/");
                assert(root@ =~= seq!['/']);
            }
            root
        },
    };
    let ghost before = entry_views(kept@);
    proof {
        reveal_strlit("ptbL");
        reveal_strlit("ptbN");
        assert("ptbL"@ =~= ptbl());
        assert("ptbN"@ =~= ptbn());
        assert((|e: EntryView| !is_location_of(e, name@)) =~= (|e: EntryView| !is_location_of(e, trashed_name@)));
    }
    let a = string_entry(&name, "ptbL", parent_path);
    let b = string_entry(&name, "ptbN", original_name);
    kept.push(a);
    kept.push(b);
    assert(entry_views(kept@) =~= before + seq![a@, b@]);
    Ok(kept)
}

/// The entries without any record about `trashed_name`.
pub fn remove_entries(entries: Vec<DsStoreEntry>, trashed_name: &str) -> (out: Vec<DsStoreEntry>)
    ensures
        entry_views(out@) == spec_remove(entry_views(entries@), trashed_name@),
{
    retain_entries(entries, trashed_name, false)
}

fn read_existing(existing: Option<&[u8]>) -> (r: Result<Vec<DsStoreEntry>, Error>)
    ensures
        match existing_entries(bytes_of(existing)) {
            Ok(es) => r is Ok && entry_views(r->Ok_0@) == es,
            Err(x) => r is Err && r->Err_0@ == x,
        },
{
    match existing {
        None => {
            let v: Vec<DsStoreEntry> = Vec::new();
            assert(entry_views(v@) =~= Seq::<EntryView>::empty());
            Ok(v)
        },
        Some(b) => parse_entries(b),
    }
}

/// The new contents of the metadata file `existing` (`None` when there is no
/// such file) after recording that the trashed file `trashed_name` came
/// from `original_path`.
pub fn upsert_trash_entry(existing: Option<&[u8]>, trashed_name: &str, original_path: &str) -> (r: Result<Vec<u8>, Error>)
    ensures
        match spec_upsert_file(bytes_of(existing), trashed_name@, original_path@) {
            Ok(b) => r is Ok && r->Ok_0@ == b,
            Err(x) => r is Err && r->Err_0@ == x,
        },
{
    let entries = match read_existing(existing) {
        Ok(es) => es,
        Err(e) => {
            return Err(e);
        },
    };
    let updated = match upsert_entries(entries, trashed_name, original_path) {
        Ok(es) => es,
        Err(e) => {
            return Err(e);
        },
    };
    encode_entries(updated)
}

/// The new contents of the metadata file `existing` after forgetting the
/// trashed file `trashed_name`; `Ok(None)` when no entry is left and the
/// file is to be removed.
pub fn remove_trash_entry(existing: Option<&[u8]>, trashed_name: &str) -> (r: Result<Option<Vec<u8>>, Error>)
    ensures
        match spec_remove_file(bytes_of(existing), trashed_name@) {
            Ok(Some(b)) => r is Ok && r->Ok_0 is Some && r->Ok_0->0@ == b,
            Ok(None) => r is Ok && r->Ok_0 is None,
            Err(x) => r is Err && r->Err_0@ == x,
        },
{
    let entries = match read_existing(existing) {
        Ok(es) => es,
        Err(e) => {
            return Err(e);
        },
    };
    let rest = remove_entries(entries, trashed_name);
    if rest.len() == 0 {
        return Ok(None);
    }
    match encode_entries(rest) {
        Ok(b) => Ok(Some(b)),
        Err(e) => Err(e),
    }
}

} // verus!
