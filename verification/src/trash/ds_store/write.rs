//! Writing `.DS_Store` files: the entries, sorted, in one leaf block of a
//! single `DSDB` tree.
use vstd::prelude::*;
use vstd::utf8::encode_utf8;
use vstd::arithmetic::power2::{pow2, lemma2_to64, lemma2_to64_rest, lemma_pow2_unfold, lemma_pow2_strictly_increases};
use crate::error::{Error, ErrorView};
use crate::order::{bytes_eq, bytes_less, bytes_lt, lemma_insert_pos_at, sort_by};
use crate::text::{append_chars, chars_of, string_of};
use crate::unicode::{encode_utf16, utf16_encode};
use super::{DsStoreEntry, DsStoreValue, EntryView, ValueView, entry_views};
use super::read::{
    code_blob, code_bool, code_bud1, code_comp, code_dutc, code_long, code_shor, code_type, code_ustr,
};

verus! {

// ---------------------------------------------------------------------------
// The encoding, as a specification
// ---------------------------------------------------------------------------

/// A 32-bit value, big-endian.
pub open spec fn u32_be(v: u32) -> Seq<u8> {
    seq![(v / 16777216) as u8, ((v / 65536) % 256) as u8, ((v / 256) % 256) as u8, (v % 256) as u8]
}

/// A 64-bit value, big-endian.
pub open spec fn u64_be(v: u64) -> Seq<u8> {
    u32_be((v / 4294967296) as u32) + u32_be((v % 4294967296) as u32)
}

/// UTF-16 code units, big-endian.
pub open spec fn units_be(u: Seq<u16>) -> Seq<u8>
    decreases u.len(),
{
    if u.len() == 0 {
        seq![]
    } else {
        units_be(u.drop_last()) + seq![(u.last() / 256) as u8, (u.last() % 256) as u8]
    }
}

/// `n` zero bytes.
pub open spec fn zeros(n: nat) -> Seq<u8> {
    Seq::new(n, |k: int| 0u8)
}

/// `DSDB`
pub open spec fn code_dsdb() -> Seq<u8> {
    seq![0x44u8, 0x53, 0x44, 0x42]
}

/// A string as a 32-bit count of UTF-16 code units followed by the units.
pub open spec fn enc_ustr(s: Seq<char>) -> Result<Seq<u8>, ErrorView> {
    let u = utf16_encode(s);
    if u.len() > u32::MAX {
        Err(ErrorView::Message("DS_Store string too long"@))
    } else {
        Ok(u32_be(u.len() as u32) + units_be(u))
    }
}

/// A four-character code: a string of exactly four UTF-8 bytes.
pub open spec fn enc_fourcc(s: Seq<char>) -> Result<Seq<u8>, ErrorView> {
    if encode_utf8(s).len() != 4 {
        Err(ErrorView::Message("invalid DS_Store fourcc: "@ + s))
    } else {
        Ok(encode_utf8(s))
    }
}

/// A value, which must be of the kind its data type names.
pub open spec fn enc_value(dt: Seq<char>, v: ValueView) -> Result<Seq<u8>, ErrorView> {
    let d = encode_utf8(dt);
    if d == code_bool() && v is Bool {
        Ok(seq![if v->Bool_0 { 1u8 } else { 0u8 }])
    } else if (d == code_long() || d == code_shor()) && v is U32 {
        Ok(u32_be(v->U32_0))
    } else if (d == code_comp() || d == code_dutc()) && v is U64 {
        Ok(u64_be(v->U64_0))
    } else if d == code_type() && v is FourCharCode {
        enc_fourcc(v->FourCharCode_0)
    } else if d == code_ustr() && v is Str {
        enc_ustr(v->Str_0)
    } else if d == code_blob() && v is Blob {
        Ok(u32_be(v->Blob_0.len() as u32) + v->Blob_0)
    } else {
        Err(ErrorView::Message("unsupported DS_Store value for type "@ + dt))
    }
}

/// One record: file name, structure type, data type, value.
pub open spec fn enc_record(e: EntryView) -> Result<Seq<u8>, ErrorView> {
    match enc_ustr(e.filename) {
        Err(x) => Err(x),
        Ok(a) => match enc_fourcc(e.structure_type) {
            Err(x) => Err(x),
            Ok(b) => match enc_fourcc(e.data_type) {
                Err(x) => Err(x),
                Ok(c) => match enc_value(e.data_type, e.value) {
                    Err(x) => Err(x),
                    Ok(d) => Ok(a + b + c + d),
                },
            },
        },
    }
}

/// The records one after the other; the first entry that cannot be
/// encoded decides the error.
pub open spec fn enc_records(es: Seq<EntryView>) -> Result<Seq<u8>, ErrorView>
    decreases es.len(),
{
    if es.len() == 0 {
        Ok(seq![])
    } else {
        match enc_records(es.drop_last()) {
            Err(x) => Err(x),
            Ok(a) => match enc_record(es.last()) {
                Err(x) => Err(x),
                Ok(b) => Ok(a + b),
            },
        }
    }
}

/// The order of records in a file: by file name, then structure type, then
/// data type, each compared byte by byte.
pub open spec fn entry_lt(a: EntryView, b: EntryView) -> bool {
    let fa = encode_utf8(a.filename);
    let fb = encode_utf8(b.filename);
    let sa = encode_utf8(a.structure_type);
    let sb = encode_utf8(b.structure_type);
    let da = encode_utf8(a.data_type);
    let db = encode_utf8(b.data_type);
    bytes_lt(fa, fb) || (fa == fb && (bytes_lt(sa, sb) || (sa == sb && bytes_lt(da, db))))
}

/// [`entry_lt`] as a value.
pub open spec fn entry_order() -> spec_fn(EntryView, EntryView) -> bool {
    |a: EntryView, b: EntryView| entry_lt(a, b)
}

/// The size and the base-two logarithm of the smallest block of at least
/// `required` bytes, searching up from a block of `size` bytes.
pub open spec fn grow(required: int, size: int, exp: nat) -> (int, nat)
    decreases (if size < required { required - size } else { 0 }),
{
    if size <= 0 || size >= required {
        (size, exp)
    } else {
        grow(required, 2 * size, exp + 1)
    }
}

/// Length of the table body: counts, 256 block words, one directory.
pub open spec fn body_len() -> int { 1045 }

/// Where the leaf block starts.
pub open spec fn leaf_offset() -> int { 1124 }

/// The file header.
pub open spec fn header_bytes() -> Seq<u8> {
    seq![0u8, 0, 0, 1] + code_bud1() + u32_be(32) + u32_be(body_len() as u32) + u32_be(0) + zeros(16)
}

/// The table body: two blocks (master, then leaf) and one directory, `DSDB`.
pub open spec fn body_bytes(leaf_exp: nat) -> Seq<u8> {
    u32_be(2) + u32_be(0) + u32_be(1093) + u32_be((1120 + leaf_exp) as u32) + zeros(254 * 4) + u32_be(1)
        + seq![4u8] + code_dsdb() + u32_be(0)
}

/// The master block: root block 1, no internal nodes, `count` records, one node.
pub open spec fn master_bytes(count: u32) -> Seq<u8> {
    u32_be(1) + u32_be(0) + u32_be(count) + u32_be(1) + u32_be(0) + zeros(12)
}

/// The leaf block of `size` bytes holding `count` records.
pub open spec fn leaf_bytes(count: u32, records: Seq<u8>, size: int) -> Seq<u8> {
    u32_be(0) + u32_be(count) + records + zeros((size - 8 - records.len()) as nat)
}

/// A whole file around the encoded records.
pub open spec fn layout(records: Seq<u8>, count: u32, size: int, exp: nat) -> Seq<u8> {
    header_bytes() + body_bytes(exp) + zeros(11) + master_bytes(count) + leaf_bytes(count, records, size)
}

/// `"DS_Store size overflow"`
pub open spec fn size_overflow() -> ErrorView {
    ErrorView::Message("DS_Store size overflow"@)
}

/// The bytes of a `.DS_Store` file holding the given entries, or why there
/// is none: entries are sorted by [`entry_lt`] and stored in one leaf block.
pub open spec fn spec_encode(es: Seq<EntryView>) -> Result<Seq<u8>, ErrorView> {
    let sorted = sort_by(es, entry_order());
    match enc_records(sorted) {
        Err(x) => Err(x),
        Ok(records) => {
            let required = if records.len() + 8 > usize::MAX { usize::MAX as int } else { records.len() + 8 as int };
            let (size, exp) = grow(required, 32, 5);
            if size > usize::MAX || leaf_offset() + size > usize::MAX {
                Err(size_overflow())
            } else if exp > 31 {
                Err(ErrorView::Message("invalid DS_Store block size"@))
            } else {
                Ok(layout(records, sorted.len() as u32, size, exp))
            }
        },
    }
}

// ---------------------------------------------------------------------------
// Encoding
// ---------------------------------------------------------------------------

fn push_u32_be(out: &mut Vec<u8>, v: u32)
    ensures
        final(out)@ == old(out)@ + u32_be(v),
{
    out.push((v / 16777216) as u8);
    out.push(((v / 65536) % 256) as u8);
    out.push(((v / 256) % 256) as u8);
    out.push((v % 256) as u8);
    assert(out@ =~= old(out)@ + u32_be(v));
}

fn push_bytes(out: &mut Vec<u8>, more: &[u8])
    ensures
        final(out)@ == old(out)@ + more@,
{
    let ghost start = out@;
    let mut k: usize = 0;
    while k < more.len()
        invariant
            k <= more@.len(),
            out@ == start + more@.take(k as int),
        decreases more@.len() - k,
    {
        out.push(more[k]);
        k = k + 1;
        assert(out@ =~= start + more@.take(k as int));
    }
    assert(more@.take(more@.len() as int) =~= more@);
}

fn push_zeros(out: &mut Vec<u8>, n: usize)
    ensures
        final(out)@ == old(out)@ + zeros(n as nat),
{
    let ghost start = out@;
    let mut k: usize = 0;
    while k < n
        invariant
            k <= n,
            out@ == start + zeros(k as nat),
        decreases n - k,
    {
        out.push(0);
        k = k + 1;
        assert(out@ =~= start + zeros(k as nat));
    }
}

fn write_ustr32(bytes: &mut Vec<u8>, value: &str) -> (r: Result<(), Error>)
    ensures
        match enc_ustr(value@) {
            Ok(b) => r is Ok && final(bytes)@ == old(bytes)@ + b,
            Err(x) => r is Err && r->Err_0@ == x,
        },
{
    let units = encode_utf16(value);
    if units.len() > 0xFFFF_FFFFusize {
        return Err(Error::message("DS_Store string too long"));
    }
    push_u32_be(bytes, units.len() as u32);
    let ghost mid = bytes@;
    let mut k: usize = 0;
    assert(units@.take(0) =~= Seq::<u16>::empty());
    while k < units.len()
        invariant
            k <= units@.len(),
            bytes@ == mid + units_be(units@.take(k as int)),
        decreases units@.len() - k,
    {
        let u = units[k];
        bytes.push((u / 256) as u8);
        bytes.push((u % 256) as u8);
        assert(units@.take(k + 1).drop_last() =~= units@.take(k as int));
        k = k + 1;
        assert(bytes@ =~= mid + units_be(units@.take(k as int)));
    }
    assert(units@.take(units@.len() as int) =~= units@);
    assert(bytes@ =~= old(bytes)@ + (u32_be(units@.len() as u32) + units_be(units@)));
    Ok(())
}

fn write_ustr(bytes: &mut Vec<u8>, value: &str) -> (r: Result<(), Error>)
    ensures
        match enc_ustr(value@) {
            Ok(b) => r is Ok && final(bytes)@ == old(bytes)@ + b,
            Err(x) => r is Err && r->Err_0@ == x,
        },
{
    write_ustr32(bytes, value)
}

fn write_fourcc(bytes: &mut Vec<u8>, value: &str) -> (r: Result<(), Error>)
    ensures
        match enc_fourcc(value@) {
            Ok(b) => r is Ok && final(bytes)@ == old(bytes)@ + b,
            Err(x) => r is Err && r->Err_0@ == x,
        },
{
    let b = value.as_bytes();
    if b.len() != 4 {
        let mut v = chars_of("invalid DS_Store fourcc: ");
        append_chars(&mut v, &chars_of(value));
        return Err(Error::Message(string_of(v.as_slice())));
    }
    push_bytes(bytes, b);
    Ok(())
}

fn code_is(d: &[u8], a: u8, b: u8, c: u8, e: u8) -> (r: bool)
    ensures
        r == (d@ == seq![a, b, c, e]),
{
    let r = d.len() == 4 && d[0] == a && d[1] == b && d[2] == c && d[3] == e;
    proof {
        if r {
            assert(d@ =~= seq![a, b, c, e]);
        }
        if d@ == seq![a, b, c, e] {
            assert(d@.len() == 4 && d@[0] == a && d@[1] == b && d@[2] == c && d@[3] == e);
        }
    }
    r
}

fn write_value(bytes: &mut Vec<u8>, data_type: &str, value: &DsStoreValue) -> (r: Result<(), Error>)
    ensures
        match enc_value(data_type@, value@) {
            Ok(b) => r is Ok && final(bytes)@ == old(bytes)@ + b,
            Err(x) => r is Err && r->Err_0@ == x,
        },
{
    let d = data_type.as_bytes();
    match value {
        DsStoreValue::Bool(v) => {
            if code_is(d, 0x62, 0x6f, 0x6f, 0x6c) {
                bytes.push(if *v { 1u8 } else { 0u8 });
                assert(bytes@ =~= old(bytes)@ + seq![if *v { 1u8 } else { 0u8 }]);
                return Ok(());
            }
        },
        DsStoreValue::U32(v) => {
            if code_is(d, 0x6c, 0x6f, 0x6e, 0x67) || code_is(d, 0x73, 0x68, 0x6f, 0x72) {
                push_u32_be(bytes, *v);
                return Ok(());
            }
        },
        DsStoreValue::U64(v) => {
            if code_is(d, 0x63, 0x6f, 0x6d, 0x70) || code_is(d, 0x64, 0x75, 0x74, 0x63) {
                push_u32_be(bytes, (*v / 4294967296) as u32);
                push_u32_be(bytes, (*v % 4294967296) as u32);
                assert(bytes@ =~= old(bytes)@ + u64_be(*v));
                return Ok(());
            }
        },
        DsStoreValue::FourCharCode(s) => {
            if code_is(d, 0x74, 0x79, 0x70, 0x65) {
                return write_fourcc(bytes, s.as_str());
            }
        },
        DsStoreValue::String(s) => {
            if code_is(d, 0x75, 0x73, 0x74, 0x72) {
                return write_ustr(bytes, s.as_str());
            }
        },
        DsStoreValue::Blob(b) => {
            if code_is(d, 0x62, 0x6c, 0x6f, 0x62) {
                push_u32_be(bytes, b.len() as u32);
                push_bytes(bytes, b.as_slice());
                assert(bytes@ =~= old(bytes)@ + (u32_be(b@.len() as u32) + b@));
                return Ok(());
            }
        },
    }
    let mut v = chars_of("unsupported DS_Store value for type ");
    append_chars(&mut v, &chars_of(data_type));
    Err(Error::Message(string_of(v.as_slice())))
}

fn write_record(bytes: &mut Vec<u8>, entry: &DsStoreEntry) -> (r: Result<(), Error>)
    ensures
        match enc_record(entry@) {
            Ok(b) => r is Ok && final(bytes)@ == old(bytes)@ + b,
            Err(x) => r is Err && r->Err_0@ == x,
        },
{
    match write_ustr32(bytes, entry.filename.as_str()) {
        Ok(()) => {},
        Err(e) => {
            return Err(e);
        },
    }
    match write_fourcc(bytes, entry.structure_type.as_str()) {
        Ok(()) => {},
        Err(e) => {
            return Err(e);
        },
    }
    match write_fourcc(bytes, entry.data_type.as_str()) {
        Ok(()) => {},
        Err(e) => {
            return Err(e);
        },
    }
    match write_value(bytes, entry.data_type.as_str(), &entry.value) {
        Ok(()) => {},
        Err(e) => {
            return Err(e);
        },
    }
    proof {
        let e = entry@;
        let a = enc_ustr(e.filename)->Ok_0;
        let b = enc_fourcc(e.structure_type)->Ok_0;
        let c = enc_fourcc(e.data_type)->Ok_0;
        let d = enc_value(e.data_type, e.value)->Ok_0;
        assert(bytes@ =~= old(bytes)@ + (a + b + c + d));
    }
    Ok(())
}

proof fn lemma_enc_records_err(es: Seq<EntryView>, i: int)
    requires
        0 <= i <= es.len(),
        enc_records(es.take(i)) is Err,
    ensures
        enc_records(es) == enc_records(es.take(i)),
    decreases es.len() - i,
{
    if i < es.len() {
        assert(es.take(i + 1).drop_last() =~= es.take(i));
        lemma_enc_records_err(es, i + 1);
    } else {
        assert(es.take(i) =~= es);
    }
}

fn serialize_records(entries: &Vec<DsStoreEntry>) -> (r: Result<Vec<u8>, Error>)
    ensures
        match enc_records(entry_views(entries@)) {
            Ok(b) => r is Ok && r->Ok_0@ == b,
            Err(x) => r is Err && r->Err_0@ == x,
        },
{
    let ghost es = entry_views(entries@);
    let mut bytes: Vec<u8> = Vec::new();
    let mut i: usize = 0;
    assert(es.take(0) =~= Seq::<EntryView>::empty());
    while i < entries.len()
        invariant
            i <= entries@.len(),
            es == entry_views(entries@),
            enc_records(es.take(i as int)) == Ok::<Seq<u8>, ErrorView>(bytes@),
        decreases entries@.len() - i,
    {
        assert(es.take(i + 1).drop_last() =~= es.take(i as int));
        assert(es.take(i + 1).last() == entries@[i as int]@);
        match write_record(&mut bytes, &entries[i]) {
            Ok(()) => {},
            Err(e) => {
                proof {
                    lemma_enc_records_err(es, i + 1);
                }
                return Err(e);
            },
        }
        i = i + 1;
    }
    assert(es.take(entries@.len() as int) =~= es);
    Ok(bytes)
}

/// The size and logarithm of the smallest block of at least `required`
/// bytes; `None` when no such block size fits in memory.
fn block_size_for(required_len: usize) -> (r: Option<(usize, u32)>)
    ensures
        match r {
            Some((size, exp)) => grow(required_len as int, 32, 5) == (size as int, exp as nat),
            None => grow(required_len as int, 32, 5).0 > usize::MAX,
        },
{
    let mut size: usize = 32;
    let mut exp: u32 = 5;
    proof {
        lemma2_to64();
    }
    while size < required_len
        invariant
            size > 0,
            exp < 64,
            size as nat == pow2(exp as nat),
            grow(required_len as int, size as int, exp as nat) == grow(required_len as int, 32, 5),
        decreases usize::MAX - size,
    {
        if size > usize::MAX / 2 {
            proof {
                lemma_grow_big(required_len as int, size as int, exp as nat);
            }
            return None;
        }
        proof {
            lemma_pow2_unfold((exp + 1) as nat);
            lemma2_to64_rest();
            if exp + 1 > 64 {
                lemma_pow2_strictly_increases(64, (exp + 1) as nat);
            }
        }
        size = size * 2;
        exp = exp + 1;
    }
    Some((size, exp))
}

proof fn lemma_grow_big(required: int, size: int, exp: nat)
    requires
        size > 0,
        size < required,
    ensures
        grow(required, size, exp).0 >= 2 * size,
    decreases required - size,
{
    reveal_with_fuel(grow, 2);
    if 2 * size < required {
        lemma_grow_big(required, 2 * size, exp + 1);
    }
}

/// Where a block may start: 4 bytes past a multiple of 32.
pub open spec fn block_aligned(x: int) -> bool {
    x % 32 == 4
}

/// The first offset from `offset` on that lies 4 bytes past a multiple of 32.
fn align_block_offset(offset: usize) -> (r: usize)
    requires
        offset <= usize::MAX - 36,
    ensures
        r % 32 == 4,
        offset <= r < offset + 32,
        forall|x: int| offset <= x < r ==> !#[trigger] block_aligned(x),
{
    let remainder = offset % 32;
    if remainder <= 4 {
        offset + (4 - remainder)
    } else {
        offset + (36 - remainder)
    }
}

fn encode_block_address(offset: usize, exponent: u32) -> (r: Result<u32, Error>)
    requires
        4 <= offset <= 0x1_0000,
        offset % 32 == 4,
    ensures
        exponent <= 31 ==> r is Ok && r->Ok_0 == offset - 4 + exponent,
        exponent > 31 ==> r is Err && r->Err_0@ == ErrorView::Message("invalid DS_Store block size"@),
{
    if exponent > 31 {
        return Err(Error::message("invalid DS_Store block size"));
    }
    let base = (offset - 4) as u32;
    Ok(base + exponent)
}

fn write_header(bytes: &mut Vec<u8>, len: usize)
    requires
        len == body_len(),
    ensures
        final(bytes)@ == old(bytes)@ + header_bytes(),
{
    push_bytes(bytes, &[0u8, 0, 0, 1]);
    push_bytes(bytes, &[0x42u8, 0x75, 0x64, 0x31]);
    push_u32_be(bytes, 32);
    push_u32_be(bytes, len as u32);
    push_u32_be(bytes, 0);
    push_zeros(bytes, 16);
    assert([0u8, 0, 0, 1]@ =~= seq![0u8, 0, 0, 1]);
    assert([0x42u8, 0x75, 0x64, 0x31]@ =~= code_bud1());
    assert(bytes@ =~= old(bytes)@ + header_bytes());
}

fn write_body(bytes: &mut Vec<u8>, master_word: u32, leaf_word: u32, leaf_exp: Ghost<nat>)
    requires
        master_word == 1093,
        leaf_word == 1120 + leaf_exp@,
    ensures
        final(bytes)@ == old(bytes)@ + body_bytes(leaf_exp@),
{
    push_u32_be(bytes, 2);
    push_u32_be(bytes, 0);
    push_u32_be(bytes, master_word);
    push_u32_be(bytes, leaf_word);
    push_zeros(bytes, 254 * 4);
    push_u32_be(bytes, 1);
    bytes.push(4);
    push_bytes(bytes, &[0x44u8, 0x53, 0x44, 0x42]);
    push_u32_be(bytes, 0);
    assert([0x44u8, 0x53, 0x44, 0x42]@ =~= code_dsdb());
    assert(bytes@ =~= old(bytes)@ + body_bytes(leaf_exp@));
}

fn write_master_block(bytes: &mut Vec<u8>, record_count: u32)
    ensures
        final(bytes)@ == old(bytes)@ + master_bytes(record_count),
{
    push_u32_be(bytes, 1);
    push_u32_be(bytes, 0);
    push_u32_be(bytes, record_count);
    push_u32_be(bytes, 1);
    push_u32_be(bytes, 0);
    push_zeros(bytes, 12);
    assert(bytes@ =~= old(bytes)@ + master_bytes(record_count));
}

fn write_leaf_block(bytes: &mut Vec<u8>, records: &Vec<u8>, record_count: u32, size: usize)
    requires
        size >= 8 + records@.len(),
    ensures
        final(bytes)@ == old(bytes)@ + leaf_bytes(record_count, records@, size as int),
{
    push_u32_be(bytes, 0);
    push_u32_be(bytes, record_count);
    push_bytes(bytes, records.as_slice());
    push_zeros(bytes, size - 8 - records.len());
    assert(bytes@ =~= old(bytes)@ + leaf_bytes(record_count, records@, size as int));
}

// ---------------------------------------------------------------------------
// Sorting
// ---------------------------------------------------------------------------

fn entry_less(a: &DsStoreEntry, b: &DsStoreEntry) -> (r: bool)
    ensures
        r == entry_lt(a@, b@),
{
    let fa = a.filename.as_str().as_bytes();
    let fb = b.filename.as_str().as_bytes();
    if bytes_less(fa, fb) {
        return true;
    }
    if !bytes_eq(fa, fb) {
        return false;
    }
    let sa = a.structure_type.as_str().as_bytes();
    let sb = b.structure_type.as_str().as_bytes();
    if bytes_less(sa, sb) {
        return true;
    }
    if !bytes_eq(sa, sb) {
        return false;
    }
    bytes_less(a.data_type.as_str().as_bytes(), b.data_type.as_str().as_bytes())
}

/// The entries in file order, equal entries keeping their order.
pub fn sort_entries(entries: Vec<DsStoreEntry>) -> (out: Vec<DsStoreEntry>)
    ensures
        entry_views(out@) == sort_by(entry_views(entries@), entry_order()),
{
    let ghost all = entry_views(entries@);
    let mut rest = entries;
    let mut out: Vec<DsStoreEntry> = Vec::new();
    let ghost mut done: nat = 0;
    assert(all.take(0) =~= Seq::<EntryView>::empty());
    assert(entry_views(rest@) =~= all.skip(0));
    while rest.len() > 0
        invariant
            done <= all.len(),
            entry_views(rest@) == all.skip(done as int),
            entry_views(out@) == sort_by(all.take(done as int), entry_order()),
        decreases rest@.len(),
    {
        let ghost before_rest = entry_views(rest@);
        let ghost old_rest = rest@;
        let x = rest.remove(0);
        assert(entry_views(rest@) =~= before_rest.drop_first());
        assert(before_rest[0] == old_rest[0]@);
        assert(before_rest[0] == all[done as int]);
        assert(x@ == all[done as int]);
        let ghost sorted = entry_views(out@);
        let mut k: usize = 0;
        while k < out.len() && !entry_less(&x, &out[k])
            invariant
                k <= out@.len(),
                sorted == entry_views(out@),
                forall|j: int| 0 <= j < k ==> !entry_lt(x@, #[trigger] sorted[j]),
            decreases out@.len() - k,
        {
            k = k + 1;
        }
        proof {
            lemma_insert_pos_at(sorted, x@, entry_order(), k as int);
        }
        out.insert(k, x);
        proof {
            let t = all.take(done + 1 as int);
            assert(t.drop_last() =~= all.take(done as int));
            assert(t.last() == x@);
            assert(entry_views(out@) =~= sorted.take(k as int) + seq![x@] + sorted.skip(k as int));
            done = done + 1;
            assert(all.skip(done as int) =~= all.skip(done - 1).drop_first());
        }
    }
    assert(all.take(done as int) =~= all);
    out
}

// ---------------------------------------------------------------------------
// The file
// ---------------------------------------------------------------------------

/// The bytes of a `.DS_Store` file holding the given entries, sorted by file
/// name, structure type and data type.
pub fn encode_entries(entries: Vec<DsStoreEntry>) -> (r: Result<Vec<u8>, Error>)
    ensures
        match spec_encode(entry_views(entries@)) {
            Ok(b) => r is Ok && r->Ok_0@ == b,
            Err(x) => r is Err && r->Err_0@ == x,
        },
{
    let records = sort_entries(entries);
    let leaf_records = match serialize_records(&records) {
        Ok(b) => b,
        Err(e) => {
            return Err(e);
        },
    };
    let required = if leaf_records.len() > usize::MAX - 8 { usize::MAX } else { leaf_records.len() + 8 };
    let (leaf_block_size, leaf_exp) = match block_size_for(required) {
        Some(v) => v,
        None => {
            return Err(Error::message("DS_Store size overflow"));
        },
    };
    let body_prefix_len: usize = 4 + 4 + 256 * 4 + 4 + 1 + 4 + 4;
    let body_start: usize = 36;
    let body_end = body_start + body_prefix_len;
    let master_block_offset = align_block_offset(body_end);
    assert(master_block_offset == 1092);
    let master_block_size: usize = 32;
    let leaf_block_offset = align_block_offset(master_block_offset + master_block_size);
    assert(leaf_block_offset == 1124);
    if leaf_block_size > usize::MAX - leaf_block_offset {
        return Err(Error::message("DS_Store size overflow"));
    }
    let master_word = match encode_block_address(master_block_offset, 5) {
        Ok(w) => w,
        Err(e) => {
            return Err(e);
        },
    };
    let leaf_word = match encode_block_address(leaf_block_offset, leaf_exp) {
        Ok(w) => w,
        Err(e) => {
            return Err(e);
        },
    };
    let count = records.len() as u32;
    let mut bytes: Vec<u8> = Vec::new();
    write_header(&mut bytes, body_prefix_len);
    write_body(&mut bytes, master_word, leaf_word, Ghost(leaf_exp as nat));
    push_zeros(&mut bytes, master_block_offset - body_end);
    write_master_block(&mut bytes, count);
    proof {
        lemma_grow_fits(required as int, 32, 5);
    }
    write_leaf_block(&mut bytes, &leaf_records, count, leaf_block_size);
    assert(bytes@ =~= layout(leaf_records@, count, leaf_block_size as int, leaf_exp as nat));
    Ok(bytes)
}

pub proof fn lemma_grow_fits(required: int, size: int, exp: nat)
    requires
        size > 0,
    ensures
        grow(required, size, exp).0 >= required,
        grow(required, size, exp).0 >= size,
    decreases (if size < required { required - size } else { 0 }),
{
    if size < required {
        lemma_grow_fits(required, 2 * size, exp + 1);
    }
}

} // verus!
