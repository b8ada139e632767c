//! Reading `.DS_Store` files: a header naming a block table, a directory of
//! B-trees, and B-tree blocks whose records are the entries.
use vstd::prelude::*;
use crate::error::{Error, ErrorView};
use crate::order::bytes_eq;
use crate::text::{append_chars, chars_of, dec, dec_u64, string_of};
use crate::unicode::{decode_utf16_lossy, text_from_utf8_lossy, utf16_lossy, utf8_text};
use super::{DsStoreEntry, DsStoreValue, EntryView, ValueView, entry_views};

verus! {

// ---------------------------------------------------------------------------
// The file format, as a specification
// ---------------------------------------------------------------------------

/// `"truncated DS_Store"`
pub open spec fn truncated() -> ErrorView {
    ErrorView::Message("truncated DS_Store"@)
}

/// Big-endian 16-bit value at `p`.
pub open spec fn be16(b: Seq<u8>, p: int) -> u16 {
    (b[p] as int * 256 + b[p + 1] as int) as u16
}

/// Big-endian 32-bit value at `p`.
pub open spec fn be32(b: Seq<u8>, p: int) -> u32 {
    (b[p] as int * 16777216 + b[p + 1] as int * 65536 + b[p + 2] as int * 256 + b[p + 3] as int) as u32
}

/// Big-endian 64-bit value at `p`.
pub open spec fn be64(b: Seq<u8>, p: int) -> u64 {
    (be32(b, p) as int * 4294967296 + be32(b, p + 4) as int) as u64
}

/// `n` big-endian 16-bit code units starting at `p`.
pub open spec fn units_at(b: Seq<u8>, p: int, n: nat) -> Seq<u16> {
    Seq::new(n, |k: int| be16(b, p + 2 * k))
}

/// Four-character codes.
pub open spec fn code_bool() -> Seq<u8> { seq![0x62u8, 0x6f, 0x6f, 0x6c] }
pub open spec fn code_comp() -> Seq<u8> { seq![0x63u8, 0x6f, 0x6d, 0x70] }
pub open spec fn code_dutc() -> Seq<u8> { seq![0x64u8, 0x75, 0x74, 0x63] }
pub open spec fn code_long() -> Seq<u8> { seq![0x6cu8, 0x6f, 0x6e, 0x67] }
pub open spec fn code_shor() -> Seq<u8> { seq![0x73u8, 0x68, 0x6f, 0x72] }
pub open spec fn code_type() -> Seq<u8> { seq![0x74u8, 0x79, 0x70, 0x65] }
pub open spec fn code_ustr() -> Seq<u8> { seq![0x75u8, 0x73, 0x74, 0x72] }
pub open spec fn code_blob() -> Seq<u8> { seq![0x62u8, 0x6c, 0x6f, 0x62] }
pub open spec fn code_bud1() -> Seq<u8> { seq![0x42u8, 0x75, 0x64, 0x31] }
pub open spec fn code_align() -> Seq<u8> { seq![0u8, 0, 0, 1] }

/// A record value as stored: numbers, raw four-character codes, UTF-16
/// code units and byte blobs.
pub enum RawValue {
    Bool(bool),
    U32(u32),
    U64(u64),
    FourCharCode(Seq<u8>),
    Str(Seq<u16>),
    Blob(Seq<u8>),
}

/// A record as stored.
pub struct RawRecord {
    pub name: Seq<u16>,
    pub structure_type: Seq<u8>,
    pub data_type: Seq<u8>,
    pub value: RawValue,
}

/// A string stored as a 32-bit count of UTF-16 code units and the units.
pub open spec fn read_units(b: Seq<u8>, p: int) -> Result<(Seq<u16>, int), ErrorView> {
    if p + 4 > b.len() {
        Err(truncated())
    } else {
        let n = be32(b, p) as int;
        if p + 4 + 2 * n > b.len() {
            Err(truncated())
        } else {
            Ok((units_at(b, p + 4, n as nat), p + 4 + 2 * n))
        }
    }
}

/// A value of data type `dt` stored at `p`.
pub open spec fn spec_value(b: Seq<u8>, p: int, dt: Seq<u8>) -> Result<(RawValue, int), ErrorView> {
    if dt == code_bool() {
        if p + 1 > b.len() { Err(truncated()) } else { Ok((RawValue::Bool(b[p] != 0), p + 1)) }
    } else if dt == code_comp() || dt == code_dutc() {
        if p + 8 > b.len() { Err(truncated()) } else { Ok((RawValue::U64(be64(b, p)), p + 8)) }
    } else if dt == code_long() || dt == code_shor() {
        if p + 4 > b.len() { Err(truncated()) } else { Ok((RawValue::U32(be32(b, p)), p + 4)) }
    } else if dt == code_type() {
        if p + 4 > b.len() { Err(truncated()) } else { Ok((RawValue::FourCharCode(b.subrange(p, p + 4)), p + 4)) }
    } else if dt == code_ustr() {
        match read_units(b, p) {
            Err(e) => Err(e),
            Ok((u, q)) => Ok((RawValue::Str(u), q)),
        }
    } else if dt == code_blob() {
        if p + 4 > b.len() {
            Err(truncated())
        } else {
            let n = be32(b, p) as int;
            if p + 4 + n > b.len() {
                Err(truncated())
            } else {
                Ok((RawValue::Blob(b.subrange(p + 4, p + 4 + n)), p + 4 + n))
            }
        }
    } else {
        Err(ErrorView::Message("unsupported DS_Store value type: "@ + utf8_text(dt)))
    }
}

/// A record stored at `p`: file name, structure type, data type, value.
pub open spec fn spec_record(b: Seq<u8>, p: int) -> Result<(RawRecord, int), ErrorView> {
    match read_units(b, p) {
        Err(e) => Err(e),
        Ok((name, p1)) => if p1 + 4 > b.len() {
            Err(truncated())
        } else if p1 + 8 > b.len() {
            Err(truncated())
        } else {
            let st = b.subrange(p1, p1 + 4);
            let dt = b.subrange(p1 + 4, p1 + 8);
            match spec_value(b, p1 + 8, dt) {
                Err(e) => Err(e),
                Ok((v, q)) => Ok((RawRecord { name, structure_type: st, data_type: dt, value: v }, q)),
            }
        },
    }
}

/// `n` consecutive records from `p`.
pub open spec fn spec_records(b: Seq<u8>, p: int, n: nat) -> Result<(Seq<RawRecord>, int), ErrorView>
    decreases n,
{
    if n == 0 {
        Ok((seq![], p))
    } else {
        match spec_records(b, p, (n - 1) as nat) {
            Err(e) => Err(e),
            Ok((rs, q)) => match spec_record(b, q) {
                Err(e) => Err(e),
                Ok((r, q2)) => Ok((rs.push(r), q2)),
            },
        }
    }
}

/// The entry a stored record stands for: names and strings decoded from
/// UTF-16, four-character codes from UTF-8.
pub open spec fn decode_record(r: RawRecord) -> EntryView {
    EntryView {
        filename: utf16_lossy(r.name),
        structure_type: utf8_text(r.structure_type),
        data_type: utf8_text(r.data_type),
        value: decode_value(r.value),
    }
}

/// The value a stored value stands for.
pub open spec fn decode_value(v: RawValue) -> ValueView {
    match v {
        RawValue::Bool(v) => ValueView::Bool(v),
        RawValue::U32(v) => ValueView::U32(v),
        RawValue::U64(v) => ValueView::U64(v),
        RawValue::FourCharCode(c) => ValueView::FourCharCode(utf8_text(c)),
        RawValue::Str(u) => ValueView::Str(utf16_lossy(u)),
        RawValue::Blob(b) => ValueView::Blob(b),
    }
}

/// The entries stored records stand for.
pub open spec fn decode_records(rs: Seq<RawRecord>) -> Seq<EntryView> {
    rs.map_values(|r: RawRecord| decode_record(r))
}

/// Where a block starts, from its table word (the low five bits give the size).
pub open spec fn addr_offset(raw: u32) -> int {
    (raw & 0xFFFF_FFE0u32) as int + 4
}

/// The size of a block, from its table word.
pub open spec fn addr_size(raw: u32) -> int {
    (1u64 << ((raw & 31u32) as u64)) as int
}

/// The bytes of block `id`, or why they cannot be had; `master` selects the
/// wording used for the directory's master block.
pub open spec fn spec_block(b: Seq<u8>, addrs: Seq<u32>, id: int, master: bool) -> Result<Seq<u8>, ErrorView> {
    if !(0 <= id < addrs.len()) {
        Err(ErrorView::Message(
            (if master { "invalid DS_Store master block id: "@ } else { "invalid DS_Store block id: "@ })
                + dec(id as nat),
        ))
    } else {
        let off = addr_offset(addrs[id]);
        let end = off + addr_size(addrs[id]);
        if end > usize::MAX {
            Err(ErrorView::Message(
                if master { "invalid DS_Store master block range"@ } else { "invalid DS_Store block range"@ },
            ))
        } else if end > b.len() {
            Err(ErrorView::Message(
                if master { "truncated DS_Store master block"@ } else { "truncated DS_Store block"@ },
            ))
        } else {
            Ok(b.subrange(off, end))
        }
    }
}

/// The error for a block tree nested deeper than any acyclic tree can be.
pub open spec fn too_deep() -> ErrorView {
    ErrorView::Message("DS_Store block tree too deep"@)
}

/// How many nested blocks a walk may enter. A block table has 256 entries, so
/// a deeper chain of blocks revisits one of its own ancestors and never ends.
pub open spec fn max_depth() -> nat {
    256
}

/// The records of the B-tree rooted at block `id`, in key order: a leaf
/// (mode 0) holds its records; an internal node holds (child, record) pairs
/// and names its rightmost child in its mode word. `fuel` bounds the nesting.
pub open spec fn spec_collect(b: Seq<u8>, addrs: Seq<u32>, id: int, fuel: nat) -> Result<Seq<RawRecord>, ErrorView>
    decreases fuel, 1nat, 0nat,
{
    match spec_block(b, addrs, id, false) {
        Err(e) => Err(e),
        Ok(blk) => if blk.len() < 8 {
            Err(truncated())
        } else {
            let mode = be32(blk, 0);
            let count = be32(blk, 4) as nat;
            if mode == 0 {
                match spec_records(blk, 8, count) {
                    Err(e) => Err(e),
                    Ok((rs, _)) => Ok(rs),
                }
            } else {
                match spec_internal(b, addrs, blk, count, fuel) {
                    Err(e) => Err(e),
                    Ok((rs, _)) => if fuel == 0 {
                        Err(too_deep())
                    } else {
                        match spec_collect(b, addrs, mode as int, (fuel - 1) as nat) {
                            Err(e) => Err(e),
                            Ok(cs) => Ok(rs + cs),
                        }
                    },
                }
            }
        },
    }
}

/// The first `n` (child, record) pairs of an internal node `blk`.
pub open spec fn spec_internal(b: Seq<u8>, addrs: Seq<u32>, blk: Seq<u8>, n: nat, fuel: nat) -> Result<(Seq<RawRecord>, int), ErrorView>
    decreases fuel, 0nat, n,
{
    if n == 0 {
        Ok((seq![], 8))
    } else {
        match spec_internal(b, addrs, blk, (n - 1) as nat, fuel) {
            Err(e) => Err(e),
            Ok((rs, q)) => if q + 4 > blk.len() {
                Err(truncated())
            } else if fuel == 0 {
                Err(too_deep())
            } else {
                match spec_collect(b, addrs, be32(blk, q) as int, (fuel - 1) as nat) {
                    Err(e) => Err(e),
                    Ok(cs) => match spec_record(blk, q + 4) {
                        Err(e) => Err(e),
                        Ok((r, q2)) => Ok((rs + cs.push(r), q2)),
                    },
                }
            },
        }
    }
}

/// The root block named by the master block `id`.
pub open spec fn spec_master(b: Seq<u8>, addrs: Seq<u32>, id: int) -> Result<int, ErrorView> {
    match spec_block(b, addrs, id, true) {
        Err(e) => Err(e),
        Ok(blk) => if blk.len() < 20 {
            Err(truncated())
        } else {
            Ok(be32(blk, 0) as int)
        },
    }
}

/// The first `n` directory records of the table body from `p`: a name
/// length byte, the name, and a master block id each.
pub open spec fn spec_dirs(body: Seq<u8>, p: int, n: nat) -> Result<(Seq<int>, int), ErrorView>
    decreases n,
{
    if n == 0 {
        Ok((seq![], p))
    } else {
        match spec_dirs(body, p, (n - 1) as nat) {
            Err(e) => Err(e),
            Ok((ds, q)) => if q + 1 > body.len() {
                Err(truncated())
            } else {
                let l = body[q] as int;
                if q + 1 + l > body.len() {
                    Err(truncated())
                } else if q + 1 + l + 4 > body.len() {
                    Err(truncated())
                } else {
                    Ok((ds.push(be32(body, q + 1 + l) as int), q + 1 + l + 4))
                }
            },
        }
    }
}

/// The records of the trees of the given directories, one after the other.
pub open spec fn spec_dir_records(b: Seq<u8>, addrs: Seq<u32>, dirs: Seq<int>) -> Result<Seq<RawRecord>, ErrorView>
    decreases dirs.len(),
{
    if dirs.len() == 0 {
        Ok(seq![])
    } else {
        match spec_dir_records(b, addrs, dirs.drop_last()) {
            Err(e) => Err(e),
            Ok(acc) => match spec_master(b, addrs, dirs.last()) {
                Err(e) => Err(e),
                Ok(root) => match spec_collect(b, addrs, root, max_depth()) {
                    Err(e) => Err(e),
                    Ok(rs) => Ok(acc + rs),
                },
            },
        }
    }
}

/// The block table held by a table body.
pub open spec fn table_of(body: Seq<u8>) -> Seq<u32> {
    Seq::new(256, |k: int| be32(body, 8 + 4 * k))
}

/// The records of the directories listed in a table body.
pub open spec fn from_dirs(b: Seq<u8>, body: Seq<u8>) -> Result<Seq<RawRecord>, ErrorView> {
    match spec_dirs(body, 1036, be32(body, 1032) as nat) {
        Err(e) => Err(e),
        Ok((dirs, _)) => spec_dir_records(b, table_of(body), dirs),
    }
}

/// The records a `.DS_Store` file holds, or why it cannot be read.
pub open spec fn spec_parse_raw(b: Seq<u8>) -> Result<Seq<RawRecord>, ErrorView> {
    if b.len() < 4 {
        Err(truncated())
    } else if b.take(4) != code_align() {
        Err(ErrorView::Message("invalid DS_Store alignment header"@))
    } else if b.len() < 8 {
        Err(truncated())
    } else if b.subrange(4, 8) != code_bud1() {
        Err(ErrorView::Message("invalid DS_Store buddy allocator header"@))
    } else if b.len() < 36 {
        Err(truncated())
    } else {
        let start = be32(b, 8) as int + 4;
        let end = start + be32(b, 12) as int;
        if start > usize::MAX {
            Err(ErrorView::Message("invalid DS_Store body offset"@))
        } else if end > usize::MAX {
            Err(ErrorView::Message("invalid DS_Store body length"@))
        } else if end > b.len() {
            Err(ErrorView::Message("truncated DS_Store body"@))
        } else {
            let body = b.subrange(start, end);
            if body.len() < 1036 {
                Err(truncated())
            } else {
                from_dirs(b, body)
            }
        }
    }
}

/// The entries a `.DS_Store` file holds, or why it cannot be read.
pub open spec fn spec_parse_entries(b: Seq<u8>) -> Result<Seq<EntryView>, ErrorView> {
    match spec_parse_raw(b) {
        Err(e) => Err(e),
        Ok(rs) => Ok(decode_records(rs)),
    }
}

// ---------------------------------------------------------------------------
// A cursor over a byte slice
// ---------------------------------------------------------------------------

/// A reading position in a byte slice.
struct Cursor<'a> {
    bytes: &'a [u8],
    pos: usize,
}

/// What a read from a cursor produced: the value and the new position, or
/// the error.
pub open spec fn reads<T: View>(r: Result<T, Error>, spec: Result<(T::V, int), ErrorView>, new_pos: usize) -> bool {
    match spec {
        Ok((v, q)) => r is Ok && r->Ok_0@ == v && new_pos == q,
        Err(e) => r is Err && r->Err_0@ == e,
    }
}

fn be32_exec(b: &[u8], p: usize) -> (v: u32)
    requires
        p + 4 <= b@.len(),
    ensures
        v == be32(b@, p as int),
{
    (b[p] as u32) * 16777216 + (b[p + 1] as u32) * 65536 + (b[p + 2] as u32) * 256 + (b[p + 3] as u32)
}

impl<'a> Cursor<'a> {
    fn new(bytes: &'a [u8]) -> (c: Self)
        ensures
            c.bytes@ == bytes@,
            c.pos == 0,
    {
        Cursor { bytes, pos: 0 }
    }

    fn read_bytes(&mut self, len: usize) -> (r: Result<&'a [u8], Error>)
        ensures
            final(self).bytes@ == old(self).bytes@,
            reads(r, if old(self).pos + len <= old(self).bytes@.len() {
                Ok::<(Seq<u8>, int), ErrorView>((old(self).bytes@.subrange(old(self).pos as int, old(self).pos + len), old(self).pos + len))
            } else {
                Err(truncated())
            }, final(self).pos),
    {
        if len > self.bytes.len() || self.pos > self.bytes.len() - len {
            return Err(Error::message("truncated DS_Store"));
        }
        let end = self.pos + len;
        let out = &self.bytes[self.pos..end];
        self.pos = end;
        Ok(out)
    }

    fn skip(&mut self, len: usize) -> (r: Result<(), Error>)
        ensures
            final(self).bytes@ == old(self).bytes@,
            old(self).pos + len <= old(self).bytes@.len() ==> r is Ok && final(self).pos == old(self).pos + len,
            old(self).pos + len > old(self).bytes@.len() ==> r is Err && r->Err_0@ == truncated(),
    {
        match self.read_bytes(len) {
            Ok(_) => Ok(()),
            Err(e) => Err(e),
        }
    }

    fn expect_bytes(&mut self, expected: &[u8], message: &str) -> (r: Result<(), Error>)
        ensures
            final(self).bytes@ == old(self).bytes@,
            old(self).pos + expected@.len() > old(self).bytes@.len() ==> r is Err && r->Err_0@ == truncated(),
            old(self).pos + expected@.len() <= old(self).bytes@.len() ==> {
                let got = old(self).bytes@.subrange(old(self).pos as int, old(self).pos + expected@.len());
                &&& got == expected@ ==> r is Ok && final(self).pos == old(self).pos + expected@.len()
                &&& got != expected@ ==> r is Err && r->Err_0@ == ErrorView::Message(message@)
            },
    {
        let actual = match self.read_bytes(expected.len()) {
            Ok(a) => a,
            Err(e) => {
                return Err(e);
            },
        };
        if !bytes_eq(actual, expected) {
            return Err(Error::message(message));
        }
        Ok(())
    }

    fn read_u8(&mut self) -> (r: Result<u8, Error>)
        ensures
            final(self).bytes@ == old(self).bytes@,
            reads(r, if old(self).pos + 1 <= old(self).bytes@.len() {
                Ok::<(u8, int), ErrorView>((old(self).bytes@[old(self).pos as int], old(self).pos + 1))
            } else {
                Err(truncated())
            }, final(self).pos),
    {
        if self.pos >= self.bytes.len() {
            return Err(Error::message("truncated DS_Store"));
        }
        let byte = self.bytes[self.pos];
        self.pos = self.pos + 1;
        Ok(byte)
    }

    fn read_u32_be(&mut self) -> (r: Result<u32, Error>)
        ensures
            final(self).bytes@ == old(self).bytes@,
            reads(r, if old(self).pos + 4 <= old(self).bytes@.len() {
                Ok::<(u32, int), ErrorView>((be32(old(self).bytes@, old(self).pos as int), old(self).pos + 4))
            } else {
                Err(truncated())
            }, final(self).pos),
    {
        if self.bytes.len() < 4 || self.pos > self.bytes.len() - 4 {
            return Err(Error::message("truncated DS_Store"));
        }
        let v = be32_exec(self.bytes, self.pos);
        self.pos = self.pos + 4;
        Ok(v)
    }

    fn read_u64_be(&mut self) -> (r: Result<u64, Error>)
        ensures
            final(self).bytes@ == old(self).bytes@,
            reads(r, if old(self).pos + 8 <= old(self).bytes@.len() {
                Ok::<(u64, int), ErrorView>((be64(old(self).bytes@, old(self).pos as int), old(self).pos + 8))
            } else {
                Err(truncated())
            }, final(self).pos),
    {
        if self.bytes.len() < 8 || self.pos > self.bytes.len() - 8 {
            return Err(Error::message("truncated DS_Store"));
        }
        let hi = be32_exec(self.bytes, self.pos) as u64;
        let lo = be32_exec(self.bytes, self.pos + 4) as u64;
        self.pos = self.pos + 8;
        Ok(hi * 4294967296 + lo)
    }

    fn read_fourcc(&mut self) -> (r: Result<String, Error>)
        ensures
            final(self).bytes@ == old(self).bytes@,
            reads(r, if old(self).pos + 4 <= old(self).bytes@.len() {
                Ok::<(Seq<char>, int), ErrorView>((utf8_text(old(self).bytes@.subrange(old(self).pos as int, old(self).pos + 4)), old(self).pos + 4))
            } else {
                Err(truncated())
            }, final(self).pos),
    {
        match self.read_bytes(4) {
            Ok(b) => Ok(text_from_utf8_lossy(b)),
            Err(e) => Err(e),
        }
    }

    fn read_ustr32(&mut self) -> (r: Result<String, Error>)
        ensures
            final(self).bytes@ == old(self).bytes@,
            reads(r, match read_units(old(self).bytes@, old(self).pos as int) {
                Ok((u, q)) => Ok::<(Seq<char>, int), ErrorView>((utf16_lossy(u), q)),
                Err(e) => Err(e),
            }, final(self).pos),
    {
        let len = match self.read_u32_be() {
            Ok(v) => v as usize,
            Err(e) => {
                return Err(e);
            },
        };
        if len > usize::MAX / 2 {
            let total = self.bytes.len();
            assert(old(self).bytes@.len() == total);
            return Err(Error::message("truncated DS_Store"));
        }
        let want: usize = len * 2;
        let bytes = match self.read_bytes(want) {
            Ok(b) => b,
            Err(e) => {
                return Err(e);
            },
        };
        let mut units: Vec<u16> = Vec::new();
        let mut k: usize = 0;
        while k < len
            invariant
                k <= len,
                bytes@.len() == 2 * len,
                units@ == units_at(bytes@, 0, k as nat),
            decreases len - k,
        {
            let blen = bytes.len();
            assert(2 * k + 1 < blen);
            let u = (bytes[2 * k] as u16) * 256 + (bytes[2 * k + 1] as u16);
            units.push(u);
            k = k + 1;
            assert(units@ =~= units_at(bytes@, 0, k as nat));
        }
        proof {
            let b0 = old(self).bytes@;
            let p = old(self).pos as int;
            assert(units@ =~= units_at(b0, p + 4, len as nat));
        }
        Ok(decode_utf16_lossy(&units))
    }

    fn read_ustr(&mut self) -> (r: Result<String, Error>)
        ensures
            final(self).bytes@ == old(self).bytes@,
            reads(r, match read_units(old(self).bytes@, old(self).pos as int) {
                Ok((u, q)) => Ok::<(Seq<char>, int), ErrorView>((utf16_lossy(u), q)),
                Err(e) => Err(e),
            }, final(self).pos),
    {
        self.read_ustr32()
    }

    fn read_blob(&mut self) -> (r: Result<Vec<u8>, Error>)
        ensures
            final(self).bytes@ == old(self).bytes@,
            reads(r, if old(self).pos + 4 > old(self).bytes@.len() {
                Err(truncated())
            } else if old(self).pos + 4 + be32(old(self).bytes@, old(self).pos as int) > old(self).bytes@.len() {
                Err(truncated())
            } else {
                let p = old(self).pos as int;
                let n = be32(old(self).bytes@, p) as int;
                Ok::<(Seq<u8>, int), ErrorView>((old(self).bytes@.subrange(p + 4, p + 4 + n), p + 4 + n))
            }, final(self).pos),
    {
        let len = match self.read_u32_be() {
            Ok(v) => v as usize,
            Err(e) => {
                return Err(e);
            },
        };
        match self.read_bytes(len) {
            Ok(b) => Ok(copy_bytes(b)),
            Err(e) => Err(e),
        }
    }
}

fn copy_bytes(b: &[u8]) -> (out: Vec<u8>)
    ensures
        out@ == b@,
{
    let mut out: Vec<u8> = Vec::new();
    let mut k: usize = 0;
    while k < b.len()
        invariant
            k <= b@.len(),
            out@ == b@.take(k as int),
        decreases b@.len() - k,
    {
        out.push(b[k]);
        k = k + 1;
        assert(out@ =~= b@.take(k as int));
    }
    assert(b@.take(b@.len() as int) =~= b@);
    out
}


// ---------------------------------------------------------------------------
// Records
// ---------------------------------------------------------------------------

fn code_is(dt: &[u8], a: u8, b: u8, c: u8, d: u8) -> (r: bool)
    ensures
        r == (dt@ == seq![a, b, c, d]),
{
    let r = dt.len() == 4 && dt[0] == a && dt[1] == b && dt[2] == c && dt[3] == d;
    proof {
        if r {
            assert(dt@ =~= seq![a, b, c, d]);
        }
        if dt@ == seq![a, b, c, d] {
            assert(dt@.len() == 4 && dt@[0] == a && dt@[1] == b && dt@[2] == c && dt@[3] == d);
        }
    }
    r
}

fn message_with(prefix: &str, rest: &String) -> (e: Error)
    ensures
        e@ == ErrorView::Message(prefix@ + rest@),
{
    let mut v = chars_of(prefix);
    append_chars(&mut v, &chars_of(rest.as_str()));
    Error::Message(string_of(v.as_slice()))
}

fn message_with_number(prefix: &str, n: usize) -> (e: Error)
    ensures
        e@ == ErrorView::Message(prefix@ + dec(n as nat)),
{
    let mut v = chars_of(prefix);
    append_chars(&mut v, &dec_u64(n as u64));
    Error::Message(string_of(v.as_slice()))
}

/// What reading a record at a cursor produced.
pub open spec fn reads_record(r: Result<DsStoreEntry, Error>, b: Seq<u8>, p: int, new_pos: usize) -> bool {
    match spec_record(b, p) {
        Ok((rec, q)) => r is Ok && r->Ok_0@ == decode_record(rec) && new_pos == q,
        Err(e) => r is Err && r->Err_0@ == e,
    }
}

fn parse_record(cursor: &mut Cursor) -> (r: Result<DsStoreEntry, Error>)
    ensures
        final(cursor).bytes@ == old(cursor).bytes@,
        reads_record(r, old(cursor).bytes@, old(cursor).pos as int, final(cursor).pos),
{
    let ghost b = cursor.bytes@;
    let filename = match cursor.read_ustr32() {
        Ok(v) => v,
        Err(e) => {
            return Err(e);
        },
    };
    let structure_type = match cursor.read_fourcc() {
        Ok(v) => v,
        Err(e) => {
            return Err(e);
        },
    };
    let dt = match cursor.read_bytes(4) {
        Ok(v) => v,
        Err(e) => {
            return Err(e);
        },
    };
    let data_type = text_from_utf8_lossy(dt);
    let ghost p3 = cursor.pos as int;
    let value = if code_is(dt, 0x62, 0x6f, 0x6f, 0x6c) {
        match cursor.read_u8() {
            Ok(v) => DsStoreValue::Bool(v != 0),
            Err(e) => {
                return Err(e);
            },
        }
    } else if code_is(dt, 0x63, 0x6f, 0x6d, 0x70) || code_is(dt, 0x64, 0x75, 0x74, 0x63) {
        match cursor.read_u64_be() {
            Ok(v) => DsStoreValue::U64(v),
            Err(e) => {
                return Err(e);
            },
        }
    } else if code_is(dt, 0x6c, 0x6f, 0x6e, 0x67) || code_is(dt, 0x73, 0x68, 0x6f, 0x72) {
        match cursor.read_u32_be() {
            Ok(v) => DsStoreValue::U32(v),
            Err(e) => {
                return Err(e);
            },
        }
    } else if code_is(dt, 0x74, 0x79, 0x70, 0x65) {
        match cursor.read_fourcc() {
            Ok(v) => DsStoreValue::FourCharCode(v),
            Err(e) => {
                return Err(e);
            },
        }
    } else if code_is(dt, 0x75, 0x73, 0x74, 0x72) {
        match cursor.read_ustr() {
            Ok(v) => DsStoreValue::String(v),
            Err(e) => {
                return Err(e);
            },
        }
    } else if code_is(dt, 0x62, 0x6c, 0x6f, 0x62) {
        match cursor.read_blob() {
            Ok(v) => DsStoreValue::Blob(v),
            Err(e) => {
                return Err(e);
            },
        }
    } else {
        return Err(message_with("unsupported DS_Store value type: ", &data_type));
    };
    Ok(DsStoreEntry { filename, structure_type, data_type, value })
}

// ---------------------------------------------------------------------------
// Blocks
// ---------------------------------------------------------------------------

/// Where a block lies in the file.
#[derive(Debug, Clone, Copy)]
struct BlockAddress {
    offset: usize,
    size: usize,
}

impl BlockAddress {
    fn new(address_raw: u32) -> (a: Self)
        ensures
            a.offset == addr_offset(address_raw),
            a.size == addr_size(address_raw),
    {
        let base = address_raw & 0xFFFF_FFE0u32;
        let low = address_raw & 31u32;
        assert(low < 32) by (bit_vector)
            requires
                low == address_raw & 31u32,
        ;
        assert(base <= 0xFFFF_FFE0u32) by (bit_vector)
            requires
                base == address_raw & 0xFFFF_FFE0u32,
        ;
        let shift = low as u64;
        let size64: u64 = 1u64 << shift;
        assert(size64 <= 0x8000_0000u64) by (bit_vector)
            requires
                shift < 32,
                size64 == 1u64 << shift,
        ;
        BlockAddress { offset: base as usize + 4, size: size64 as usize }
    }
}

fn block_slice<'b>(bytes: &'b [u8], words: &Vec<u32>, id: usize, master: bool) -> (r: Result<&'b [u8], Error>)
    ensures
        match spec_block(bytes@, words@, id as int, master) {
            Ok(blk) => r is Ok && r->Ok_0@ == blk,
            Err(e) => r is Err && r->Err_0@ == e,
        },
{
    if id >= words.len() {
        return Err(message_with_number(
            if master { "invalid DS_Store master block id: " } else { "invalid DS_Store block id: " },
            id,
        ));
    }
    let address = BlockAddress::new(words[id]);
    let end = match address.offset.checked_add(address.size) {
        Some(end) => end,
        None => {
            return Err(Error::message(
                if master { "invalid DS_Store master block range" } else { "invalid DS_Store block range" },
            ));
        },
    };
    if end > bytes.len() {
        return Err(Error::message(
            if master { "truncated DS_Store master block" } else { "truncated DS_Store block" },
        ));
    }
    Ok(&bytes[address.offset..end])
}

fn parse_master_block(bytes: &[u8], words: &Vec<u32>, block_id: usize) -> (r: Result<usize, Error>)
    ensures
        match spec_master(bytes@, words@, block_id as int) {
            Ok(root) => r is Ok && r->Ok_0 == root,
            Err(e) => r is Err && r->Err_0@ == e,
        },
{
    let blk = match block_slice(bytes, words, block_id, true) {
        Ok(b) => b,
        Err(e) => {
            return Err(e);
        },
    };
    let mut cursor = Cursor::new(blk);
    let root_block_id = match cursor.read_u32_be() {
        Ok(v) => v as usize,
        Err(e) => {
            return Err(e);
        },
    };
    let mut k: usize = 0;
    while k < 4
        invariant
            cursor.bytes@ == blk@,
            cursor.pos == 4 + 4 * k,
            4 + 4 * k <= blk@.len(),
            spec_block(bytes@, words@, block_id as int, true) is Ok,
            blk@ == spec_block(bytes@, words@, block_id as int, true)->Ok_0,
            k <= 4,
            blk@.len() >= 4,
            root_block_id == be32(blk@, 0),
        decreases 4 - k,
    {
        match cursor.read_u32_be() {
            Ok(_) => {},
            Err(e) => {
                return Err(e);
            },
        }
        k = k + 1;
    }
    Ok(root_block_id)
}

proof fn lemma_records_err(b: Seq<u8>, p: int, i: nat, n: nat)
    requires
        i <= n,
        spec_records(b, p, i) is Err,
    ensures
        spec_records(b, p, n) == spec_records(b, p, i),
    decreases n - i,
{
    if i < n {
        lemma_records_err(b, p, i, (n - 1) as nat);
    }
}

proof fn lemma_internal_err(b: Seq<u8>, addrs: Seq<u32>, blk: Seq<u8>, i: nat, n: nat, fuel: nat)
    requires
        i <= n,
        spec_internal(b, addrs, blk, i, fuel) is Err,
    ensures
        spec_internal(b, addrs, blk, n, fuel) == spec_internal(b, addrs, blk, i, fuel),
    decreases n - i,
{
    if i < n {
        lemma_internal_err(b, addrs, blk, i, (n - 1) as nat, fuel);
    }
}

proof fn lemma_decode_concat(a: Seq<RawRecord>, c: Seq<RawRecord>)
    ensures
        decode_records(a + c) == decode_records(a) + decode_records(c),
{
    assert(decode_records(a + c) =~= decode_records(a) + decode_records(c));
}

fn collect_block_entries(
    bytes: &[u8],
    words: &Vec<u32>,
    block_id: usize,
    fuel: usize,
    out: &mut Vec<DsStoreEntry>,
) -> (r: Result<(), Error>)
    ensures
        match spec_collect(bytes@, words@, block_id as int, fuel as nat) {
            Ok(rs) => r is Ok && entry_views(final(out)@) == entry_views(old(out)@) + decode_records(rs),
            Err(e) => r is Err && r->Err_0@ == e,
        },
    decreases fuel,
{
    let ghost start = entry_views(out@);
    let blk = match block_slice(bytes, words, block_id, false) {
        Ok(b) => b,
        Err(e) => {
            return Err(e);
        },
    };
    let mut cursor = Cursor::new(blk);
    let mode = match cursor.read_u32_be() {
        Ok(v) => v as usize,
        Err(e) => {
            return Err(e);
        },
    };
    let count = match cursor.read_u32_be() {
        Ok(v) => v as usize,
        Err(e) => {
            return Err(e);
        },
    };
    assert(blk@.len() >= 8);
    if mode == 0 {
        let mut i: usize = 0;
        assert(entry_views(out@) =~= start + decode_records(seq![]));
        while i < count
            invariant
                i <= count,
                count == be32(blk@, 4),
                mode == be32(blk@, 0),
                mode == 0,
                blk@.len() >= 8,
                spec_block(bytes@, words@, block_id as int, false) is Ok,
                blk@ == spec_block(bytes@, words@, block_id as int, false)->Ok_0,
                cursor.bytes@ == blk@,
                spec_records(blk@, 8, i as nat) matches Ok((rs, q)) && q == cursor.pos
                    && entry_views(out@) == start + decode_records(rs),
            decreases count - i,
        {
            let ghost prev = spec_records(blk@, 8, i as nat);
            match parse_record(&mut cursor) {
                Ok(entry) => {
                    let ghost before = entry_views(out@);
                    out.push(entry);
                    proof {
                        let (rs, q) = prev->Ok_0;
                        let (rec, q2) = spec_record(blk@, q)->Ok_0;
                        assert(entry_views(out@) =~= before.push(decode_record(rec)));
                        assert(decode_records(rs.push(rec)) =~= decode_records(rs).push(decode_record(rec)));
                        assert(entry_views(out@) =~= start + decode_records(rs.push(rec)));
                    }
                },
                Err(e) => {
                    proof {
                        lemma_records_err(blk@, 8, (i + 1) as nat, count as nat);
                    }
                    return Err(e);
                },
            }
            i = i + 1;
        }
        return Ok(());
    }
    let mut i: usize = 0;
    assert(entry_views(out@) =~= start + decode_records(seq![]));
    while i < count
        invariant
            i <= count,
            count == be32(blk@, 4),
            mode == be32(blk@, 0),
            mode != 0,
            blk@.len() >= 8,
            spec_block(bytes@, words@, block_id as int, false) is Ok,
            blk@ == spec_block(bytes@, words@, block_id as int, false)->Ok_0,
            cursor.bytes@ == blk@,
            spec_internal(bytes@, words@, blk@, i as nat, fuel as nat) matches Ok((rs, q)) && q
                == cursor.pos && entry_views(out@) == start + decode_records(rs),
        decreases count - i,
    {
        let ghost prev = spec_internal(bytes@, words@, blk@, i as nat, fuel as nat);
        let child_block_id = match cursor.read_u32_be() {
            Ok(v) => v as usize,
            Err(e) => {
                proof {
                    lemma_internal_err(bytes@, words@, blk@, (i + 1) as nat, count as nat, fuel as nat);
                }
                return Err(e);
            },
        };
        if fuel == 0 {
            proof {
                lemma_internal_err(bytes@, words@, blk@, (i + 1) as nat, count as nat, fuel as nat);
            }
            return Err(Error::message("DS_Store block tree too deep"));
        }
        let ghost mid = entry_views(out@);
        match collect_block_entries(bytes, words, child_block_id, fuel - 1, out) {
            Ok(()) => {},
            Err(e) => {
                proof {
                    lemma_internal_err(bytes@, words@, blk@, (i + 1) as nat, count as nat, fuel as nat);
                }
                return Err(e);
            },
        }
        match parse_record(&mut cursor) {
            Ok(entry) => {
                let ghost before = entry_views(out@);
                out.push(entry);
                proof {
                    let (rs, q) = prev->Ok_0;
                    let cs = spec_collect(bytes@, words@, be32(blk@, q) as int, (fuel - 1) as nat)->Ok_0;
                    let (rec, q2) = spec_record(blk@, q + 4)->Ok_0;
                    assert(entry_views(out@) =~= before.push(decode_record(rec)));
                    lemma_decode_concat(rs, cs.push(rec));
                    assert(decode_records(cs.push(rec)) =~= decode_records(cs).push(decode_record(rec)));
                    assert(entry_views(out@) =~= start + decode_records(rs + cs.push(rec)));
                }
            },
            Err(e) => {
                proof {
                    lemma_internal_err(bytes@, words@, blk@, (i + 1) as nat, count as nat, fuel as nat);
                }
                return Err(e);
            },
        }
        i = i + 1;
    }
    if fuel == 0 {
        return Err(Error::message("DS_Store block tree too deep"));
    }
    let ghost rs = spec_internal(bytes@, words@, blk@, count as nat, fuel as nat)->Ok_0.0;
    let ghost mid = entry_views(out@);
    match collect_block_entries(bytes, words, mode, fuel - 1, out) {
        Ok(()) => {
            proof {
                let cs = spec_collect(bytes@, words@, mode as int, (fuel - 1) as nat)->Ok_0;
                lemma_decode_concat(rs, cs);
                assert(entry_views(out@) =~= start + decode_records(rs + cs));
            }
            Ok(())
        },
        Err(e) => Err(e),
    }
}

// ---------------------------------------------------------------------------
// The file
// ---------------------------------------------------------------------------

proof fn lemma_dirs_err(body: Seq<u8>, p: int, i: nat, n: nat)
    requires
        i <= n,
        spec_dirs(body, p, i) is Err,
    ensures
        spec_dirs(body, p, n) == spec_dirs(body, p, i),
    decreases n - i,
{
    if i < n {
        lemma_dirs_err(body, p, i, (n - 1) as nat);
    }
}

proof fn lemma_dir_records_err(b: Seq<u8>, addrs: Seq<u32>, dirs: Seq<int>, i: int)
    requires
        0 <= i <= dirs.len(),
        spec_dir_records(b, addrs, dirs.take(i)) is Err,
    ensures
        spec_dir_records(b, addrs, dirs) == spec_dir_records(b, addrs, dirs.take(i)),
    decreases dirs.len() - i,
{
    if i < dirs.len() {
        assert(dirs.take(i + 1).drop_last() =~= dirs.take(i));
        lemma_dir_records_err(b, addrs, dirs, i + 1);
    } else {
        assert(dirs.take(i) =~= dirs);
    }
}

/// The entries of a `.DS_Store` file, in the order its trees hold them.
pub fn parse_entries(bytes: &[u8]) -> (r: Result<Vec<DsStoreEntry>, Error>)
    ensures
        match spec_parse_entries(bytes@) {
            Ok(es) => r is Ok && entry_views(r->Ok_0@) == es,
            Err(e) => r is Err && r->Err_0@ == e,
        },
{
    let total = bytes.len();
    let mut cursor = Cursor::new(bytes);
    match cursor.expect_bytes(&[0u8, 0, 0, 1], "invalid DS_Store alignment header") {
        Ok(()) => {},
        Err(e) => {
            proof {
                if bytes@.len() >= 4 {
                    assert([0u8, 0, 0, 1]@ =~= code_align());
                    assert(bytes@.subrange(0, 4) =~= bytes@.take(4));
                }
            }
            return Err(e);
        },
    }
    assert([0u8, 0, 0, 1]@ =~= code_align());
    assert(bytes@.subrange(0, 4) =~= bytes@.take(4));
    match cursor.expect_bytes(&[0x42u8, 0x75, 0x64, 0x31], "invalid DS_Store buddy allocator header") {
        Ok(()) => {},
        Err(e) => {
            proof {
                assert([0x42u8, 0x75, 0x64, 0x31]@ =~= code_bud1());
            }
            return Err(e);
        },
    }
    assert([0x42u8, 0x75, 0x64, 0x31]@ =~= code_bud1());
    if total < 36 {
        return Err(Error::message("truncated DS_Store"));
    }
    let offset = match cursor.read_u32_be() {
        Ok(v) => v as usize,
        Err(e) => {
            return Err(e);
        },
    };
    let len = match cursor.read_u32_be() {
        Ok(v) => v as usize,
        Err(e) => {
            return Err(e);
        },
    };
    let body_start = match offset.checked_add(4) {
        Some(v) => v,
        None => {
            return Err(Error::message("invalid DS_Store body offset"));
        },
    };
    let body_end = match body_start.checked_add(len) {
        Some(v) => v,
        None => {
            return Err(Error::message("invalid DS_Store body length"));
        },
    };
    if body_end > bytes.len() {
        return Err(Error::message("truncated DS_Store body"));
    }
    let body = &bytes[body_start..body_end];
    if body.len() < 1036 {
        return Err(Error::message("truncated DS_Store"));
    }
    let mut body_cursor = Cursor::new(body);
    let mut words: Vec<u32> = Vec::new();
    let mut k: usize = 0;
    while k < 256
        invariant
            k <= 256,
            body@.len() >= 1036,
            words@ == table_of(body@).take(k as int),
        decreases 256 - k,
    {
        words.push(be32_exec(body, 8 + 4 * k));
        k = k + 1;
        assert(words@ =~= table_of(body@).take(k as int));
    }
    assert(words@ =~= table_of(body@));
    let num_directories = be32_exec(body, 1032) as usize;
    assert(spec_parse_raw(bytes@) == from_dirs(bytes@, body@));
    body_cursor.pos = 1036;
    let mut directories: Vec<usize> = Vec::new();
    let mut d: usize = 0;
    assert(spec_dirs(body@, 1036, 0) == Ok::<(Seq<int>, int), ErrorView>((seq![], 1036)));
    while d < num_directories
        invariant
            d <= num_directories,
            num_directories == be32(body@, 1032),
            spec_parse_raw(bytes@) == from_dirs(bytes@, body@),
            words@ == table_of(body@),
            body_cursor.bytes@ == body@,
            spec_dirs(body@, 1036, d as nat) matches Ok((ds, q)) && q == body_cursor.pos && ds
                == directories@.map_values(|x: usize| x as int),
        decreases num_directories - d,
    {
        let ghost prev = spec_dirs(body@, 1036, d as nat);
        let len_name = match body_cursor.read_u8() {
            Ok(v) => v as usize,
            Err(e) => {
                proof {
                    lemma_dirs_err(body@, 1036, (d + 1) as nat, num_directories as nat);
                }
                return Err(e);
            },
        };
        match body_cursor.skip(len_name) {
            Ok(()) => {},
            Err(e) => {
                proof {
                    lemma_dirs_err(body@, 1036, (d + 1) as nat, num_directories as nat);
                }
                return Err(e);
            },
        }
        let block_id = match body_cursor.read_u32_be() {
            Ok(v) => v as usize,
            Err(e) => {
                proof {
                    lemma_dirs_err(body@, 1036, (d + 1) as nat, num_directories as nat);
                }
                return Err(e);
            },
        };
        let ghost old_dirs = directories@;
        directories.push(block_id);
        assert(directories@.map_values(|x: usize| x as int) =~= old_dirs.map_values(|x: usize| x as int).push(
            block_id as int,
        ));
        d = d + 1;
    }
    let ghost dirs = spec_dirs(body@, 1036, num_directories as nat)->Ok_0.0;
    let mut entries: Vec<DsStoreEntry> = Vec::new();
    let mut j: usize = 0;
    assert(dirs.take(0) =~= Seq::<int>::empty());
    assert(entry_views(entries@) =~= decode_records(seq![]));
    while j < directories.len()
        invariant
            j <= directories@.len(),
            dirs == directories@.map_values(|x: usize| x as int),
            words@ == table_of(body@),
            spec_parse_raw(bytes@) == spec_dir_records(bytes@, words@, dirs),
            spec_dir_records(bytes@, words@, dirs.take(j as int)) matches Ok(rs) && entry_views(entries@)
                == decode_records(rs),
        decreases directories@.len() - j,
    {
        assert(dirs.take(j + 1).drop_last() =~= dirs.take(j as int));
        assert(dirs.take(j + 1).last() == directories@[j as int] as int);
        let root_block_id = match parse_master_block(bytes, &words, directories[j]) {
            Ok(v) => v,
            Err(e) => {
                proof {
                    lemma_dir_records_err(bytes@, words@, dirs, j + 1);
                }
                return Err(e);
            },
        };
        let ghost acc = spec_dir_records(bytes@, words@, dirs.take(j as int))->Ok_0;
        match collect_block_entries(bytes, &words, root_block_id, 256, &mut entries) {
            Ok(()) => {
                proof {
                    let rs = spec_collect(bytes@, words@, root_block_id as int, max_depth())->Ok_0;
                    lemma_decode_concat(acc, rs);
                }
            },
            Err(e) => {
                proof {
                    lemma_dir_records_err(bytes@, words@, dirs, j + 1);
                }
                return Err(e);
            },
        }
        j = j + 1;
    }
    assert(dirs.take(directories@.len() as int) =~= dirs);
    Ok(entries)
}

} // verus!
