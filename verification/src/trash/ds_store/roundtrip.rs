//! Reading back what was written: a file encoded from some entries parses
//! to those entries, in file order.
use vstd::prelude::*;
use vstd::arithmetic::power2::{lemma2_to64, lemma_pow2_pos, lemma_pow2_strictly_increases, lemma_pow2_unfold, pow2};
use vstd::bits::lemma_u64_shl_is_mul;
use vstd::utf8::{encode_utf8, encode_utf8_decode_utf8, encode_utf8_valid_utf8};
use crate::error::ErrorView;
use crate::order::{
    bytes_lt, lemma_bytes_lt_irreflexive, lemma_bytes_lt_transitive, lemma_sort_by_contains, lemma_sort_by_ordered,
    ordered_by, sort_by, strict_order,
};
use crate::path::spec_file_name;
use crate::unicode::{lemma_utf16_roundtrip, utf16_encode, utf8_text};
use super::{
    EntryView, ValueView, existing_entries, is_location_of, location_entry, ptbl, ptbn, recorded_parent,
    spec_remove, spec_remove_file, spec_upsert, spec_upsert_file,
};
use super::read::{
    RawRecord, addr_size, be32, be64, code_align, code_blob, code_bool, code_bud1, code_comp, code_dutc,
    code_long, code_shor, code_type, code_ustr, decode_record, decode_records, decode_value,
    max_depth, read_units, spec_block, spec_collect, spec_dir_records, spec_dirs, spec_internal, spec_master,
    spec_parse_entries, spec_parse_raw, spec_record, spec_records, spec_value, table_of, units_at,
};
use super::write::{
    body_bytes, enc_fourcc, enc_record, enc_records, enc_ustr, enc_value, entry_order, grow,
    layout, leaf_bytes, lemma_grow_fits, code_dsdb, master_bytes, spec_encode, u32_be, u64_be, units_be, zeros,
};

verus! {

// ---------------------------------------------------------------------------
// Bytes in place
// ---------------------------------------------------------------------------

/// The bytes `w` stand in `b` from position `p` on.
pub open spec fn holds_at(b: Seq<u8>, p: int, w: Seq<u8>) -> bool {
    0 <= p && p + w.len() <= b.len() && b.subrange(p, p + w.len()) == w
}

proof fn lemma_holds_split(b: Seq<u8>, p: int, x: Seq<u8>, y: Seq<u8>)
    requires
        holds_at(b, p, x + y),
    ensures
        holds_at(b, p, x),
        holds_at(b, p + x.len(), y),
{
    assert forall|k: int| 0 <= k < x.len() implies b.subrange(p, p + x.len())[k] == x[k] by {
        assert(b.subrange(p, p + (x + y).len())[k] == (x + y)[k]);
    }
    assert(b.subrange(p, p + x.len()) =~= x);
    assert forall|k: int| 0 <= k < y.len() implies b.subrange(p + x.len(), p + x.len() + y.len())[k] == y[k] by {
        assert(b.subrange(p, p + (x + y).len())[x.len() + k] == (x + y)[x.len() + k]);
    }
    assert(b.subrange(p + x.len(), p + x.len() + y.len()) =~= y);
}

proof fn lemma_holds_byte(b: Seq<u8>, p: int, w: Seq<u8>, k: int)
    requires
        holds_at(b, p, w),
        0 <= k < w.len(),
    ensures
        b[p + k] == w[k],
{
    assert(b.subrange(p, p + w.len())[k] == w[k]);
}

proof fn lemma_u32_digits(v: u32)
    ensures
        (v / 16777216) * 16777216 + ((v / 65536) % 256) * 65536 + ((v / 256) % 256) * 256 + v % 256 == v,
        v / 16777216 < 256,
{
    assert((v / 16777216) * 16777216 + ((v / 65536) % 256) * 65536 + ((v / 256) % 256) * 256 + v % 256 == v)
        by (bit_vector);
    assert(v / 16777216 < 256) by (bit_vector);
}

/// A 32-bit value written big-endian reads back.
proof fn lemma_be32(b: Seq<u8>, p: int, v: u32)
    requires
        holds_at(b, p, u32_be(v)),
    ensures
        be32(b, p) == v,
{
    let w = u32_be(v);
    lemma_holds_byte(b, p, w, 0);
    lemma_holds_byte(b, p, w, 1);
    lemma_holds_byte(b, p, w, 2);
    lemma_holds_byte(b, p, w, 3);
    lemma_u32_digits(v);
}

proof fn lemma_u64_halves(v: u64)
    ensures
        (v / 4294967296) * 4294967296 + v % 4294967296 == v,
        v / 4294967296 <= 0xFFFF_FFFF,
{
    assert((v / 4294967296) * 4294967296 + v % 4294967296 == v) by (bit_vector);
    assert(v / 4294967296 <= 0xFFFF_FFFF) by (bit_vector);
}

/// A 64-bit value written big-endian reads back.
proof fn lemma_be64(b: Seq<u8>, p: int, v: u64)
    requires
        holds_at(b, p, u64_be(v)),
    ensures
        be64(b, p) == v,
{
    lemma_u64_halves(v);
    let hi = (v / 4294967296) as u32;
    let lo = (v % 4294967296) as u32;
    lemma_holds_split(b, p, u32_be(hi), u32_be(lo));
    lemma_be32(b, p, hi);
    lemma_be32(b, p + 4, lo);
}

proof fn lemma_units_be(u: Seq<u16>)
    ensures
        units_be(u).len() == 2 * u.len(),
        forall|k: int| 0 <= k < u.len() ==> #[trigger] units_be(u)[2 * k] == (u[k] / 256) as u8
            && units_be(u)[2 * k + 1] == (u[k] % 256) as u8,
    decreases u.len(),
{
    if u.len() > 0 {
        lemma_units_be(u.drop_last());
        let pre = units_be(u.drop_last());
        assert forall|k: int| 0 <= k < u.len() implies #[trigger] units_be(u)[2 * k] == (u[k] / 256) as u8
            && units_be(u)[2 * k + 1] == (u[k] % 256) as u8 by {
            if k < u.len() - 1 {
                assert(pre[2 * k] == (u.drop_last()[k] / 256) as u8);
            }
        }
    }
}

proof fn lemma_u16_digits(v: u16)
    ensures
        (v / 256) * 256 + v % 256 == v,
        v / 256 < 256,
{
}

/// A string written as a count and UTF-16 units reads back as its units.
proof fn lemma_read_units(b: Seq<u8>, p: int, s: Seq<char>)
    requires
        enc_ustr(s) is Ok,
        holds_at(b, p, enc_ustr(s)->Ok_0),
    ensures
        read_units(b, p) == Ok::<(Seq<u16>, int), ErrorView>((utf16_encode(s), p + enc_ustr(s)->Ok_0.len())),
{
    let u = utf16_encode(s);
    let n = u.len() as u32;
    lemma_units_be(u);
    lemma_holds_split(b, p, u32_be(n), units_be(u));
    lemma_be32(b, p, n);
    let q = p + 4;
    assert forall|k: int| 0 <= k < u.len() implies #[trigger] units_at(b, q, n as nat)[k] == u[k] by {
        lemma_holds_byte(b, q, units_be(u), 2 * k);
        lemma_holds_byte(b, q, units_be(u), 2 * k + 1);
        assert(units_be(u)[2 * k] == (u[k] / 256) as u8);
        lemma_u16_digits(u[k]);
    }
    assert(units_at(b, q, n as nat) =~= u);
}

/// The UTF-8 bytes of a string decode to the string.
proof fn lemma_utf8_back(s: Seq<char>)
    ensures
        utf8_text(encode_utf8(s)) == s,
{
    encode_utf8_valid_utf8(s);
    encode_utf8_decode_utf8(s);
}

proof fn lemma_codes_differ()
    ensures
        code_bool() != code_comp(), code_bool() != code_dutc(), code_bool() != code_long(),
        code_bool() != code_shor(), code_bool() != code_type(), code_bool() != code_ustr(),
        code_bool() != code_blob(),
        code_comp() != code_long(), code_comp() != code_shor(), code_comp() != code_type(),
        code_comp() != code_ustr(), code_comp() != code_blob(),
        code_dutc() != code_long(), code_dutc() != code_shor(), code_dutc() != code_type(),
        code_dutc() != code_ustr(), code_dutc() != code_blob(),
        code_long() != code_type(), code_long() != code_ustr(), code_long() != code_blob(),
        code_shor() != code_type(), code_shor() != code_ustr(), code_shor() != code_blob(),
        code_type() != code_ustr(), code_type() != code_blob(),
        code_ustr() != code_blob(),
{
    assert(code_bool()[0] == 0x62 && code_bool()[1] == 0x6f);
    assert(code_comp()[0] == 0x63);
    assert(code_dutc()[0] == 0x64);
    assert(code_long()[0] == 0x6c);
    assert(code_shor()[0] == 0x73);
    assert(code_type()[0] == 0x74);
    assert(code_ustr()[0] == 0x75);
    assert(code_blob()[0] == 0x62 && code_blob()[1] == 0x6c);
}

/// A value written for its data type reads back as itself.
proof fn lemma_value(b: Seq<u8>, p: int, dt: Seq<char>, v: ValueView)
    requires
        enc_value(dt, v) is Ok,
        holds_at(b, p, enc_value(dt, v)->Ok_0),
        enc_value(dt, v)->Ok_0.len() <= u32::MAX,
    ensures
        spec_value(b, p, encode_utf8(dt)) is Ok,
        spec_value(b, p, encode_utf8(dt))->Ok_0.1 == p + enc_value(dt, v)->Ok_0.len(),
        decode_value(spec_value(b, p, encode_utf8(dt))->Ok_0.0) == v,
{
    lemma_codes_differ();
    let d = encode_utf8(dt);
    let w = enc_value(dt, v)->Ok_0;
    if d == code_bool() && v is Bool {
        lemma_holds_byte(b, p, w, 0);
    } else if (d == code_long() || d == code_shor()) && v is U32 {
        lemma_be32(b, p, v->U32_0);
    } else if (d == code_comp() || d == code_dutc()) && v is U64 {
        lemma_be64(b, p, v->U64_0);
    } else if d == code_type() && v is FourCharCode {
        lemma_utf8_back(v->FourCharCode_0);
    } else if d == code_ustr() && v is Str {
        lemma_read_units(b, p, v->Str_0);
        lemma_utf16_roundtrip(v->Str_0);
    } else {
        let x = v->Blob_0;
        lemma_holds_split(b, p, u32_be(x.len() as u32), x);
        lemma_be32(b, p, x.len() as u32);
    }
}

/// A record written for an entry reads back as that entry.
proof fn lemma_record(b: Seq<u8>, p: int, e: EntryView)
    requires
        enc_record(e) is Ok,
        holds_at(b, p, enc_record(e)->Ok_0),
        enc_record(e)->Ok_0.len() <= u32::MAX,
    ensures
        spec_record(b, p) is Ok,
        spec_record(b, p)->Ok_0.1 == p + enc_record(e)->Ok_0.len(),
        decode_record(spec_record(b, p)->Ok_0.0) == e,
{
    let a = enc_ustr(e.filename)->Ok_0;
    let st = enc_fourcc(e.structure_type)->Ok_0;
    let dt = enc_fourcc(e.data_type)->Ok_0;
    let v = enc_value(e.data_type, e.value)->Ok_0;
    assert(enc_record(e)->Ok_0 == a + st + dt + v);
    lemma_holds_split(b, p, a + st + dt, v);
    lemma_holds_split(b, p, a + st, dt);
    lemma_holds_split(b, p, a, st);
    lemma_read_units(b, p, e.filename);
    let p1 = p + a.len();
    assert(b.subrange(p1, p1 + 4) == encode_utf8(e.structure_type));
    assert(b.subrange(p1 + 4, p1 + 8) == encode_utf8(e.data_type));
    lemma_value(b, p1 + 8, e.data_type, e.value);
    lemma_utf16_roundtrip(e.filename);
    lemma_utf8_back(e.structure_type);
    lemma_utf8_back(e.data_type);
}

/// Records written one after the other read back as the entries.
proof fn lemma_records(b: Seq<u8>, p: int, es: Seq<EntryView>)
    requires
        enc_records(es) is Ok,
        holds_at(b, p, enc_records(es)->Ok_0),
        enc_records(es)->Ok_0.len() <= u32::MAX,
    ensures
        spec_records(b, p, es.len()) is Ok,
        spec_records(b, p, es.len())->Ok_0.1 == p + enc_records(es)->Ok_0.len(),
        decode_records(spec_records(b, p, es.len())->Ok_0.0) == es,
    decreases es.len(),
{
    if es.len() == 0 {
        assert(decode_records(Seq::<RawRecord>::empty()) =~= es);
    } else {
        let pre = es.drop_last();
        let a = enc_records(pre)->Ok_0;
        let r = enc_record(es.last())->Ok_0;
        lemma_holds_split(b, p, a, r);
        lemma_records(b, p, pre);
        assert(pre.len() == (es.len() - 1) as nat);
        let (rs, q) = spec_records(b, p, pre.len())->Ok_0;
        lemma_record(b, q, es.last());
        let (x, q2) = spec_record(b, q)->Ok_0;
        assert(decode_records(rs.push(x)) =~= decode_records(rs).push(decode_record(x)));
        assert(es =~= pre.push(es.last()));
    }
}

/// Each entry takes at least one byte.
proof fn lemma_records_len(es: Seq<EntryView>)
    requires
        enc_records(es) is Ok,
    ensures
        enc_records(es)->Ok_0.len() >= es.len(),
    decreases es.len(),
{
    if es.len() > 0 {
        lemma_records_len(es.drop_last());
    }
}

// ---------------------------------------------------------------------------
// The whole file
// ---------------------------------------------------------------------------

proof fn lemma_grow_pow2(required: int, size: int, exp: nat)
    requires
        size == pow2(exp),
    ensures
        grow(required, size, exp).0 == pow2(grow(required, size, exp).1),
        grow(required, size, exp).1 >= exp,
    decreases (if size < required { required - size } else { 0 }),
{
    lemma_pow2_pos(exp);
    if size < required {
        lemma_pow2_unfold(exp + 1);
        lemma_grow_pow2(required, 2 * size, exp + 1);
    }
}

proof fn lemma_leaf_word(w: u32)
    requires
        1125 <= w <= 1151,
    ensures
        w & 0xFFFF_FFE0u32 == 1120,
        w & 31u32 == w - 1120,
{
    assert(w & 0xFFFF_FFE0u32 == 1120) by (bit_vector)
        requires
            1125 <= w <= 1151,
    ;
    assert(w & 31u32 == w - 1120) by (bit_vector)
        requires
            1125 <= w <= 1151,
    ;
}

proof fn lemma_at_end(x: Seq<u8>, y: Seq<u8>)
    ensures
        holds_at(x + y, x.len() as int, y),
{
    assert((x + y).subrange(x.len() as int, (x.len() + y.len()) as int) =~= y);
}

proof fn lemma_extend(b: Seq<u8>, p: int, w: Seq<u8>, c: Seq<u8>)
    requires
        holds_at(b, p, w),
    ensures
        holds_at(b + c, p, w),
{
    assert((b + c).subrange(p, p + w.len()) =~= b.subrange(p, p + w.len()));
}

/// The table body of an encoded file lists one directory whose master block
/// is block 0, and blocks 0 and 1 at the master and leaf offsets.
proof fn lemma_body(body: Seq<u8>, exp: nat)
    requires
        5 <= exp <= 31,
        body == body_bytes(exp),
    ensures
        body.len() == 1045,
        be32(body, 1032) == 1,
        spec_dirs(body, 1036, 1) == Ok::<(Seq<int>, int), ErrorView>((seq![0int], 1045)),
        table_of(body)[0] == 1093,
        table_of(body)[1] == 1120 + exp,
{
    let w = (1120 + exp) as u32;
    let p2 = u32_be(2) + u32_be(0);
    let p3 = p2 + u32_be(1093);
    let p4 = p3 + u32_be(w);
    let p5 = p4 + zeros(254 * 4);
    let p6 = p5 + u32_be(1);
    let p7 = p6 + seq![4u8];
    let p8 = p7 + code_dsdb();
    assert(body == p8 + u32_be(0));
    // block 0
    lemma_at_end(p2, u32_be(1093));
    lemma_extend(p3, 8, u32_be(1093), u32_be(w));
    lemma_extend(p4, 8, u32_be(1093), zeros(254 * 4));
    lemma_extend(p5, 8, u32_be(1093), u32_be(1));
    lemma_extend(p6, 8, u32_be(1093), seq![4u8]);
    lemma_extend(p7, 8, u32_be(1093), code_dsdb());
    lemma_extend(p8, 8, u32_be(1093), u32_be(0));
    lemma_be32(body, 8, 1093);
    // block 1
    lemma_at_end(p3, u32_be(w));
    lemma_extend(p4, 12, u32_be(w), zeros(254 * 4));
    lemma_extend(p5, 12, u32_be(w), u32_be(1));
    lemma_extend(p6, 12, u32_be(w), seq![4u8]);
    lemma_extend(p7, 12, u32_be(w), code_dsdb());
    lemma_extend(p8, 12, u32_be(w), u32_be(0));
    lemma_be32(body, 12, w);
    // one directory
    lemma_at_end(p5, u32_be(1));
    lemma_extend(p6, 1032, u32_be(1), seq![4u8]);
    lemma_extend(p7, 1032, u32_be(1), code_dsdb());
    lemma_extend(p8, 1032, u32_be(1), u32_be(0));
    lemma_be32(body, 1032, 1);
    // its name is four bytes long
    lemma_at_end(p6, seq![4u8]);
    lemma_extend(p7, 1036, seq![4u8], code_dsdb());
    lemma_extend(p8, 1036, seq![4u8], u32_be(0));
    lemma_holds_byte(body, 1036, seq![4u8], 0);
    // and its master block is block 0
    lemma_at_end(p8, u32_be(0));
    lemma_be32(body, 1041, 0);
    reveal_with_fuel(spec_dirs, 2);
    assert(seq![0int] =~= Seq::<int>::empty().push(0int));
}

/// Where the parts of an encoded file stand.
proof fn lemma_layout(records: Seq<u8>, count: u32, size: int, exp: nat)
    requires
        size >= records.len() + 8,
    ensures
        ({
            let b = layout(records, count, size, exp);
            &&& b.len() == 1124 + size
            &&& b.take(4) == code_align()
            &&& b.subrange(4, 8) == code_bud1()
            &&& be32(b, 8) == 32
            &&& be32(b, 12) == 1045
            &&& b.subrange(36, 1081) == body_bytes(exp)
            &&& b.subrange(1092, 1124) == master_bytes(count)
            &&& b.subrange(1124, 1124 + size) == leaf_bytes(count, records, size)
        }),
{
    let b = layout(records, count, size, exp);
    assert(b.take(4) =~= code_align());
    assert(b.subrange(4, 8) =~= code_bud1());
    assert(holds_at(b, 8, u32_be(32))) by {
        assert(b.subrange(8, 12) =~= u32_be(32));
    }
    lemma_be32(b, 8, 32);
    assert(holds_at(b, 12, u32_be(1045))) by {
        assert(b.subrange(12, 16) =~= u32_be(1045));
    }
    lemma_be32(b, 12, 1045);
    assert(b.subrange(36, 1081) =~= body_bytes(exp));
    assert(b.subrange(1092, 1124) =~= master_bytes(count));
    assert(b.subrange(1124, 1124 + size) =~= leaf_bytes(count, records, size));
}

/// The master block names block 1 as the root.
proof fn lemma_master(count: u32)
    ensures
        master_bytes(count).len() == 32,
        be32(master_bytes(count), 0) == 1,
{
    let mb = master_bytes(count);
    assert(holds_at(mb, 0, u32_be(1))) by {
        assert(mb.subrange(0, 4) =~= u32_be(1));
    }
    lemma_be32(mb, 0, 1);
}

/// The leaf block is a leaf holding the records.
proof fn lemma_leaf(sorted: Seq<EntryView>, records: Seq<u8>, size: int)
    requires
        enc_records(sorted) == Ok::<Seq<u8>, ErrorView>(records),
        records.len() + 8 <= size <= u32::MAX,
        sorted.len() <= u32::MAX,
    ensures
        ({
            let lb = leaf_bytes(sorted.len() as u32, records, size);
            &&& lb.len() == size
            &&& be32(lb, 0) == 0
            &&& be32(lb, 4) == sorted.len()
            &&& spec_records(lb, 8, sorted.len()) is Ok
            &&& decode_records(spec_records(lb, 8, sorted.len())->Ok_0.0) == sorted
        }),
{
    let count = sorted.len() as u32;
    let lb = leaf_bytes(count, records, size);
    assert(holds_at(lb, 0, u32_be(0))) by {
        assert(lb.subrange(0, 4) =~= u32_be(0));
    }
    lemma_be32(lb, 0, 0);
    assert(holds_at(lb, 4, u32_be(count))) by {
        assert(lb.subrange(4, 8) =~= u32_be(count));
    }
    lemma_be32(lb, 4, count);
    assert(holds_at(lb, 8, records)) by {
        assert(lb.subrange(8, 8 + records.len() as int) =~= records);
    }
    lemma_records(lb, 8, sorted);
}

/// What was written parses back: the bytes of a file encoded from some
/// entries read as those entries, in the order the file keeps them (by file
/// name, structure type and data type, entries that compare equal keeping
/// their order).
#[verifier::rlimit(40)]
pub proof fn lemma_encode_then_parse(es: Seq<EntryView>)
    requires
        spec_encode(es) is Ok,
    ensures
        spec_parse_entries(spec_encode(es)->Ok_0) == Ok::<Seq<EntryView>, ErrorView>(sort_by(es, entry_order())),
{
    let sorted = sort_by(es, entry_order());
    let records = enc_records(sorted)->Ok_0;
    let required = if records.len() + 8 > usize::MAX { usize::MAX as int } else { records.len() + 8 as int };
    let size = grow(required, 32, 5).0;
    let exp = grow(required, 32, 5).1;
    let count = sorted.len() as u32;
    let b = layout(records, count, size, exp);
    assert(spec_encode(es)->Ok_0 == b);
    assert(size <= 0x8000_0000 && 5 <= exp <= 31 && size == pow2(exp) && records.len() + 8 <= size) by {
        lemma2_to64();
        lemma_grow_pow2(required, 32, 5);
        lemma_grow_fits(required, 32, 5);
        if exp < 31 {
            lemma_pow2_strictly_increases(exp, 31);
        }
    }
    lemma_records_len(sorted);
    assert(count as nat == sorted.len());
    lemma_layout(records, count, size, exp);

    // The table body.
    let body = b.subrange(36, 1081);
    lemma_body(body, exp);
    let addrs = table_of(body);

    // The master block.
    assert(1093u32 & 0xFFFF_FFE0u32 == 1088u32) by (bit_vector);
    assert(1093u32 & 31u32 == 5u32) by (bit_vector);
    assert(1u64 << 5u64 == 32u64) by (bit_vector);
    lemma_master(count);
    assert(spec_master(b, addrs, 0) == Ok::<int, ErrorView>(1));

    // The leaf block.
    let w = (1120 + exp) as u32;
    lemma_leaf_word(w);
    assert(addr_size(w) == size) by {
        lemma_u64_shl_is_mul(1, exp as u64);
    }
    let lb = b.subrange(1124, 1124 + size);
    assert(spec_block(b, addrs, 1, false) == Ok::<Seq<u8>, ErrorView>(lb));
    lemma_leaf(sorted, records, size);
    let rs = spec_records(lb, 8, sorted.len())->Ok_0.0;
    assert(spec_collect(b, addrs, 1, max_depth()) == Ok::<Seq<RawRecord>, ErrorView>(rs));

    // The directory.
    assert(spec_dir_records(b, addrs, seq![0int]) == Ok::<Seq<RawRecord>, ErrorView>(rs)) by {
        reveal_with_fuel(spec_dir_records, 2);
        assert(seq![0int].drop_last() =~= Seq::<int>::empty());
        assert(Seq::<RawRecord>::empty() + rs =~= rs);
    }
    assert(spec_parse_raw(b) == Ok::<Seq<RawRecord>, ErrorView>(rs));
}

// ---------------------------------------------------------------------------
// Recording and forgetting a trashed file
// ---------------------------------------------------------------------------

proof fn lemma_filter_iff(s: Seq<EntryView>, p: spec_fn(EntryView) -> bool, e: EntryView)
    ensures
        s.filter(p).contains(e) <==> (s.contains(e) && p(e)),
{
    if s.filter(p).contains(e) {
        s.lemma_filter_contains_rev(p, e);
        let k = choose|k: int| 0 <= k < s.filter(p).len() && s.filter(p)[k] == e;
        s.lemma_filter_pred(p, k);
    }
    if s.contains(e) && p(e) {
        let k = choose|k: int| 0 <= k < s.len() && s[k] == e;
        s.lemma_filter_contains(p, k);
    }
}

proof fn lemma_upsert_members(prior: Seq<EntryView>, name: Seq<char>, original: Seq<char>)
    requires
        spec_upsert(prior, name, original) is Ok,
    ensures
        ({
            let folder = location_entry(name, ptbl(), recorded_parent(original));
            let base = location_entry(name, ptbn(), spec_file_name(original)->0);
            let read = sort_by(spec_upsert(prior, name, original)->Ok_0, entry_order());
            &&& read.contains(folder)
            &&& read.contains(base)
            &&& forall|e: EntryView| prior.contains(e) && !is_location_of(e, name) ==> #[trigger] read.contains(e)
            &&& forall|e: EntryView| #[trigger] read.contains(e) ==>
                    (prior.contains(e) && !is_location_of(e, name)) || e == folder || e == base
        }),
{
    let es2 = spec_upsert(prior, name, original)->Ok_0;
    let folder = location_entry(name, ptbl(), recorded_parent(original));
    let base = location_entry(name, ptbn(), spec_file_name(original)->0);
    let p = |e: EntryView| !is_location_of(e, name);
    let kept = prior.filter(p);
    assert(es2 == kept + seq![folder, base]);
    lemma_sort_by_contains(es2, entry_order());
    let read = sort_by(es2, entry_order());
    assert(es2[kept.len() as int] == folder);
    assert(es2[kept.len() + 1 as int] == base);
    assert forall|e: EntryView| prior.contains(e) && !is_location_of(e, name) implies #[trigger] read.contains(e) by {
        lemma_filter_iff(prior, p, e);
        let k = choose|k: int| 0 <= k < kept.len() && kept[k] == e;
        assert(es2[k] == e);
    }
    assert forall|e: EntryView| #[trigger] read.contains(e) implies
        (prior.contains(e) && !is_location_of(e, name)) || e == folder || e == base by {
        let k = choose|k: int| 0 <= k < es2.len() && es2[k] == e;
        if k < kept.len() {
            assert(kept[k] == e);
            lemma_filter_iff(prior, p, e);
        }
    }
}

/// Recording where a trashed file came from, then reading the file back,
/// gives its two location records (folder and name), keeps every other
/// entry, drops any earlier location record of that file, and adds nothing
/// else.
pub proof fn lemma_upsert_then_read(existing: Option<Seq<u8>>, name: Seq<char>, original: Seq<char>)
    requires
        spec_upsert_file(existing, name, original) is Ok,
    ensures
        ({
            let prior = existing_entries(existing)->Ok_0;
            let folder = location_entry(name, ptbl(), recorded_parent(original));
            let base = location_entry(name, ptbn(), spec_file_name(original)->0);
            let read = spec_parse_entries(spec_upsert_file(existing, name, original)->Ok_0);
            &&& read is Ok
            &&& read->Ok_0.contains(folder)
            &&& read->Ok_0.contains(base)
            &&& forall|e: EntryView| prior.contains(e) && !is_location_of(e, name) ==> #[trigger] read->Ok_0.contains(e)
            &&& forall|e: EntryView| #[trigger] read->Ok_0.contains(e) ==>
                    (prior.contains(e) && !is_location_of(e, name)) || e == folder || e == base
        }),
{
    let prior = existing_entries(existing)->Ok_0;
    let es2 = spec_upsert(prior, name, original)->Ok_0;
    assert(spec_upsert_file(existing, name, original) == spec_encode(es2));
    lemma_encode_then_parse(es2);
    lemma_upsert_members(prior, name, original);
}

/// Forgetting a trashed file, then reading the file back, leaves exactly
/// the entries about other files; when none is left the file goes away.
pub proof fn lemma_remove_then_read(existing: Option<Seq<u8>>, name: Seq<char>)
    requires
        spec_remove_file(existing, name) is Ok,
    ensures
        ({
            let prior = existing_entries(existing)->Ok_0;
            match spec_remove_file(existing, name)->Ok_0 {
                Some(b) => spec_parse_entries(b) is Ok && forall|e: EntryView| #[trigger] spec_parse_entries(b)->Ok_0.contains(e)
                    <==> (prior.contains(e) && e.filename != name),
                None => forall|e: EntryView| #[trigger] prior.contains(e) ==> e.filename == name,
            }
        }),
{
    let prior = existing_entries(existing)->Ok_0;
    let p = |e: EntryView| e.filename != name;
    let rest = spec_remove(prior, name);
    assert(rest == prior.filter(p));
    match spec_remove_file(existing, name)->Ok_0 {
        Some(b) => {
            lemma_encode_then_parse(rest);
            lemma_sort_by_contains(rest, entry_order());
            assert forall|e: EntryView| #[trigger] spec_parse_entries(b)->Ok_0.contains(e)
                <==> (prior.contains(e) && e.filename != name) by {
                lemma_filter_iff(prior, p, e);
            }
        },
        None => {
            assert forall|e: EntryView| #[trigger] prior.contains(e) implies e.filename == name by {
                lemma_filter_iff(prior, p, e);
                if e.filename != name {
                    assert(rest.contains(e));
                }
            }
        },
    }
}

proof fn lemma_entry_order_strict()
    ensures
        strict_order(entry_order()),
{
    let lt = entry_order();
    assert forall|a: EntryView| !(#[trigger] lt(a, a)) by {
        lemma_bytes_lt_irreflexive(encode_utf8(a.filename));
        lemma_bytes_lt_irreflexive(encode_utf8(a.structure_type));
        lemma_bytes_lt_irreflexive(encode_utf8(a.data_type));
    }
    assert forall|a: EntryView, b: EntryView, c: EntryView| #[trigger] lt(a, b) && #[trigger] lt(b, c) implies lt(a, c) by {
        let (fa, fb, fc) = (encode_utf8(a.filename), encode_utf8(b.filename), encode_utf8(c.filename));
        let (sa, sb, sc) = (encode_utf8(a.structure_type), encode_utf8(b.structure_type), encode_utf8(c.structure_type));
        let (da, db, dc) = (encode_utf8(a.data_type), encode_utf8(b.data_type), encode_utf8(c.data_type));
        lemma_bytes_lt_irreflexive(fa);
        lemma_bytes_lt_irreflexive(sa);
        if bytes_lt(fa, fb) && bytes_lt(fb, fc) {
            lemma_bytes_lt_transitive(fa, fb, fc);
        }
        if fa == fb && fb == fc {
            if bytes_lt(sa, sb) && bytes_lt(sb, sc) {
                lemma_bytes_lt_transitive(sa, sb, sc);
            }
            if sa == sb && sb == sc {
                lemma_bytes_lt_transitive(da, db, dc);
            }
        }
    }
}

/// A file read back holds its entries in file order: no entry comes after
/// one that sorts before it by file name, structure type and data type.
pub proof fn lemma_parsed_entries_ordered(es: Seq<EntryView>)
    requires
        spec_encode(es) is Ok,
    ensures
        spec_parse_entries(spec_encode(es)->Ok_0) is Ok,
        ordered_by(spec_parse_entries(spec_encode(es)->Ok_0)->Ok_0, entry_order()),
{
    lemma_encode_then_parse(es);
    lemma_entry_order_strict();
    lemma_sort_by_ordered(es, entry_order());
}

// ---------------------------------------------------------------------------
// Reading a block tree
// ---------------------------------------------------------------------------

/// A leaf block holding the records of `es`: mode 0, the count, the records.
pub open spec fn leaf_block_bytes(es: Seq<EntryView>) -> Seq<u8> {
    u32_be(0) + u32_be(es.len() as u32) + enc_records(es)->Ok_0
}

/// An internal block with one (child, record) pair and a rightmost child:
/// the rightmost child's id in the mode word, the count 1, the child's id,
/// the record.
pub open spec fn internal_block_bytes(rightmost: u32, child: u32, r: EntryView) -> Seq<u8> {
    u32_be(rightmost) + u32_be(1) + u32_be(child) + enc_record(r)->Ok_0
}

/// Block `id` of the table starts with the bytes `w`.
pub open spec fn block_holds(b: Seq<u8>, addrs: Seq<u32>, id: int, w: Seq<u8>) -> bool {
    spec_block(b, addrs, id, false) is Ok && holds_at(spec_block(b, addrs, id, false)->Ok_0, 0, w)
}

/// Entries that fit in one block as records.
pub open spec fn encodable(es: Seq<EntryView>) -> bool {
    enc_records(es) is Ok && enc_records(es)->Ok_0.len() <= u32::MAX && es.len() <= u32::MAX
}

/// A leaf block reads as the entries it holds.
pub proof fn lemma_leaf_block_reads(b: Seq<u8>, addrs: Seq<u32>, id: int, es: Seq<EntryView>, fuel: nat)
    requires
        encodable(es),
        block_holds(b, addrs, id, leaf_block_bytes(es)),
    ensures
        spec_collect(b, addrs, id, fuel) is Ok,
        decode_records(spec_collect(b, addrs, id, fuel)->Ok_0) == es,
{
    let blk = spec_block(b, addrs, id, false)->Ok_0;
    let recs = enc_records(es)->Ok_0;
    lemma_holds_split(blk, 0, u32_be(0) + u32_be(es.len() as u32), recs);
    lemma_holds_split(blk, 0, u32_be(0), u32_be(es.len() as u32));
    lemma_be32(blk, 0, 0);
    lemma_be32(blk, 4, es.len() as u32);
    lemma_records(blk, 8, es);
}

/// Reading an internal block yields the entries of its child, then its own
/// record, then the entries of its rightmost child: every record of the
/// tree, in key order.
pub proof fn lemma_internal_block_reads(
    b: Seq<u8>,
    addrs: Seq<u32>,
    id: int,
    child: u32,
    rightmost: u32,
    left: Seq<EntryView>,
    r: EntryView,
    right: Seq<EntryView>,
    fuel: nat,
)
    requires
        fuel >= 1,
        rightmost != 0,
        encodable(left),
        encodable(right),
        enc_record(r) is Ok,
        enc_record(r)->Ok_0.len() <= u32::MAX,
        block_holds(b, addrs, id, internal_block_bytes(rightmost, child, r)),
        block_holds(b, addrs, child as int, leaf_block_bytes(left)),
        block_holds(b, addrs, rightmost as int, leaf_block_bytes(right)),
    ensures
        spec_collect(b, addrs, id, fuel) is Ok,
        decode_records(spec_collect(b, addrs, id, fuel)->Ok_0) == left + seq![r] + right,
{
    let blk = spec_block(b, addrs, id, false)->Ok_0;
    let rec = enc_record(r)->Ok_0;
    let h = u32_be(rightmost) + u32_be(1) + u32_be(child);
    lemma_holds_split(blk, 0, h, rec);
    lemma_holds_split(blk, 0, u32_be(rightmost) + u32_be(1), u32_be(child));
    lemma_holds_split(blk, 0, u32_be(rightmost), u32_be(1));
    lemma_be32(blk, 0, rightmost);
    lemma_be32(blk, 4, 1);
    lemma_be32(blk, 8, child);
    lemma_record(blk, 12, r);
    lemma_leaf_block_reads(b, addrs, child as int, left, (fuel - 1) as nat);
    lemma_leaf_block_reads(b, addrs, rightmost as int, right, (fuel - 1) as nat);
    let cs0 = spec_collect(b, addrs, child as int, (fuel - 1) as nat)->Ok_0;
    let cs1 = spec_collect(b, addrs, rightmost as int, (fuel - 1) as nat)->Ok_0;
    let x = spec_record(blk, 12)->Ok_0.0;
    reveal_with_fuel(spec_internal, 2);
    assert(spec_internal(b, addrs, blk, 0, fuel) == Ok::<(Seq<RawRecord>, int), ErrorView>((seq![], 8)));
    assert(spec_internal(b, addrs, blk, 1, fuel) == Ok::<(Seq<RawRecord>, int), ErrorView>(
        (Seq::<RawRecord>::empty() + cs0.push(x), spec_record(blk, 12)->Ok_0.1),
    ));
    let all = Seq::<RawRecord>::empty() + cs0.push(x) + cs1;
    assert(spec_collect(b, addrs, id, fuel) == Ok::<Seq<RawRecord>, ErrorView>(all));
    assert(decode_records(all) =~= decode_records(cs0) + seq![decode_record(x)] + decode_records(cs1));
}

} // verus!
