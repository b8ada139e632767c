//! UTF-16 encoding and decoding, and lossy UTF-8 decoding.
use vstd::prelude::*;
use vstd::utf8::{decode_utf8, is_scalar, valid_utf8};
use crate::text::{chars_of, string_of};

verus! {

/// `char::from_u32`: the character with the given scalar value, if it is one.
pub assume_specification[ char::from_u32 ](i: u32) -> (r: Option<char>)
    ensures
        is_scalar(i) ==> r == Some(i as char),
        !is_scalar(i) ==> r is None,
;

/// The UTF-16 code units of one character.
pub open spec fn utf16_units(c: char) -> Seq<u16> {
    let u = c as u32;
    if u < 0x10000 {
        seq![u as u16]
    } else {
        let v = u - 0x10000;
        seq![(0xD800 + v / 1024) as u16, (0xDC00 + v % 1024) as u16]
    }
}

/// The UTF-16 encoding of a character sequence (`str::encode_utf16`).
pub open spec fn utf16_encode(s: Seq<char>) -> Seq<u16>
    decreases s.len(),
{
    if s.len() == 0 {
        seq![]
    } else {
        utf16_encode(s.drop_last()) + utf16_units(s.last())
    }
}

/// `U+FFFD`, which stands for what could not be decoded.
pub open spec fn replacement() -> char {
    '\u{FFFD}'
}

/// A high (leading) surrogate.
pub open spec fn is_high(u: u16) -> bool {
    0xD800 <= u <= 0xDBFF
}

/// A low (trailing) surrogate.
pub open spec fn is_low(u: u16) -> bool {
    0xDC00 <= u <= 0xDFFF
}

/// The character a surrogate pair stands for.
pub open spec fn pair_char(h: u16, l: u16) -> char {
    ((0x10000 + (h - 0xD800) * 1024 + (l - 0xDC00)) as u32) as char
}

/// Lossy UTF-16 decoding (`String::from_utf16_lossy`): a high surrogate
/// followed by a low one is a pair, any other surrogate becomes `U+FFFD`.
pub open spec fn utf16_lossy(u: Seq<u16>) -> Seq<char>
    decreases u.len(),
{
    if u.len() == 0 {
        seq![]
    } else if is_high(u[0]) && u.len() >= 2 && is_low(u[1]) {
        seq![pair_char(u[0], u[1])] + utf16_lossy(u.skip(2))
    } else if 0xD800 <= u[0] <= 0xDFFF {
        seq![replacement()] + utf16_lossy(u.drop_first())
    } else {
        seq![(u[0] as u32) as char] + utf16_lossy(u.drop_first())
    }
}

/// The UTF-16 code units of a string.
pub fn encode_utf16(s: &str) -> (out: Vec<u16>)
    ensures
        out@ == utf16_encode(s@),
{
    let cs = chars_of(s);
    let mut out: Vec<u16> = Vec::new();
    let mut i: usize = 0;
    assert(cs@.take(0) =~= Seq::<char>::empty());
    while i < cs.len()
        invariant
            i <= cs@.len(),
            out@ == utf16_encode(cs@.take(i as int)),
        decreases cs@.len() - i,
    {
        let c = cs[i];
        let u = c as u32;
        let ghost before = out@;
        if u < 0x10000 {
            out.push(u as u16);
            assert(out@ =~= before + utf16_units(c));
        } else {
            proof {
                vstd::utf8::char_is_scalar(c);
            }
            let v = u - 0x10000;
            out.push((0xD800 + v / 1024) as u16);
            out.push((0xDC00 + v % 1024) as u16);
            assert(out@ =~= before + utf16_units(c));
        }
        assert(cs@.take(i + 1).drop_last() =~= cs@.take(i as int));
        i = i + 1;
    }
    assert(cs@.take(cs@.len() as int) =~= cs@);
    out
}

/// A string decoded from UTF-16 code units, unpaired surrogates replaced by `U+FFFD`.
pub fn decode_utf16_lossy(u: &Vec<u16>) -> (out: String)
    ensures
        out@ == utf16_lossy(u@),
{
    let mut cs: Vec<char> = Vec::new();
    let mut i: usize = 0;
    assert(u@.skip(0) =~= u@);
    while i < u.len()
        invariant
            i <= u@.len(),
            cs@ + utf16_lossy(u@.skip(i as int)) == utf16_lossy(u@),
        decreases u@.len() - i,
    {
        let a = u[i];
        let ghost rest = u@.skip(i as int);
        assert(rest[0] == a);
        if 0xD800 <= a && a <= 0xDBFF && i + 1 < u.len() && 0xDC00 <= u[i + 1] && u[i + 1] <= 0xDFFF {
            let b = u[i + 1];
            let v: u32 = 0x10000 + (a as u32 - 0xD800) * 1024 + (b as u32 - 0xDC00);
            assert(is_scalar(v));
            let c = match char::from_u32(v) {
                Some(c) => c,
                None => '\u{FFFD}',
            };
            assert(c == pair_char(a, b));
            cs.push(c);
            assert(rest[1] == b);
            assert(rest.skip(2) =~= u@.skip(i + 2));
            i = i + 2;
        } else {
            let c = if 0xD800 <= a && a <= 0xDFFF {
                '\u{FFFD}'
            } else {
                match char::from_u32(a as u32) {
                    Some(c) => c,
                    None => '\u{FFFD}',
                }
            };
            proof {
                if !(0xD800 <= a && a <= 0xDFFF) {
                    assert(is_scalar(a as u32));
                }
                if rest.len() >= 2 {
                    assert(rest[1] == u@[i + 1]);
                }
            }
            cs.push(c);
            assert(rest.drop_first() =~= u@.skip(i + 1));
            i = i + 1;
        }
        assert(cs@ + utf16_lossy(u@.skip(i as int)) =~= utf16_lossy(u@));
    }
    assert(utf16_lossy(u@.skip(i as int)) =~= Seq::<char>::empty());
    assert(cs@ + Seq::<char>::empty() =~= cs@);
    string_of(cs.as_slice())
}

/// Lossy UTF-8 decoding of bytes that are not valid UTF-8
/// (`String::from_utf8_lossy`); valid bytes decode as themselves.
pub uninterp spec fn utf8_lossy(bytes: Seq<u8>) -> Seq<char>;

/// The text of a byte string: decoded when valid UTF-8, lossily otherwise.
pub open spec fn utf8_text(bytes: Seq<u8>) -> Seq<char> {
    if valid_utf8(bytes) {
        decode_utf8(bytes)
    } else {
        utf8_lossy(bytes)
    }
}

/// `String::from_utf8_lossy`: valid UTF-8 is decoded as is; for other input
/// the result is named [`utf8_lossy`] (each invalid sequence replaced by
/// `U+FFFD`, which the contract does not spell out).
#[verifier::external_body]
pub fn text_from_utf8_lossy(bytes: &[u8]) -> (out: String)
    ensures
        valid_utf8(bytes@) ==> out@ == decode_utf8(bytes@),
        !valid_utf8(bytes@) ==> out@ == utf8_lossy(bytes@),
{
    String::from_utf8_lossy(bytes).into_owned()
}

// ---------------------------------------------------------------------------
// Decoding undoes encoding
// ---------------------------------------------------------------------------

proof fn lemma_utf16_encode_concat(a: Seq<char>, b: Seq<char>)
    ensures
        utf16_encode(a + b) == utf16_encode(a) + utf16_encode(b),
    decreases b.len(),
{
    if b.len() == 0 {
        assert(a + b =~= a);
        assert(utf16_encode(a) + utf16_encode(b) =~= utf16_encode(a));
    } else {
        lemma_utf16_encode_concat(a, b.drop_last());
        assert((a + b).drop_last() =~= a + b.drop_last());
        assert((a + b).last() == b.last());
        assert(utf16_encode(a) + utf16_encode(b) =~= utf16_encode(a) + utf16_encode(b.drop_last()) + utf16_units(b.last()));
    }
}

proof fn lemma_utf16_encode_front(s: Seq<char>)
    requires
        s.len() > 0,
    ensures
        utf16_encode(s) == utf16_units(s[0]) + utf16_encode(s.drop_first()),
{
    assert(s =~= seq![s[0]] + s.drop_first());
    lemma_utf16_encode_concat(seq![s[0]], s.drop_first());
    assert(seq![s[0]].drop_last() =~= Seq::<char>::empty());
    assert(utf16_encode(Seq::<char>::empty()) == Seq::<u16>::empty());
    assert(utf16_encode(seq![s[0]]) == utf16_encode(Seq::<char>::empty()) + utf16_units(s[0]));
    assert(utf16_encode(seq![s[0]]) =~= utf16_units(s[0]));
}

proof fn lemma_units_decode(c: char, rest: Seq<u16>)
    ensures
        utf16_lossy(utf16_units(c) + rest) == seq![c] + utf16_lossy(rest),
{
    vstd::utf8::char_is_scalar(c);
    let u = c as u32;
    let w = utf16_units(c) + rest;
    if u < 0x10000 {
        assert(w[0] == u as u16);
        assert(!(0xD800 <= u <= 0xDFFF));
        vstd::utf8::char_u32_cast(c, u);
        assert(w.drop_first() =~= rest);
    } else {
        let v = u - 0x10000;
        assert(v < 0x100000);
        assert(v / 1024 < 1024) by (nonlinear_arith)
            requires v < 0x100000;
        assert(v % 1024 < 1024) by (nonlinear_arith);
        assert(1024 * (v / 1024) + v % 1024 == v) by (nonlinear_arith);
        assert(is_high(w[0]) && is_low(w[1]));
        assert(w.skip(2) =~= rest);
        vstd::utf8::char_u32_cast(c, u);
        assert(pair_char(w[0], w[1]) == c);
    }
}

/// Decoding the UTF-16 encoding of a string gives the string back.
pub proof fn lemma_utf16_roundtrip(s: Seq<char>)
    ensures
        utf16_lossy(utf16_encode(s)) == s,
    decreases s.len(),
{
    if s.len() == 0 {
    } else {
        lemma_utf16_encode_front(s);
        lemma_units_decode(s[0], utf16_encode(s.drop_first()));
        lemma_utf16_roundtrip(s.drop_first());
        assert(seq![s[0]] + s.drop_first() =~= s);
    }
}

} // verus!
