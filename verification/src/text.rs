//! Character and string helpers shared by the rest of the library.
use vstd::prelude::*;

verus! {

/// Appends one character to a string (`String::push`).
#[verifier::external_body]
pub(crate) fn push_char(s: &mut String, c: char)
    ensures
        final(s)@ == old(s)@.push(c),
{
    s.push(c);
}

/// The characters of a string slice, in order.
pub fn chars_of(s: &str) -> (out: Vec<char>)
    ensures
        out@ == s@,
{
    let mut out: Vec<char> = Vec::new();
    for c in it: s.chars()
        invariant
            out@ == it.seq().take(it.index() as int),
            it.seq() == s@,
    {
        out.push(c);
    }
    out
}

/// The string made of the given characters.
pub fn string_of(chars: &[char]) -> (out: String)
    ensures
        out@ == chars@,
{
    let mut out = String::new();
    let mut i: usize = 0;
    while i < chars.len()
        invariant
            i <= chars@.len(),
            out@ == chars@.take(i as int),
        decreases chars@.len() - i,
    {
        push_char(&mut out, chars[i]);
        i = i + 1;
        assert(chars@.take(i as int) =~= chars@.take(i - 1).push(chars@[i - 1]));
    }
    assert(chars@.take(i as int) =~= chars@);
    out
}

/// Whether two character sequences are equal.
pub fn chars_eq(a: &[char], b: &[char]) -> (r: bool)
    ensures
        r == (a@ == b@),
{
    if a.len() != b.len() {
        return false;
    }
    let mut i: usize = 0;
    while i < a.len()
        invariant
            i <= a@.len() == b@.len(),
            a@.take(i as int) == b@.take(i as int),
        decreases a@.len() - i,
    {
        if a[i] != b[i] {
            assert(a@[i as int] != b@[i as int]);
            return false;
        }
        i = i + 1;
        assert(a@.take(i as int) =~= b@.take(i as int));
    }
    assert(a@ =~= a@.take(i as int));
    assert(b@ =~= b@.take(i as int));
    true
}

/// `a` followed by `b`.
pub fn concat(a: &str, b: &str) -> (out: String)
    ensures
        out@ == a@ + b@,
{
    let mut v = chars_of(a);
    let w = chars_of(b);
    let ghost start = v@;
    let mut k: usize = 0;
    while k < w.len()
        invariant
            k <= w@.len(),
            v@ == start + w@.take(k as int),
        decreases w@.len() - k,
    {
        v.push(w[k]);
        k = k + 1;
        assert(v@ =~= start + w@.take(k as int));
    }
    assert(w@.take(w@.len() as int) =~= w@);
    string_of(v.as_slice())
}

// ---------------------------------------------------------------------------
// Splitting and trimming
// ---------------------------------------------------------------------------

/// The pieces of `s` between occurrences of `sep`, left to right
/// (`str::split`): `"a,,b"` split on `,` gives `["a", "", "b"]`.
pub open spec fn split_on(s: Seq<char>, sep: char) -> Seq<Seq<char>>
    decreases s.len(),
{
    if s.len() == 0 {
        seq![Seq::<char>::empty()]
    } else {
        let p = split_on(s.drop_last(), sep);
        if s.last() == sep {
            p.push(Seq::<char>::empty())
        } else {
            p.update(p.len() - 1, p.last().push(s.last()))
        }
    }
}

pub proof fn lemma_split_on_len(s: Seq<char>, sep: char)
    ensures
        split_on(s, sep).len() >= 1,
    decreases s.len(),
{
    if s.len() > 0 {
        lemma_split_on_len(s.drop_last(), sep);
    }
}

/// The views of a vector of strings.
pub open spec fn string_views(v: Seq<String>) -> Seq<Seq<char>> {
    Seq::new(v.len(), |i: int| v[i]@)
}

/// `s` split on `sep` (`str::split`).
pub fn split(s: &str, sep: char) -> (out: Vec<String>)
    ensures
        string_views(out@) == split_on(s@, sep),
{
    let cs = chars_of(s);
    let mut out: Vec<String> = Vec::new();
    let mut cur: Vec<char> = Vec::new();
    let mut i: usize = 0;
    assert(cs@.take(0) =~= Seq::<char>::empty());
    assert(split_on(cs@.take(0), sep) =~= string_views(out@).push(cur@));
    while i < cs.len()
        invariant
            i <= cs@.len(),
            split_on(cs@.take(i as int), sep) == string_views(out@).push(cur@),
        decreases cs@.len() - i,
    {
        let c = cs[i];
        assert(cs@.take(i + 1).drop_last() =~= cs@.take(i as int));
        assert(cs@.take(i + 1).last() == c);
        if c == sep {
            let ghost before = string_views(out@);
            let piece = string_of(cur.as_slice());
            out.push(piece);
            cur = Vec::new();
            assert(string_views(out@) =~= before.push(piece@));
            assert(split_on(cs@.take(i + 1), sep) =~= string_views(out@).push(cur@));
        } else {
            let ghost old_cur = cur@;
            cur.push(c);
            proof {
                let p = string_views(out@).push(old_cur);
                assert(split_on(cs@.take(i + 1), sep) == p.update(p.len() - 1, p.last().push(c)));
                assert(split_on(cs@.take(i + 1), sep) =~= string_views(out@).push(cur@));
            }
        }
        i = i + 1;
    }
    assert(cs@.take(cs@.len() as int) =~= cs@);
    let ghost before = string_views(out@);
    let last = string_of(cur.as_slice());
    out.push(last);
    assert(string_views(out@) =~= before.push(last@));
    out
}

/// Index of the first occurrence of `c` in `s`, or `-1`.
pub open spec fn find_char(s: Seq<char>, c: char) -> int
    decreases s.len(),
{
    if s.len() == 0 {
        -1
    } else {
        let r = find_char(s.drop_last(), c);
        if r >= 0 {
            r
        } else if s.last() == c {
            s.len() - 1
        } else {
            -1
        }
    }
}

proof fn lemma_find_char(s: Seq<char>, c: char, k: int)
    requires
        0 <= k <= s.len(),
        forall|j: int| 0 <= j < k ==> s[j] != c,
        k == s.len() || s[k] == c,
    ensures
        find_char(s, c) == (if k == s.len() { -1 } else { k }),
    decreases s.len(),
{
    if s.len() > 0 {
        if k == s.len() {
            lemma_find_char(s.drop_last(), c, k - 1);
        } else if k == s.len() - 1 {
            lemma_find_char(s.drop_last(), c, k);
        } else {
            lemma_find_char(s.drop_last(), c, k);
        }
    }
}

/// The position of the first `c` in `s`, if any.
pub fn find(s: &Vec<char>, c: char) -> (r: Option<usize>)
    ensures
        match r {
            Some(k) => find_char(s@, c) == k as int && k < s@.len() && s@[k as int] == c,
            None => find_char(s@, c) == -1,
        },
{
    let mut k: usize = 0;
    while k < s.len() && s[k] != c
        invariant
            k <= s@.len(),
            forall|j: int| 0 <= j < k ==> s@[j] != c,
        decreases s@.len() - k,
    {
        k = k + 1;
    }
    proof {
        lemma_find_char(s@, c, k as int);
    }
    if k < s.len() {
        Some(k)
    } else {
        None
    }
}

/// Unicode white space (`char::is_whitespace`).
pub open spec fn is_ws(c: char) -> bool {
    let u = c as u32;
    (0x09 <= u <= 0x0d) || u == 0x20 || u == 0x85 || u == 0xa0 || u == 0x1680 || (0x2000 <= u <= 0x200a)
        || u == 0x2028 || u == 0x2029 || u == 0x202f || u == 0x205f || u == 0x3000
}

/// Number of white-space characters at the start of `s`.
pub open spec fn lead_ws(s: Seq<char>) -> int
    decreases s.len(),
{
    if s.len() == 0 {
        0
    } else if is_ws(s[0]) {
        1 + lead_ws(s.drop_first())
    } else {
        0
    }
}

/// Number of white-space characters at the end of `s`.
pub open spec fn trail_ws(s: Seq<char>) -> int
    decreases s.len(),
{
    if s.len() == 0 {
        0
    } else if is_ws(s.last()) {
        1 + trail_ws(s.drop_last())
    } else {
        0
    }
}

/// `s` without leading and trailing white space (`str::trim`).
pub open spec fn trim(s: Seq<char>) -> Seq<char> {
    if lead_ws(s) == s.len() {
        Seq::<char>::empty()
    } else {
        s.subrange(lead_ws(s), s.len() - trail_ws(s))
    }
}

fn is_ws_exec(c: char) -> (r: bool)
    ensures
        r == is_ws(c),
{
    let u = c as u32;
    (0x09 <= u && u <= 0x0d) || u == 0x20 || u == 0x85 || u == 0xa0 || u == 0x1680 || (0x2000 <= u && u
        <= 0x200a) || u == 0x2028 || u == 0x2029 || u == 0x202f || u == 0x205f || u == 0x3000
}

proof fn lemma_lead_ws(s: Seq<char>, k: int)
    requires
        0 <= k <= s.len(),
        forall|j: int| 0 <= j < k ==> is_ws(s[j]),
        k == s.len() || !is_ws(s[k]),
    ensures
        lead_ws(s) == k,
    decreases k,
{
    if k > 0 {
        lemma_lead_ws(s.drop_first(), k - 1);
    }
}

proof fn lemma_trail_ws(s: Seq<char>, k: int)
    requires
        0 <= k <= s.len(),
        forall|j: int| s.len() - k <= j < s.len() ==> is_ws(s[j]),
        k == s.len() || !is_ws(s[s.len() - k - 1]),
    ensures
        trail_ws(s) == k,
    decreases k,
{
    if k > 0 {
        lemma_trail_ws(s.drop_last(), k - 1);
    }
}

/// `s` without leading and trailing white space.
pub fn trim_chars(s: &Vec<char>) -> (out: Vec<char>)
    ensures
        out@ == trim(s@),
{
    let mut a: usize = 0;
    while a < s.len() && is_ws_exec(s[a])
        invariant
            a <= s@.len(),
            forall|j: int| 0 <= j < a ==> is_ws(s@[j]),
        decreases s@.len() - a,
    {
        a = a + 1;
    }
    proof {
        lemma_lead_ws(s@, a as int);
    }
    let mut out: Vec<char> = Vec::new();
    if a == s.len() {
        return out;
    }
    let mut z: usize = 0;
    while z < s.len() && is_ws_exec(s[s.len() - 1 - z])
        invariant
            z <= s@.len(),
            a < s@.len(),
            !is_ws(s@[a as int]),
            forall|j: int| s@.len() - z <= j < s@.len() ==> is_ws(s@[j]),
        decreases s@.len() - z,
    {
        z = z + 1;
    }
    proof {
        lemma_trail_ws(s@, z as int);
    }
    let e = s.len() - z;
    let mut k = a;
    while k < e
        invariant
            a <= k <= e <= s@.len(),
            out@ == s@.subrange(a as int, k as int),
        decreases e - k,
    {
        out.push(s[k]);
        k = k + 1;
        assert(out@ =~= s@.subrange(a as int, k as int));
    }
    out
}

// ---------------------------------------------------------------------------
// Decimal numbers
// ---------------------------------------------------------------------------

/// An ASCII decimal digit.
pub open spec fn is_digit(c: char) -> bool {
    '0' <= c <= '9'
}

/// The value of a sequence of decimal digits.
pub open spec fn digits_value(d: Seq<char>) -> nat
    decreases d.len(),
{
    if d.len() == 0 {
        0
    } else {
        digits_value(d.drop_last()) * 10 + ((d.last() as u32) - 48) as nat
    }
}

/// The digits of a numeral: all of it, or what follows a leading `+`.
pub open spec fn numeral_digits(s: Seq<char>) -> Seq<char> {
    if s.len() > 1 && s[0] == '+' {
        s.drop_first()
    } else {
        s
    }
}

/// Every character is an ASCII digit.
pub open spec fn all_digits(d: Seq<char>) -> bool {
    forall|k: int| 0 <= k < d.len() ==> is_digit(#[trigger] d[k])
}

/// The value of an unsigned decimal numeral as `str::parse` reads it: an
/// optional `+`, then one or more ASCII digits.
pub open spec fn parse_nat(s: Seq<char>) -> Option<nat> {
    let d = numeral_digits(s);
    if d.len() > 0 && all_digits(d) {
        Some(digits_value(d))
    } else {
        None
    }
}

/// `s` read as a `u64` (`str::parse::<u64>`).
pub open spec fn parse_u64_spec(s: Seq<char>) -> Option<u64> {
    match parse_nat(s) {
        Some(v) => if v <= u64::MAX {
            Some(v as u64)
        } else {
            None
        },
        None => None,
    }
}

/// `s` read as a `usize` (`str::parse::<usize>`).
pub open spec fn parse_usize_spec(s: Seq<char>) -> Option<usize> {
    match parse_nat(s) {
        Some(v) => if v <= usize::MAX {
            Some(v as usize)
        } else {
            None
        },
        None => None,
    }
}

proof fn lemma_digits_mono(d: Seq<char>, k: int)
    requires
        0 <= k <= d.len(),
        forall|j: int| 0 <= j < d.len() ==> is_digit(#[trigger] d[j]),
    ensures
        digits_value(d.take(k)) <= digits_value(d),
    decreases d.len() - k,
{
    if k < d.len() {
        lemma_digits_mono(d, k + 1);
        assert(d.take(k + 1).drop_last() =~= d.take(k));
    } else {
        assert(d.take(k) =~= d);
    }
}

/// `s` read as a `u64`.
pub fn parse_u64(s: &Vec<char>) -> (r: Option<u64>)
    ensures
        r == parse_u64_spec(s@),
{
    let start: usize = if s.len() > 1 && s[0] == '+' { 1 } else { 0 };
    let ghost d = numeral_digits(s@);
    assert(d =~= s@.subrange(start as int, s@.len() as int));
    if start == s.len() {
        return None;
    }
    let mut v: u64 = 0;
    let mut k = start;
    while k < s.len()
        invariant
            start <= k <= s@.len(),
            start == (if s@.len() > 1 && s@[0] == '+' { 1int } else { 0int }),
            d == numeral_digits(s@),
            d == s@.subrange(start as int, s@.len() as int),
            forall|j: int| start <= j < k ==> is_digit(#[trigger] s@[j]),
            v == digits_value(d.take(k - start)),
        decreases s@.len() - k,
    {
        let c = s[k];
        if !('0' <= c && c <= '9') {
            assert(d[k - start] == c);
            assert(!is_digit(d[k - start]));
            assert(!all_digits(d));
            return None;
        }
        assert(d.take(k - start + 1).drop_last() =~= d.take(k - start));
        assert(d.take(k - start + 1).last() == c);
        let digit = (c as u32 - 48) as u64;
        let ghost want = digits_value(d.take(k - start + 1));
        match v.checked_mul(10) {
            Some(m) => match m.checked_add(digit) {
                Some(n) => {
                    v = n;
                },
                None => {
                    assert(s@.subrange(start as int, k + 1) =~= d.take(k - start + 1));
                    return no_u64(s, start, k);
                },
            },
            None => {
                assert(s@.subrange(start as int, k + 1) =~= d.take(k - start + 1));
                return no_u64(s, start, k);
            },
        }
        k = k + 1;
    }
    assert(d.take(k - start) =~= d);
    assert forall|j: int| 0 <= j < d.len() implies is_digit(#[trigger] d[j]) by {
        assert(d[j] == s@[start + j]);
    }
    assert(all_digits(d));
    Some(v)
}

/// The numeral `s` (digits from `start`) does not fit in a `u64`: either a
/// later character is not a digit, or its value exceeds the one of the
/// prefix up to `k`, which already does not fit.
fn no_u64(s: &Vec<char>, start: usize, k: usize) -> (r: Option<u64>)
    requires
        start <= k < s@.len(),
        start == (if s@.len() > 1 && s@[0] == '+' { 1int } else { 0int }),
        start < s@.len(),
        forall|j: int| start <= j <= k ==> is_digit(#[trigger] s@[j]),
        digits_value(s@.subrange(start as int, k + 1)) > u64::MAX,
    ensures
        r == parse_u64_spec(s@),
{
    let ghost d = s@.subrange(start as int, s@.len() as int);
    assert(d =~= numeral_digits(s@));
    assert(d.take(k - start + 1) =~= s@.subrange(start as int, k + 1));
    proof {
        if all_digits(d) {
            lemma_digits_mono(d, k - start + 1);
            assert(digits_value(d) > u64::MAX);
            assert(parse_nat(s@) == Some(digits_value(d)));
        } else {
            assert(parse_nat(s@) is None);
        }
    }
    None
}

/// The decimal digits of `n`.
pub open spec fn dec(n: nat) -> Seq<char>
    decreases n,
{
    if n < 10 {
        seq![((n + 48) as u32) as char]
    } else {
        dec(n / 10).push((((n % 10) + 48) as u32) as char)
    }
}

/// The decimal digits of `n`.
pub fn dec_u64(n: u64) -> (out: Vec<char>)
    ensures
        out@ == dec(n as nat),
    decreases n,
{
    if n < 10 {
        let c = char_of_digit(n as u32);
        let mut v: Vec<char> = Vec::new();
        v.push(c);
        assert(v@ =~= seq![c]);
        v
    } else {
        let mut v = dec_u64(n / 10);
        let c = char_of_digit((n % 10) as u32);
        v.push(c);
        v
    }
}

fn char_of_digit(d: u32) -> (c: char)
    requires
        d < 10,
    ensures
        c == ((d + 48) as u32) as char,
{
    let c = (d + 48) as u8 as char;
    assert(c == ((d + 48) as u32) as char) by {
        assert((d + 48) as u8 as char == ((d + 48) as u32) as char);
    }
    c
}

/// Appends `more` to `out`.
pub fn append_chars(out: &mut Vec<char>, more: &Vec<char>)
    ensures
        final(out)@ == old(out)@ + more@,
{
    let ghost start = out@;
    let mut k: usize = 0;
    while k < more.len()
        invariant
            k <= more@.len(),
            out@ == start + more@.take(k as int),
        decreases more@.len() - k,
    {
        out.push(more[k]);
        k = k + 1;
        assert(out@ =~= start + more@.take(k as int));
    }
    assert(more@.take(more@.len() as int) =~= more@);
}

/// `s` read as a `usize`.
pub fn parse_usize(s: &Vec<char>) -> (r: Option<usize>)
    ensures
        r == parse_usize_spec(s@),
{
    match parse_u64(s) {
        Some(v) => if v as u128 <= usize::MAX as u128 {
            Some(v as usize)
        } else {
            None
        },
        None => {
            None
        },
    }
}

/// Decimal digits are never empty, and numbers from 10 on have two or more.
pub proof fn lemma_dec_len(n: nat)
    ensures
        dec(n).len() >= 1,
        n >= 10 ==> dec(n).len() >= 2,
    decreases n,
{
    if n >= 10 {
        lemma_dec_len(n / 10);
    }
}

/// Different numbers have different decimal digits.
pub proof fn lemma_dec_injective(a: nat, b: nat)
    requires
        dec(a) == dec(b),
    ensures
        a == b,
    decreases a,
{
    lemma_dec_len(a);
    lemma_dec_len(b);
    if a < 10 && b < 10 {
        let ca = ((a + 48) as u32) as char;
        let cb = ((b + 48) as u32) as char;
        assert(dec(a) == seq![ca]);
        assert(dec(b) == seq![cb]);
        assert(seq![ca][0] == ca);
        assert(seq![cb][0] == cb);
        assert(ca == cb);
        assert(ca as u32 == (a + 48) as u32);
        assert(cb as u32 == (b + 48) as u32);
    } else if a >= 10 && b >= 10 {
        assert(dec(a).drop_last() == dec(a / 10));
        assert(dec(b).drop_last() == dec(b / 10));
        lemma_dec_injective(a / 10, b / 10);
        let ca = (((a % 10) + 48) as u32) as char;
        let cb = (((b % 10) + 48) as u32) as char;
        assert(dec(a).last() == ca);
        assert(dec(b).last() == cb);
        assert(ca == cb);
        assert(ca as u32 == ((a % 10) + 48) as u32);
        assert(cb as u32 == ((b % 10) + 48) as u32);
        assert(a == 10 * (a / 10) + a % 10);
        assert(b == 10 * (b / 10) + b % 10);
    }
}

} // verus!
