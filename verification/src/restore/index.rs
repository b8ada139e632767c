//! Reading a selection such as `0,2-4` of zero-based entry indexes.
use vstd::prelude::*;
use crate::error::{Error, ErrorView, result_view};
use crate::text::{
    append_chars, chars_of, dec, dec_u64, find, find_char, parse_usize, parse_usize_spec, split, split_on,
    string_of, string_views, trim, trim_chars,
};

verus! {

/// `a - b`, or 0 when `b` is larger.
pub open spec fn sat_sub(a: usize, b: usize) -> usize {
    if a >= b {
        (a - b) as usize
    } else {
        0
    }
}

/// A single index below `len`.
pub open spec fn spec_parse_index(text: Seq<char>, len: usize) -> Result<usize, ErrorView> {
    match parse_usize_spec(text) {
        None => Err(ErrorView::InvalidSelection("not an index: "@ + text)),
        Some(i) => if i >= len {
            Err(
                ErrorView::InvalidSelection(
                    "out of range 0.."@ + dec(sat_sub(len, 1) as nat) + ": "@ + dec(i as nat),
                ),
            )
        } else {
            Ok(i)
        },
    }
}

/// `first`, `first + 1`, ..., `last`.
pub open spec fn range_seq(first: usize, last: usize) -> Seq<usize> {
    Seq::new((last - first + 1) as nat, |k: int| (first + k) as usize)
}

/// The indexes one comma-separated part selects: nothing for a blank part,
/// a range for `a-b`, a single index otherwise.
pub open spec fn part_indexes(raw: Seq<char>, len: usize) -> Result<Seq<usize>, ErrorView> {
    let part = trim(raw);
    let d = find_char(part, '-');
    if part.len() == 0 {
        Ok(seq![])
    } else if d >= 0 {
        match spec_parse_index(trim(part.take(d)), len) {
            Err(e) => Err(e),
            Ok(f) => match spec_parse_index(trim(part.skip(d + 1)), len) {
                Err(e) => Err(e),
                Ok(l) => if f > l {
                    Err(ErrorView::InvalidSelection("invalid range: "@ + part))
                } else {
                    Ok(range_seq(f, l))
                },
            },
        }
    } else {
        match spec_parse_index(part, len) {
            Err(e) => Err(e),
            Ok(i) => Ok(seq![i]),
        }
    }
}

/// The indexes selected by the parts, in order; the first part in error
/// decides the error.
pub open spec fn collect_indexes(parts: Seq<Seq<char>>, len: usize) -> Result<Seq<usize>, ErrorView>
    decreases parts.len(),
{
    if parts.len() == 0 {
        Ok(seq![])
    } else {
        match collect_indexes(parts.drop_last(), len) {
            Err(e) => Err(e),
            Ok(acc) => match part_indexes(parts.last(), len) {
                Err(e) => Err(e),
                Ok(more) => Ok(acc + more),
            },
        }
    }
}

/// The selection `input` denotes among `len` entries.
pub open spec fn spec_parse_indexes(input: Seq<char>, len: usize) -> Result<Seq<usize>, ErrorView> {
    match collect_indexes(split_on(input, ','), len) {
        Err(e) => Err(e),
        Ok(v) => if v.len() == 0 {
            Err(ErrorView::InvalidSelection("empty selection"@))
        } else {
            Ok(v)
        },
    }
}

fn text_then(lit: &str, rest: &Vec<char>) -> (out: Vec<char>)
    ensures
        out@ == lit@ + rest@,
{
    let mut out = chars_of(lit);
    append_chars(&mut out, rest);
    out
}

fn parse_index(text: &Vec<char>, len: usize) -> (r: Result<usize, Error>)
    ensures
        result_view(r) == spec_parse_index(text@, len),
{
    match parse_usize(text) {
        None => Err(Error::InvalidSelection(string_of(text_then("not an index: ", text).as_slice()))),
        Some(index) => {
            if index >= len {
                let top: usize = if len >= 1 { len - 1 } else { 0 };
                let mut msg = text_then("out of range 0..", &dec_u64(top as u64));
                append_chars(&mut msg, &chars_of(": "));
                append_chars(&mut msg, &dec_u64(index as u64));
                Err(Error::InvalidSelection(string_of(msg.as_slice())))
            } else {
                Ok(index)
            }
        },
    }
}

fn sub_chars(v: &Vec<char>, a: usize, b: usize) -> (out: Vec<char>)
    requires
        a <= b <= v@.len(),
    ensures
        out@ == v@.subrange(a as int, b as int),
{
    let mut out: Vec<char> = Vec::new();
    let mut k = a;
    while k < b
        invariant
            a <= k <= b <= v@.len(),
            out@ == v@.subrange(a as int, k as int),
        decreases b - k,
    {
        out.push(v[k]);
        k = k + 1;
        assert(out@ =~= v@.subrange(a as int, k as int));
    }
    out
}

fn part_indexes_exec(raw: &String, len: usize, out: &mut Vec<usize>) -> (r: Result<(), Error>)
    ensures
        match part_indexes(raw@, len) {
            Err(e) => r is Err && r->Err_0@ == e,
            Ok(more) => r is Ok && final(out)@ == old(out)@ + more,
        },
{
    let part = trim_chars(&chars_of(raw.as_str()));
    if part.len() == 0 {
        assert(old(out)@ + Seq::<usize>::empty() =~= old(out)@);
        return Ok(());
    }
    match find(&part, '-') {
        Some(d) => {
            let first_text = trim_chars(&sub_chars(&part, 0, d));
            assert(part@.subrange(0, d as int) =~= part@.take(d as int));
            let first = match parse_index(&first_text, len) {
                Ok(v) => v,
                Err(e) => {
                    return Err(e);
                },
            };
            let last_text = trim_chars(&sub_chars(&part, d + 1, part.len()));
            assert(part@.subrange(d + 1, part@.len() as int) =~= part@.skip(d + 1));
            let last = match parse_index(&last_text, len) {
                Ok(v) => v,
                Err(e) => {
                    return Err(e);
                },
            };
            if first > last {
                return Err(Error::InvalidSelection(string_of(text_then("invalid range: ", &part).as_slice())));
            }
            let ghost start = out@;
            let mut index = first;
            while index <= last
                invariant
                    first <= index <= last + 1,
                    last < len,
                    out@ == start + range_seq(first, (index - 1) as usize).take(index - first),
                decreases last + 1 - index,
            {
                out.push(index);
                index = index + 1;
                assert(out@ =~= start + range_seq(first, (index - 1) as usize).take(index - first));
            }
            assert(range_seq(first, (index - 1) as usize).take(index - first) =~= range_seq(first, last));
            Ok(())
        },
        None => {
            match parse_index(&part, len) {
                Ok(i) => {
                    out.push(i);
                    assert(out@ =~= old(out)@ + seq![i]);
                    Ok(())
                },
                Err(e) => Err(e),
            }
        },
    }
}

/// The zero-based indexes selected by `input` among `len` entries: parts
/// separated by `,`, each a single index or an inclusive range `a-b`, blank
/// parts ignored; every index must be below `len`.
pub fn parse_indexes(input: &str, len: usize) -> (r: Result<Vec<usize>, Error>)
    ensures
        match spec_parse_indexes(input@, len) {
            Ok(v) => r is Ok && r->Ok_0@ == v,
            Err(e) => r is Err && r->Err_0@ == e,
        },
{
    let parts = split(input, ',');
    let mut indexes: Vec<usize> = Vec::new();
    let mut i: usize = 0;
    assert(string_views(parts@).take(0) =~= Seq::<Seq<char>>::empty());
    while i < parts.len()
        invariant
            i <= parts@.len(),
            string_views(parts@) == split_on(input@, ','),
            collect_indexes(string_views(parts@).take(i as int), len) == Ok::<Seq<usize>, ErrorView>(
                indexes@,
            ),
        decreases parts@.len() - i,
    {
        let ghost ps = string_views(parts@);
        assert(ps.take(i + 1).drop_last() =~= ps.take(i as int));
        assert(ps.take(i + 1).last() == parts@[i as int]@);
        match part_indexes_exec(&parts[i], len, &mut indexes) {
            Ok(()) => {},
            Err(e) => {
                proof {
                    lemma_collect_err_sticks(ps, i as int + 1, len);
                    assert(ps.take(ps.len() as int) =~= ps);
                }
                return Err(e);
            },
        }
        i = i + 1;
    }
    assert(string_views(parts@).take(parts@.len() as int) =~= string_views(parts@));
    if indexes.len() == 0 {
        return Err(Error::InvalidSelection(string_of(chars_of("empty selection").as_slice())));
    }
    Ok(indexes)
}

proof fn lemma_collect_err_sticks(ps: Seq<Seq<char>>, k: int, len: usize)
    requires
        0 <= k <= ps.len(),
        collect_indexes(ps.take(k), len) is Err,
    ensures
        collect_indexes(ps.take(ps.len() as int), len) == collect_indexes(ps.take(k), len),
    decreases ps.len() - k,
{
    if k < ps.len() {
        assert(ps.take(k + 1).drop_last() =~= ps.take(k));
        lemma_collect_err_sticks(ps, k + 1, len);
    }
}

proof fn lemma_part_in_range(raw: Seq<char>, len: usize)
    requires
        part_indexes(raw, len) is Ok,
    ensures
        forall|k: int| 0 <= k < part_indexes(raw, len)->Ok_0.len() ==> #[trigger] part_indexes(raw, len)->Ok_0[k] < len,
{
}

proof fn lemma_collect_in_range(parts: Seq<Seq<char>>, len: usize)
    requires
        collect_indexes(parts, len) is Ok,
    ensures
        forall|k: int| 0 <= k < collect_indexes(parts, len)->Ok_0.len() ==> #[trigger] collect_indexes(parts, len)->Ok_0[k] < len,
    decreases parts.len(),
{
    if parts.len() > 0 {
        lemma_collect_in_range(parts.drop_last(), len);
        lemma_part_in_range(parts.last(), len);
        let acc = collect_indexes(parts.drop_last(), len)->Ok_0;
        let more = part_indexes(parts.last(), len)->Ok_0;
        assert forall|k: int| 0 <= k < (acc + more).len() implies #[trigger] (acc + more)[k] < len by {
            if k >= acc.len() {
                assert((acc + more)[k] == more[k - acc.len()]);
            }
        }
    }
}

/// A selection that can be read picks at least one entry, and only entries
/// that exist: every index is below the number of entries.
pub proof fn lemma_selection_in_range(input: Seq<char>, len: usize)
    requires
        spec_parse_indexes(input, len) is Ok,
    ensures
        spec_parse_indexes(input, len)->Ok_0.len() > 0,
        forall|k: int| 0 <= k < spec_parse_indexes(input, len)->Ok_0.len() ==> #[trigger] spec_parse_indexes(input, len)->Ok_0[k] < len,
{
    lemma_collect_in_range(split_on(input, ','), len);
}

} // verus!
