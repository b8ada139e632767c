//! Stable insertion sort, as a specification, and byte-wise string order.
use vstd::prelude::*;

verus! {

/// Where `x` goes in `s`: before the first element it is less than.
pub open spec fn insert_pos<T>(s: Seq<T>, x: T, lt: spec_fn(T, T) -> bool) -> int
    decreases s.len(),
{
    if s.len() == 0 {
        0
    } else if lt(x, s[0]) {
        0
    } else {
        1 + insert_pos(s.drop_first(), x, lt)
    }
}

/// `s` with `x` inserted before the first element it is less than.
pub open spec fn insert_sorted<T>(s: Seq<T>, x: T, lt: spec_fn(T, T) -> bool) -> Seq<T> {
    let p = insert_pos(s, x, lt);
    s.take(p) + seq![x] + s.skip(p)
}

/// Stable insertion sort: each element in turn is inserted after every
/// element it is not less than, so equal elements keep their order.
pub open spec fn sort_by<T>(s: Seq<T>, lt: spec_fn(T, T) -> bool) -> Seq<T>
    decreases s.len(),
{
    if s.len() == 0 {
        s
    } else {
        insert_sorted(sort_by(s.drop_last(), lt), s.last(), lt)
    }
}

pub proof fn lemma_insert_pos_bounds<T>(s: Seq<T>, x: T, lt: spec_fn(T, T) -> bool)
    ensures
        0 <= insert_pos(s, x, lt) <= s.len(),
        forall|k: int| 0 <= k < insert_pos(s, x, lt) ==> !lt(x, #[trigger] s[k]),
        insert_pos(s, x, lt) < s.len() ==> lt(x, s[insert_pos(s, x, lt)]),
    decreases s.len(),
{
    if s.len() > 0 && !lt(x, s[0]) {
        lemma_insert_pos_bounds(s.drop_first(), x, lt);
        assert forall|k: int| 0 <= k < insert_pos(s, x, lt) implies !lt(x, #[trigger] s[k]) by {
            if k > 0 {
                assert(s[k] == s.drop_first()[k - 1]);
            }
        }
    }
}

pub proof fn lemma_insert_pos_at<T>(s: Seq<T>, x: T, lt: spec_fn(T, T) -> bool, p: int)
    requires
        0 <= p <= s.len(),
        forall|k: int| 0 <= k < p ==> !lt(x, #[trigger] s[k]),
        p < s.len() ==> lt(x, s[p]),
    ensures
        insert_pos(s, x, lt) == p,
    decreases s.len(),
{
    if s.len() > 0 && p > 0 {
        assert(!lt(x, s[0]));
        assert forall|k: int| 0 <= k < p - 1 implies !lt(x, #[trigger] s.drop_first()[k]) by {
            assert(s.drop_first()[k] == s[k + 1]);
        }
        lemma_insert_pos_at(s.drop_first(), x, lt, p - 1);
    }
}

/// Inserting keeps every element and adds the new one.
pub proof fn lemma_insert_sorted_contains<T>(s: Seq<T>, x: T, lt: spec_fn(T, T) -> bool)
    ensures
        insert_sorted(s, x, lt).len() == s.len() + 1,
        forall|y: T| #[trigger] insert_sorted(s, x, lt).contains(y) <==> (s.contains(y) || y == x),
{
    lemma_insert_pos_bounds(s, x, lt);
    let p = insert_pos(s, x, lt);
    let r = insert_sorted(s, x, lt);
    assert forall|y: T| #[trigger] r.contains(y) <==> (s.contains(y) || y == x) by {
        if r.contains(y) {
            let k = choose|k: int| 0 <= k < r.len() && r[k] == y;
            if k < p {
                assert(s[k] == y);
            } else if k > p {
                assert(s[k - 1] == y);
            }
        }
        if s.contains(y) {
            let k = choose|k: int| 0 <= k < s.len() && s[k] == y;
            if k < p {
                assert(r[k] == y);
            } else {
                assert(r[k + 1] == y);
            }
        }
        if y == x {
            assert(r[p] == x);
        }
    }
}

/// Sorting keeps the elements: the same length, and the same elements.
pub proof fn lemma_sort_by_contains<T>(s: Seq<T>, lt: spec_fn(T, T) -> bool)
    ensures
        sort_by(s, lt).len() == s.len(),
        forall|y: T| #[trigger] sort_by(s, lt).contains(y) <==> s.contains(y),
    decreases s.len(),
{
    if s.len() > 0 {
        let d = s.drop_last();
        lemma_sort_by_contains(d, lt);
        lemma_insert_sorted_contains(sort_by(d, lt), s.last(), lt);
        assert forall|y: T| #[trigger] sort_by(s, lt).contains(y) <==> s.contains(y) by {
            if s.contains(y) && y != s.last() {
                let k = choose|k: int| 0 <= k < s.len() && s[k] == y;
                assert(d[k] == y);
            }
            if d.contains(y) {
                let k = choose|k: int| 0 <= k < d.len() && d[k] == y;
                assert(s[k] == y);
            }
            assert(s[s.len() - 1] == s.last());
        }
    }
}

/// `a` comes before `b` byte by byte (shorter first when one is a prefix of
/// the other), the order of `str::cmp`.
pub open spec fn bytes_lt(a: Seq<u8>, b: Seq<u8>) -> bool
    decreases a.len(),
{
    if b.len() == 0 {
        false
    } else if a.len() == 0 {
        true
    } else if a[0] != b[0] {
        a[0] < b[0]
    } else {
        bytes_lt(a.drop_first(), b.drop_first())
    }
}

/// Whether `a` comes before `b` byte by byte.
pub fn bytes_less(a: &[u8], b: &[u8]) -> (r: bool)
    ensures
        r == bytes_lt(a@, b@),
{
    let mut i: usize = 0;
    assert(a@.skip(0) =~= a@);
    assert(b@.skip(0) =~= b@);
    while i < a.len() && i < b.len() && a[i] == b[i]
        invariant
            i <= a@.len(),
            i <= b@.len(),
            bytes_lt(a@, b@) == bytes_lt(a@.skip(i as int), b@.skip(i as int)),
        decreases a@.len() - i,
    {
        let ghost sa = a@.skip(i as int);
        let ghost sb = b@.skip(i as int);
        assert(sa.drop_first() =~= a@.skip(i + 1));
        assert(sb.drop_first() =~= b@.skip(i + 1));
        i = i + 1;
    }
    let ghost sa = a@.skip(i as int);
    let ghost sb = b@.skip(i as int);
    if i == b.len() {
        assert(sb.len() == 0);
        false
    } else if i == a.len() {
        true
    } else {
        assert(sa[0] == a@[i as int] && sb[0] == b@[i as int]);
        a[i] < b[i]
    }
}

/// Whether two byte sequences are equal.
pub fn bytes_eq(a: &[u8], b: &[u8]) -> (r: bool)
    ensures
        r == (a@ == b@),
{
    if a.len() != b.len() {
        return false;
    }
    let mut i: usize = 0;
    while i < a.len()
        invariant
            i <= a@.len() == b@.len(),
            a@.take(i as int) == b@.take(i as int),
        decreases a@.len() - i,
    {
        if a[i] != b[i] {
            assert(a@[i as int] != b@[i as int]);
            return false;
        }
        i = i + 1;
        assert(a@.take(i as int) =~= b@.take(i as int));
    }
    assert(a@ =~= a@.take(i as int));
    assert(b@ =~= b@.take(i as int));
    true
}

// ---------------------------------------------------------------------------
// Sorting puts elements in order
// ---------------------------------------------------------------------------

/// `lt` is a strict order: irreflexive and transitive.
pub open spec fn strict_order<T>(lt: spec_fn(T, T) -> bool) -> bool {
    &&& forall|a: T| !(#[trigger] lt(a, a))
    &&& forall|a: T, b: T, c: T| #[trigger] lt(a, b) && #[trigger] lt(b, c) ==> lt(a, c)
}

/// No element of `s` is less than one before it.
pub open spec fn ordered_by<T>(s: Seq<T>, lt: spec_fn(T, T) -> bool) -> bool {
    forall|i: int, j: int| 0 <= i < j < s.len() ==> !lt(#[trigger] s[j], #[trigger] s[i])
}

proof fn lemma_insert_sorted_ordered<T>(s: Seq<T>, x: T, lt: spec_fn(T, T) -> bool)
    requires
        strict_order(lt),
        ordered_by(s, lt),
    ensures
        ordered_by(insert_sorted(s, x, lt), lt),
{
    lemma_insert_pos_bounds(s, x, lt);
    let p = insert_pos(s, x, lt);
    let r = insert_sorted(s, x, lt);
    assert forall|i: int, j: int| 0 <= i < j < r.len() implies !lt(#[trigger] r[j], #[trigger] r[i]) by {
        if j < p {
            assert(r[i] == s[i] && r[j] == s[j]);
        } else if j == p {
            assert(r[i] == s[i]);
            assert(r[j] == x);
        } else if i < p {
            assert(r[i] == s[i] && r[j] == s[j - 1]);
        } else if i == p {
            assert(r[i] == x && r[j] == s[j - 1]);
            assert(lt(x, s[p]));
            if lt(s[j - 1], x) {
                assert(lt(s[j - 1], s[p]));
                if j - 1 == p {
                    assert(!lt(s[p], s[p]));
                }
            }
        } else {
            assert(r[i] == s[i - 1] && r[j] == s[j - 1]);
        }
    }
}

/// Sorting by a strict order puts the elements in that order: none comes
/// after one it is less than.
pub proof fn lemma_sort_by_ordered<T>(s: Seq<T>, lt: spec_fn(T, T) -> bool)
    requires
        strict_order(lt),
    ensures
        ordered_by(sort_by(s, lt), lt),
    decreases s.len(),
{
    if s.len() > 0 {
        lemma_sort_by_ordered(s.drop_last(), lt);
        lemma_insert_sorted_ordered(sort_by(s.drop_last(), lt), s.last(), lt);
    }
}

/// [`bytes_lt`] is irreflexive.
pub proof fn lemma_bytes_lt_irreflexive(a: Seq<u8>)
    ensures
        !bytes_lt(a, a),
    decreases a.len(),
{
    if a.len() > 0 {
        lemma_bytes_lt_irreflexive(a.drop_first());
    }
}

/// [`bytes_lt`] is transitive.
pub proof fn lemma_bytes_lt_transitive(a: Seq<u8>, b: Seq<u8>, c: Seq<u8>)
    requires
        bytes_lt(a, b),
        bytes_lt(b, c),
    ensures
        bytes_lt(a, c),
    decreases a.len(),
{
    if a.len() > 0 && b.len() > 0 && c.len() > 0 && a[0] == b[0] && b[0] == c[0] {
        lemma_bytes_lt_transitive(a.drop_first(), b.drop_first(), c.drop_first());
    }
}

} // verus!
