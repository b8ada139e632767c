//! Selection of trashed files by a glob pattern (`*` and `?`), matched
//! against the basename or, for patterns starting with `/`, the full path.
use vstd::prelude::*;
use crate::text::chars_of;

verus! {

/// `*`: any run of characters.
pub const STAR: char = '*';

/// `?`: any single character.
pub const QMARK: char = '?';

/// `/`
pub const SLASH: char = '/';

// ---------------------------------------------------------------------------
// What a glob means
// ---------------------------------------------------------------------------

/// Whether `p[i..]` matches `t[j..]`: `*` matches any run of characters,
/// `?` any single character, every other character itself.
pub open spec fn glob_at(p: Seq<char>, t: Seq<char>, i: int, j: int) -> bool
    decreases p.len() - i + t.len() - j,
{
    if !(0 <= i <= p.len() && 0 <= j <= t.len()) {
        false
    } else if i == p.len() {
        j == t.len()
    } else if p[i] == STAR {
        glob_at(p, t, i + 1, j) || (j < t.len() && glob_at(p, t, i, j + 1))
    } else {
        j < t.len() && (p[i] == QMARK || p[i] == t[j]) && glob_at(p, t, i + 1, j + 1)
    }
}

/// Whether the whole of `t` matches the pattern `p`.
pub open spec fn glob(p: Seq<char>, t: Seq<char>) -> bool {
    glob_at(p, t, 0, 0)
}

/// `p[i..]` is made of `*` only.
pub open spec fn stars_only(p: Seq<char>, i: int) -> bool {
    forall|k: int| i <= k < p.len() ==> p[k] == STAR
}

// ---------------------------------------------------------------------------
// How the matcher scans
// ---------------------------------------------------------------------------

/// The single-backtrack scan: a `*` of the pattern is remembered together
/// with the text position it was met at; another pattern character that is
/// `?` or equal to the text character is consumed with it; on a mismatch the
/// scan returns to just after the remembered `*` and lets it absorb one more
/// character; at the end of the text only `*` may be left.
pub open spec fn scan(p: Seq<char>, t: Seq<char>, pi: int, ti: int, star: Option<int>, st: int) -> bool
    decreases t.len() + 1 - st, t.len() - ti, p.len() - pi,
{
    if !(0 <= pi <= p.len() && 0 <= st <= ti <= t.len() && (star matches Some(s) ==> 0 <= s < p.len())) {
        false
    } else if ti < t.len() {
        if pi < p.len() && p[pi] == STAR {
            scan(p, t, pi + 1, ti, Some(pi), ti)
        } else if pi < p.len() && (p[pi] == QMARK || p[pi] == t[ti]) {
            scan(p, t, pi + 1, ti + 1, star, st)
        } else {
            match star {
                Some(s) => scan(p, t, s + 1, st + 1, star, st + 1),
                None => false,
            }
        }
    } else {
        stars_only(p, pi)
    }
}

/// The result of the matcher on pattern `p` and text `t`.
pub open spec fn glob_scan(p: Seq<char>, t: Seq<char>) -> bool {
    scan(p, t, 0, 0, None, 0)
}

/// The characters after the last `/` (all of `t` when it has none).
pub open spec fn after_last_slash(t: Seq<char>) -> Seq<char>
    decreases t.len(),
{
    if t.len() == 0 {
        t
    } else if t.last() == SLASH {
        Seq::<char>::empty()
    } else {
        after_last_slash(t.drop_last()).push(t.last())
    }
}

/// What a pattern is matched against: the full path for a pattern that
/// starts with `/`, the basename otherwise.
pub open spec fn match_subject(pattern: Seq<char>, location: Seq<char>) -> Seq<char> {
    if pattern.len() > 0 && pattern[0] == SLASH {
        location
    } else {
        after_last_slash(location)
    }
}

// ---------------------------------------------------------------------------
// The matcher
// ---------------------------------------------------------------------------

/// Whether the whole of `text` matches `pattern`, where `*` matches any run
/// of characters and `?` any single character.
fn glob_match(pattern: &[char], text: &[char]) -> (r: bool)
    ensures
        r == glob(pattern@, text@),
{
    proof {
        lemma_glob_scan_is_glob(pattern@, text@);
    }
    let ghost p = pattern@;
    let ghost t = text@;
    let mut pi: usize = 0;
    let mut ti: usize = 0;
    let mut star_pattern: Option<usize> = None;
    let mut star_text: usize = 0;
    while ti < text.len()
        invariant
            p == pattern@,
            t == text@,
            pi <= p.len(),
            star_text <= ti <= t.len(),
            star_pattern matches Some(s) ==> s < p.len(),
            scan(p, t, pi as int, ti as int, match star_pattern {
                Some(s) => Some(s as int),
                None => None,
            }, star_text as int) == glob_scan(p, t),
            glob_scan(p, t) == glob(p, t),
        decreases t.len() + 1 - star_text, t.len() - ti, p.len() - pi,
    {
        if pi < pattern.len() && pattern[pi] == STAR {
            star_pattern = Some(pi);
            pi = pi + 1;
            star_text = ti;
            continue;
        }
        if pi < pattern.len() && (pattern[pi] == QMARK || pattern[pi] == text[ti]) {
            pi = pi + 1;
            ti = ti + 1;
            continue;
        }
        match star_pattern {
            Some(star_index) => {
                pi = star_index + 1;
                star_text = star_text + 1;
                ti = star_text;
            },
            None => {
                return false;
            },
        }
    }
    while pi < pattern.len() && pattern[pi] == STAR
        invariant
            p == pattern@,
            t == text@,
            pi <= p.len(),
            ti == t.len(),
            stars_only(p, pi as int) == glob_scan(p, t),
            glob_scan(p, t) == glob(p, t),
        decreases p.len() - pi,
    {
        pi = pi + 1;
    }
    pi == pattern.len()
}

fn subject_of(pattern: &[char], location: &[char]) -> (out: Vec<char>)
    ensures
        out@ == match_subject(pattern@, location@),
{
    let mut start: usize = 0;
    if !(pattern.len() > 0 && pattern[0] == SLASH) {
        let mut k = location.len();
        while k > 0 && location[k - 1] != SLASH
            invariant
                k <= location@.len(),
                forall|j: int| k <= j < location@.len() ==> location@[j] != SLASH,
            decreases k,
        {
            k = k - 1;
        }
        start = k;
        proof {
            lemma_after_last_slash(location@, k as int);
        }
    }
    let mut out: Vec<char> = Vec::new();
    let mut j = start;
    while j < location.len()
        invariant
            start <= j <= location@.len(),
            out@ == location@.subrange(start as int, j as int),
        decreases location@.len() - j,
    {
        out.push(location[j]);
        j = j + 1;
        assert(out@ =~= location@.subrange(start as int, j as int));
    }
    proof {
        if pattern@.len() > 0 && pattern@[0] == SLASH {
            assert(location@.subrange(0, location@.len() as int) =~= location@);
        }
    }
    out
}

proof fn lemma_after_last_slash(t: Seq<char>, k: int)
    requires
        0 <= k <= t.len(),
        k == 0 || t[k - 1] == SLASH,
        forall|j: int| k <= j < t.len() ==> t[j] != SLASH,
    ensures
        after_last_slash(t) == t.subrange(k, t.len() as int),
    decreases t.len(),
{
    if t.len() == k {
        if k > 0 {
            assert(t.last() == SLASH);
        }
        assert(t.subrange(k, t.len() as int) =~= Seq::<char>::empty());
    } else {
        lemma_after_last_slash(t.drop_last(), k);
        assert(t.subrange(k, t.len() as int) =~= t.drop_last().subrange(k, t.len() - 1).push(t.last()));
    }
}

/// Whether a trashed file's original location matches an `rm` pattern.
/// A pattern starting with `/` is matched against the whole location, any
/// other against its last component; `*` matches any run of characters and
/// `?` any single character.
pub fn matches_original_location(pattern: &str, original_location: &str) -> (r: bool)
    ensures
        r == glob(pattern@, match_subject(pattern@, original_location@)),
{
    let pc = chars_of(pattern);
    let lc = chars_of(original_location);
    let subject = subject_of(pc.as_slice(), lc.as_slice());
    glob_match(pc.as_slice(), subject.as_slice())
}

// ---------------------------------------------------------------------------
// The scan decides glob matching
// ---------------------------------------------------------------------------

/// Some `k` in `j..=t.len()` with `p[i..]` matching `t[k..]`.
pub open spec fn any_from(p: Seq<char>, t: Seq<char>, i: int, j: int) -> bool {
    exists|k: int| j <= k <= t.len() && #[trigger] glob_at(p, t, i, k)
}

/// `p[a..a + len]` holds no `*` and matches `t[b..b + len]` character for character.
pub open spec fn lit_match(p: Seq<char>, t: Seq<char>, a: int, b: int, len: int) -> bool {
    &&& 0 <= a && a + len <= p.len()
    &&& 0 <= b && b + len <= t.len()
    &&& len >= 0
    &&& forall|q: int| 0 <= q < len ==> #[trigger] p[a + q] != STAR && (p[a + q] == QMARK || p[a + q] == t[b + q])
}

/// `p[a..a + len]` holds no `*`.
pub open spec fn star_free(p: Seq<char>, a: int, len: int) -> bool {
    &&& 0 <= a && a + len <= p.len()
    &&& len >= 0
    &&& forall|q: int| 0 <= q < len ==> #[trigger] p[a + q] != STAR
}

proof fn lemma_star_unfold(p: Seq<char>, t: Seq<char>, i: int, j: int)
    requires
        0 <= i < p.len(),
        0 <= j <= t.len(),
        p[i] == STAR,
    ensures
        glob_at(p, t, i, j) == any_from(p, t, i + 1, j),
    decreases t.len() - j,
{
    if j < t.len() {
        lemma_star_unfold(p, t, i, j + 1);
        if any_from(p, t, i + 1, j) {
            let k = choose|k: int| j <= k <= t.len() && #[trigger] glob_at(p, t, i + 1, k);
            if k > j {
                assert(any_from(p, t, i + 1, j + 1));
            }
        }
        if glob_at(p, t, i + 1, j) {
            assert(any_from(p, t, i + 1, j));
        }
        if any_from(p, t, i + 1, j + 1) {
            let k = choose|k: int| j + 1 <= k <= t.len() && #[trigger] glob_at(p, t, i + 1, k);
            assert(any_from(p, t, i + 1, j));
        }
    } else {
        if any_from(p, t, i + 1, j) {
            let k = choose|k: int| j <= k <= t.len() && #[trigger] glob_at(p, t, i + 1, k);
            assert(k == j);
        }
        if glob_at(p, t, i + 1, j) {
            assert(any_from(p, t, i + 1, j));
        }
    }
}

proof fn lemma_lit(p: Seq<char>, t: Seq<char>, a: int, b: int, len: int)
    requires
        lit_match(p, t, a, b, len),
    ensures
        glob_at(p, t, a, b) == glob_at(p, t, a + len, b + len),
    decreases len,
{
    if len > 0 {
        assert(p[a + 0] != STAR);
        assert(lit_match(p, t, a + 1, b + 1, len - 1)) by {
            assert forall|q: int| 0 <= q < len - 1 implies #[trigger] p[a + 1 + q] != STAR && (p[a + 1 + q] == QMARK || p[a + 1 + q] == t[b + 1 + q]) by {
                assert(p[a + (q + 1)] != STAR);
            }
        }
        lemma_lit(p, t, a + 1, b + 1, len - 1);
    }
}

proof fn lemma_star_free_forward(p: Seq<char>, t: Seq<char>, a: int, j: int, len: int)
    requires
        star_free(p, a, len),
        glob_at(p, t, a, j),
    ensures
        j + len <= t.len(),
        glob_at(p, t, a + len, j + len),
    decreases len,
{
    if len > 0 {
        assert(p[a + 0] != STAR);
        assert(star_free(p, a + 1, len - 1)) by {
            assert forall|q: int| 0 <= q < len - 1 implies #[trigger] p[a + 1 + q] != STAR by {
                assert(p[a + (q + 1)] != STAR);
            }
        }
        lemma_star_free_forward(p, t, a + 1, j + 1, len - 1);
    }
}

proof fn lemma_mismatch(p: Seq<char>, t: Seq<char>, i: int, j: int)
    requires
        0 <= i <= p.len(),
        0 <= j < t.len(),
        i == p.len() || (p[i] != STAR && p[i] != QMARK && p[i] != t[j]),
    ensures
        !glob_at(p, t, i, j),
{
}

proof fn lemma_end(p: Seq<char>, t: Seq<char>, i: int)
    requires
        0 <= i <= p.len(),
    ensures
        glob_at(p, t, i, t.len() as int) == stars_only(p, i),
    decreases p.len() - i,
{
    if i < p.len() {
        lemma_end(p, t, i + 1);
    }
}

/// What the scan knows in each state.
pub open spec fn scan_inv(p: Seq<char>, t: Seq<char>, pi: int, ti: int, star: Option<int>, st: int) -> bool {
    &&& 0 <= pi <= p.len()
    &&& 0 <= st <= ti <= t.len()
    &&& match star {
        None => glob(p, t) == glob_at(p, t, pi, ti),
        Some(s) => {
            &&& 0 <= s < pi
            &&& p[s] == STAR
            &&& lit_match(p, t, s + 1, st, pi - (s + 1))
            &&& ti - st == pi - (s + 1)
            &&& glob(p, t) == any_from(p, t, s + 1, st)
        },
    }
}

proof fn lemma_scan_inv(p: Seq<char>, t: Seq<char>, pi: int, ti: int, star: Option<int>, st: int)
    requires
        scan_inv(p, t, pi, ti, star, st),
    ensures
        scan(p, t, pi, ti, star, st) == glob(p, t),
    decreases t.len() + 1 - st, t.len() - ti, p.len() - pi,
{
    if ti < t.len() {
        if pi < p.len() && p[pi] == STAR {
            match star {
                None => {
                    lemma_star_unfold(p, t, pi, ti);
                    assert(lit_match(p, t, pi + 1, ti, 0));
                    lemma_scan_inv(p, t, pi + 1, ti, Some(pi), ti);
                },
                Some(s) => {
                    let len = pi - (s + 1);
                    lemma_scan_star_again(p, t, s, st, pi, ti);
                    assert(lit_match(p, t, pi + 1, ti, 0));
                    lemma_scan_inv(p, t, pi + 1, ti, Some(pi), ti);
                },
            }
        } else if pi < p.len() && (p[pi] == QMARK || p[pi] == t[ti]) {
            match star {
                None => {
                    assert(glob_at(p, t, pi, ti) == glob_at(p, t, pi + 1, ti + 1));
                    lemma_scan_inv(p, t, pi + 1, ti + 1, star, st);
                },
                Some(s) => {
                    let len = pi - (s + 1);
                    assert(lit_match(p, t, s + 1, st, len + 1)) by {
                        assert forall|q: int| 0 <= q < len + 1 implies #[trigger] p[s + 1 + q] != STAR && (p[s + 1 + q] == QMARK || p[s + 1 + q] == t[st + q]) by {
                            if q < len {
                                assert(p[s + 1 + q] != STAR && (p[s + 1 + q] == QMARK || p[s + 1 + q] == t[st + q]));
                            }
                        }
                    }
                    lemma_scan_inv(p, t, pi + 1, ti + 1, star, st);
                },
            }
        } else {
            match star {
                None => {
                    lemma_mismatch(p, t, pi, ti);
                },
                Some(s) => {
                    let len = pi - (s + 1);
                    lemma_lit(p, t, s + 1, st, len);
                    lemma_mismatch(p, t, pi, ti);
                    assert(!glob_at(p, t, s + 1, st));
                    assert(any_from(p, t, s + 1, st) == any_from(p, t, s + 1, st + 1)) by {
                        if any_from(p, t, s + 1, st) {
                            let k = choose|k: int| st <= k <= t.len() && #[trigger] glob_at(p, t, s + 1, k);
                            assert(k != st);
                        }
                    }
                    assert(lit_match(p, t, s + 1, st + 1, 0));
                    lemma_scan_inv(p, t, s + 1, st + 1, star, st + 1);
                },
            }
        }
    } else {
        lemma_end(p, t, pi);
        match star {
            None => {},
            Some(s) => {
                let len = pi - (s + 1);
                lemma_lit(p, t, s + 1, st, len);
                if stars_only(p, pi) {
                    assert(glob_at(p, t, s + 1, st));
                    assert(any_from(p, t, s + 1, st));
                }
                if any_from(p, t, s + 1, st) {
                    let k = choose|k: int| st <= k <= t.len() && #[trigger] glob_at(p, t, s + 1, k);
                    assert(star_free(p, s + 1, len)) by {
                        assert forall|q: int| 0 <= q < len implies #[trigger] p[s + 1 + q] != STAR by {
                            assert(p[s + 1 + q] != STAR && (p[s + 1 + q] == QMARK || p[s + 1 + q] == t[st + q]));
                        }
                    }
                    lemma_star_free_forward(p, t, s + 1, k, len);
                    assert(k == st);
                }
            },
        }
    }
}

proof fn lemma_scan_star_again(p: Seq<char>, t: Seq<char>, s: int, st: int, pi: int, ti: int)
    requires
        0 <= s < pi < p.len(),
        p[pi] == STAR,
        lit_match(p, t, s + 1, st, pi - (s + 1)),
        ti - st == pi - (s + 1),
        ti <= t.len(),
    ensures
        any_from(p, t, s + 1, st) == any_from(p, t, pi + 1, ti),
{
    let len = pi - (s + 1);
    lemma_lit(p, t, s + 1, st, len);
    lemma_star_unfold(p, t, pi, ti);
    if any_from(p, t, pi + 1, ti) {
        assert(glob_at(p, t, s + 1, st));
        assert(any_from(p, t, s + 1, st));
    }
    if any_from(p, t, s + 1, st) {
        let k = choose|k: int| st <= k <= t.len() && #[trigger] glob_at(p, t, s + 1, k);
        assert(star_free(p, s + 1, len)) by {
            assert forall|q: int| 0 <= q < len implies #[trigger] p[s + 1 + q] != STAR by {
                assert(p[s + 1 + q] != STAR && (p[s + 1 + q] == QMARK || p[s + 1 + q] == t[st + q]));
            }
        }
        lemma_star_free_forward(p, t, s + 1, k, len);
        lemma_star_unfold(p, t, pi, k + len);
        let k2 = choose|k2: int| k + len <= k2 <= t.len() && #[trigger] glob_at(p, t, pi + 1, k2);
        assert(any_from(p, t, pi + 1, ti));
    }
}

/// The single-backtrack scan decides exactly glob matching.
pub proof fn lemma_glob_scan_is_glob(p: Seq<char>, t: Seq<char>)
    ensures
        glob_scan(p, t) == glob(p, t),
{
    lemma_scan_inv(p, t, 0, 0, None, 0);
}

} // verus!
