//! Unix path handling on strings: the component model that `std::path` uses,
//! lexical normalisation, joining and prefix tests.
use vstd::prelude::*;
use vstd::utf8::encode_utf8;
use crate::order::{bytes_eq, bytes_less, bytes_lt, lemma_bytes_lt_irreflexive, lemma_bytes_lt_transitive};
use crate::text::{append_chars, chars_eq, chars_of, split, split_on, string_of, string_views};

verus! {

// ---------------------------------------------------------------------------
// The model
// ---------------------------------------------------------------------------

/// A path is absolute when it starts with the root separator.
pub open spec fn is_abs(s: Seq<char>) -> bool {
    s.len() > 0 && s[0] == '/'
}

/// The pieces between `/` separators, left to right (`"/a//b"` gives `["", "a", "", "b"]`).
pub open spec fn pieces(s: Seq<char>) -> Seq<Seq<char>>
    decreases s.len(),
{
    if s.len() == 0 {
        seq![Seq::<char>::empty()]
    } else {
        let p = pieces(s.drop_last());
        if s.last() == '/' {
            p.push(Seq::<char>::empty())
        } else {
            p.update(p.len() - 1, p.last().push(s.last()))
        }
    }
}

/// `..`
pub open spec fn dotdot() -> Seq<char> {
    seq!['.', '.']
}

/// A piece that is a component: neither empty nor `.`.
pub open spec fn is_seg(p: Seq<char>) -> bool {
    p.len() > 0 && p != seq!['.']
}

/// One step of lexical normalisation: `..` removes the last kept component
/// (or is kept in a relative path with nothing left to remove), other
/// components are kept, empty and `.` pieces are ignored.
pub open spec fn norm_step(stack: Seq<Seq<char>>, piece: Seq<char>, absolute: bool) -> Seq<Seq<char>> {
    if !is_seg(piece) {
        stack
    } else if piece == dotdot() {
        if stack.len() > 0 {
            stack.drop_last()
        } else if absolute {
            stack
        } else {
            stack.push(piece)
        }
    } else {
        stack.push(piece)
    }
}

/// Normalisation of a sequence of pieces.
pub open spec fn norm_fold(ps: Seq<Seq<char>>, absolute: bool) -> Seq<Seq<char>>
    decreases ps.len(),
{
    if ps.len() == 0 {
        seq![]
    } else {
        norm_step(norm_fold(ps.drop_last(), absolute), ps.last(), absolute)
    }
}

/// The components kept by normalising `s`.
pub open spec fn norm_segs(s: Seq<char>) -> Seq<Seq<char>> {
    norm_fold(pieces(s), is_abs(s))
}

/// Components joined by `/`.
pub open spec fn join_segs(segs: Seq<Seq<char>>) -> Seq<char>
    decreases segs.len(),
{
    if segs.len() == 0 {
        seq![]
    } else if segs.len() == 1 {
        segs[0]
    } else {
        join_segs(segs.drop_last()) + seq!['/'] + segs.last()
    }
}

/// The text of a path with an optional root and the given components.
pub open spec fn render(rooted: bool, segs: Seq<Seq<char>>) -> Seq<char> {
    if rooted {
        seq!['/'] + join_segs(segs)
    } else {
        join_segs(segs)
    }
}

/// Lexical normalisation of a path.
pub open spec fn spec_normalize(s: Seq<char>) -> Seq<char> {
    render(is_abs(s), norm_segs(s))
}

/// The character views of a vector of character vectors.
pub open spec fn views(v: Seq<Vec<char>>) -> Seq<Seq<char>> {
    Seq::new(v.len(), |i: int| v[i]@)
}

// ---------------------------------------------------------------------------
// Normalisation
// ---------------------------------------------------------------------------

proof fn lemma_pieces_len(s: Seq<char>)
    ensures
        pieces(s).len() >= 1,
    decreases s.len(),
{
    if s.len() > 0 {
        lemma_pieces_len(s.drop_last());
    }
}

fn norm_push(stack: &mut Vec<Vec<char>>, piece: Vec<char>, absolute: bool)
    ensures
        views(final(stack)@) == norm_step(views(old(stack)@), piece@, absolute),
{
    let ghost before = views(stack@);
    let is_empty = piece.len() == 0;
    let is_dot = piece.len() == 1 && piece[0] == '.';
    let is_dotdot = piece.len() == 2 && piece[0] == '.' && piece[1] == '.';
    proof {
        if piece@ == seq!['.'] {
            assert(piece@[0] == '.');
        }
        if piece@ == dotdot() {
            assert(piece@[0] == '.' && piece@[1] == '.');
        }
        if is_dot {
            assert(piece@ =~= seq!['.']);
        }
        if is_dotdot {
            assert(piece@ =~= dotdot());
        }
    }
    if is_empty || is_dot {
        return;
    }
    if is_dotdot {
        if stack.len() > 0 {
            stack.pop();
            assert(views(stack@) =~= before.drop_last());
            return;
        } else if absolute {
            return;
        }
    }
    stack.push(piece);
    assert(views(stack@) =~= before.push(piece@));
}

/// The root flag and the kept components of a path after normalisation.
pub fn normalize_parts(s: &str) -> (out: (bool, Vec<Vec<char>>))
    ensures
        out.0 == is_abs(s@),
        views(out.1@) == norm_segs(s@),
{
    let cs = chars_of(s);
    let absolute = cs.len() > 0 && cs[0] == '/';
    let mut stack: Vec<Vec<char>> = Vec::new();
    let mut cur: Vec<char> = Vec::new();
    let ghost mut done: Seq<Seq<char>> = seq![];
    let mut i: usize = 0;
    assert(cs@.take(0) =~= Seq::<char>::empty());
    assert(views(stack@) =~= Seq::<Seq<char>>::empty());
    assert(pieces(cs@.take(0)) =~= done.push(cur@));
    while i < cs.len()
        invariant
            i <= cs@.len(),
            absolute == is_abs(cs@),
            pieces(cs@.take(i as int)) == done.push(cur@),
            views(stack@) == norm_fold(done, absolute),
        decreases cs@.len() - i,
    {
        let c = cs[i];
        let ghost prev = cs@.take(i as int);
        assert(cs@.take(i + 1).drop_last() =~= prev);
        assert(cs@.take(i + 1).last() == c);
        if c == '/' {
            let piece = cur;
            cur = Vec::new();
            proof {
                let nd = done.push(piece@);
                assert(nd.drop_last() =~= done);
                assert(norm_fold(nd, absolute) == norm_step(norm_fold(done, absolute), piece@, absolute));
                assert(pieces(cs@.take(i + 1)) =~= nd.push(cur@));
                done = nd;
            }
            norm_push(&mut stack, piece, absolute);
        } else {
            let ghost old_cur = cur@;
            cur.push(c);
            proof {
                let p = done.push(old_cur);
                assert(pieces(cs@.take(i + 1)) == p.update(p.len() - 1, p.last().push(c)));
                assert(pieces(cs@.take(i + 1)) =~= done.push(cur@));
            }
        }
        i = i + 1;
    }
    assert(cs@.take(cs@.len() as int) =~= cs@);
    let ghost all = done.push(cur@);
    assert(all.drop_last() =~= done);
    norm_push(&mut stack, cur, absolute);
    (absolute, stack)
}

/// The text of a path with an optional root and the given components.
pub fn render_parts(rooted: bool, segs: &Vec<Vec<char>>) -> (out: Vec<char>)
    ensures
        out@ == render(rooted, views(segs@)),
{
    let mut out: Vec<char> = Vec::new();
    if rooted {
        out.push('/');
    }
    let ghost head: Seq<char> = out@;
    let mut j: usize = 0;
    while j < segs.len()
        invariant
            j <= segs@.len(),
            head == (if rooted { seq!['/'] } else { Seq::<char>::empty() }),
            out@ == head + join_segs(views(segs@).take(j as int)),
        decreases segs@.len() - j,
    {
        let ghost before = out@;
        if j > 0 {
            out.push('/');
        }
        let seg = &segs[j];
        let mut k: usize = 0;
        let ghost mid = out@;
        while k < seg.len()
            invariant
                k <= seg@.len(),
                out@ == mid + seg@.take(k as int),
            decreases seg@.len() - k,
        {
            out.push(seg[k]);
            k = k + 1;
            assert(mid + seg@.take(k as int) =~= (mid + seg@.take(k - 1)).push(seg@[k - 1]));
        }
        assert(seg@.take(seg@.len() as int) =~= seg@);
        proof {
            let vs = views(segs@);
            let t = vs.take(j + 1);
            assert(t.drop_last() =~= vs.take(j as int));
            assert(t.last() == seg@);
            if j == 0 {
                assert(join_segs(t) == seg@);
                assert(out@ =~= head + join_segs(t));
            } else {
                assert(join_segs(t) == join_segs(vs.take(j as int)) + seq!['/'] + seg@);
                assert(out@ =~= head + join_segs(t));
            }
        }
        j = j + 1;
    }
    assert(views(segs@).take(segs@.len() as int) =~= views(segs@));
    out
}

/// Lexical normalisation: drops empty and `.` components, resolves `..`
/// against the preceding component (a leading `..` is dropped in an absolute
/// path and kept in a relative one) and removes trailing separators.
pub fn normalize(path: &str) -> (out: String)
    ensures
        out@ == spec_normalize(path@),
{
    let (rooted, segs) = normalize_parts(path);
    let cs = render_parts(rooted, &segs);
    string_of(cs.as_slice())
}


// ---------------------------------------------------------------------------
// Last component and parent, as `Path::file_name` and `Path::parent` see them
// ---------------------------------------------------------------------------

/// Length of the part of `s` before its body: the root separator, or a
/// leading `.` component; trimming never goes below it.
pub open spec fn body_start(s: Seq<char>) -> int {
    if is_abs(s) {
        1
    } else if s.len() > 0 && s[0] == '.' && (s.len() == 1 || s[1] == '/') {
        1
    } else {
        0
    }
}

/// Start of the last piece of `s.take(n)` that lies at or after `b`.
pub open spec fn piece_start(s: Seq<char>, n: int, b: int) -> int
    decreases n - b,
{
    if n <= b || n <= 0 {
        n
    } else if s[n - 1] == '/' {
        n
    } else {
        piece_start(s, n - 1, b)
    }
}

pub proof fn lemma_piece_start(s: Seq<char>, n: int, b: int)
    requires
        0 <= b <= n,
    ensures
        b <= piece_start(s, n, b) <= n,
        piece_start(s, n, b) > b ==> s[piece_start(s, n, b) - 1] == '/',
        forall|k: int| piece_start(s, n, b) <= k < n ==> s[k] != '/',
    decreases n - b,
{
    if n > b && s[n - 1] != '/' {
        lemma_piece_start(s, n - 1, b);
    }
}

/// Where the piece starting at `st` is cut off, together with its separator.
pub open spec fn cut_point(st: int, b: int) -> int {
    if st > b {
        st - 1
    } else {
        st
    }
}

/// Length of `s.take(n)` after removing trailing empty and `.` pieces,
/// never going below `b`.
pub open spec fn trim_len(s: Seq<char>, n: int, b: int) -> int
    decreases n - b,
{
    if n <= b || b < 0 || n > s.len() {
        n
    } else {
        let st = piece_start(s, n, b);
        if is_seg(s.subrange(st, n)) {
            n
        } else {
            proof {
                lemma_piece_start(s, n, b);
                if st == n {
                } else {
                    assert(s.subrange(st, n).len() == n - st);
                }
            }
            trim_len(s, cut_point(st, b), b)
        }
    }
}

/// The last component of a path when it is a normal name (`Path::file_name`).
pub open spec fn spec_file_name(s: Seq<char>) -> Option<Seq<char>> {
    let b = body_start(s);
    let t = trim_len(s, s.len() as int, b);
    if t <= b {
        None
    } else {
        let p = s.subrange(piece_start(s, t, b), t);
        if p == dotdot() {
            None
        } else {
            Some(p)
        }
    }
}

/// The path without its last component (`Path::parent`).
pub open spec fn spec_parent(s: Seq<char>) -> Option<Seq<char>> {
    let b = body_start(s);
    let t = trim_len(s, s.len() as int, b);
    if t <= b {
        if !is_abs(s) && b == 1 {
            Some(Seq::<char>::empty())
        } else {
            None
        }
    } else {
        Some(s.take(trim_len(s, cut_point(piece_start(s, t, b), b), b)))
    }
}

fn body_start_exec(cs: &Vec<char>) -> (b: usize)
    ensures
        b == body_start(cs@),
{
    if cs.len() > 0 && cs[0] == '/' {
        1
    } else if cs.len() > 0 && cs[0] == '.' && (cs.len() == 1 || cs[1] == '/') {
        1
    } else {
        0
    }
}

fn piece_start_exec(cs: &Vec<char>, n: usize, b: usize) -> (st: usize)
    requires
        b <= n <= cs@.len(),
    ensures
        st == piece_start(cs@, n as int, b as int),
        b <= st <= n,
    decreases n,
{
    proof {
        lemma_piece_start(cs@, n as int, b as int);
    }
    if n <= b {
        n
    } else if cs[n - 1] == '/' {
        n
    } else {
        piece_start_exec(cs, n - 1, b)
    }
}

fn is_seg_range(cs: &Vec<char>, st: usize, n: usize) -> (r: bool)
    requires
        st <= n <= cs@.len(),
    ensures
        r == is_seg(cs@.subrange(st as int, n as int)),
{
    let len = n - st;
    if len == 0 {
        false
    } else if len == 1 && cs[st] == '.' {
        assert(cs@.subrange(st as int, n as int) =~= seq!['.']);
        false
    } else {
        proof {
            let q = cs@.subrange(st as int, n as int);
            if q == seq!['.'] {
                assert(q.len() == 1);
                assert(q[0] == '.');
                assert(q[0] == cs@[st as int]);
            }
        }
        true
    }
}

fn is_dotdot_range(cs: &Vec<char>, st: usize, n: usize) -> (r: bool)
    requires
        st <= n <= cs@.len(),
    ensures
        r == (cs@.subrange(st as int, n as int) == dotdot()),
{
    if n - st == 2 && cs[st] == '.' && cs[st + 1] == '.' {
        assert(cs@.subrange(st as int, n as int) =~= dotdot());
        true
    } else {
        proof {
            let p = cs@.subrange(st as int, n as int);
            if p == dotdot() {
                assert(p.len() == 2 && p[0] == '.' && p[1] == '.');
            }
        }
        false
    }
}

fn trim_len_exec(cs: &Vec<char>, n: usize, b: usize) -> (t: usize)
    requires
        b <= n <= cs@.len(),
    ensures
        t == trim_len(cs@, n as int, b as int),
        b <= t <= n,
    decreases n,
{
    if n <= b {
        return n;
    }
    let st = piece_start_exec(cs, n, b);
    if is_seg_range(cs, st, n) {
        n
    } else {
        proof {
            lemma_piece_start(cs@, n as int, b as int);
            if st < n {
                assert(cs@.subrange(st as int, n as int).len() == n - st);
            }
        }
        let cut = if st > b { st - 1 } else { st };
        trim_len_exec(cs, cut, b)
    }
}

fn file_name_chars(cs: &Vec<char>) -> (out: Option<Vec<char>>)
    ensures
        match spec_file_name(cs@) {
            Some(n) => out is Some && out->0@ == n,
            None => out is None,
        },
{
    let b = body_start_exec(cs);
    if b > cs.len() {
        return None;
    }
    let t = trim_len_exec(cs, cs.len(), b);
    if t <= b {
        return None;
    }
    let st = piece_start_exec(cs, t, b);
    if is_dotdot_range(cs, st, t) {
        return None;
    }
    let mut out: Vec<char> = Vec::new();
    let mut k = st;
    while k < t
        invariant
            st <= k <= t <= cs@.len(),
            out@ == cs@.subrange(st as int, k as int),
        decreases t - k,
    {
        out.push(cs[k]);
        k = k + 1;
        assert(out@ =~= cs@.subrange(st as int, k as int));
    }
    Some(out)
}

/// The last component of a path when it is a normal name.
pub fn file_name(path: &str) -> (out: Option<String>)
    ensures
        match spec_file_name(path@) {
            Some(n) => out is Some && out->0@ == n,
            None => out is None,
        },
{
    let cs = chars_of(path);
    assert(body_start(cs@) <= cs@.len() || cs@.len() == 0);
    match file_name_chars(&cs) {
        Some(v) => Some(string_of(v.as_slice())),
        None => None,
    }
}

/// The path without its last component.
pub fn parent(path: &str) -> (out: Option<String>)
    ensures
        match spec_parent(path@) {
            Some(p) => out is Some && out->0@ == p,
            None => out is None,
        },
{
    let cs = chars_of(path);
    let b = body_start_exec(&cs);
    if b > cs.len() {
        return None;
    }
    let t = trim_len_exec(&cs, cs.len(), b);
    if t <= b {
        if !(cs.len() > 0 && cs[0] == '/') && b == 1 {
            return Some(String::new());
        }
        return None;
    }
    let st = piece_start_exec(&cs, t, b);
    let cut = if st > b { st - 1 } else { st };
    let e = trim_len_exec(&cs, cut, b);
    let v = cs.as_slice();
    let mut out: Vec<char> = Vec::new();
    let mut k: usize = 0;
    while k < e
        invariant
            k <= e <= cs@.len(),
            v@ == cs@,
            out@ == cs@.take(k as int),
        decreases e - k,
    {
        out.push(v[k]);
        k = k + 1;
        assert(out@ =~= cs@.take(k as int));
    }
    Some(string_of(out.as_slice()))
}

/// Last component of a path as text, or the empty string when there is none.
pub fn basename(path: &str) -> (out: String)
    ensures
        out@ == match spec_file_name(path@) {
            Some(n) => n,
            None => Seq::<char>::empty(),
        },
{
    match file_name(path) {
        Some(n) => n,
        None => String::new(),
    }
}

// ---------------------------------------------------------------------------
// Joining
// ---------------------------------------------------------------------------

/// `base` extended by `p` as `PathBuf::push` does: an absolute `p` replaces
/// `base`; otherwise a separator is inserted when `base` is non-empty and does
/// not already end with one.
pub open spec fn spec_push(base: Seq<char>, p: Seq<char>) -> Seq<char> {
    if is_abs(p) {
        p
    } else if base.len() > 0 && base.last() != '/' {
        base + seq!['/'] + p
    } else {
        base + p
    }
}

fn copy_chars(v: &Vec<char>) -> (out: Vec<char>)
    ensures
        out@ == v@,
{
    let mut out: Vec<char> = Vec::new();
    append_chars(&mut out, v);
    assert(out@ =~= v@);
    out
}

/// `base` joined with `p` (`Path::join`).
pub fn push_path(base: &str, p: &str) -> (out: String)
    ensures
        out@ == spec_push(base@, p@),
{
    let b = chars_of(base);
    let q = chars_of(p);
    if q.len() > 0 && q[0] == '/' {
        return string_of(q.as_slice());
    }
    let mut out: Vec<char> = Vec::new();
    append_chars(&mut out, &b);
    if b.len() > 0 && b[b.len() - 1] != '/' {
        out.push('/');
    }
    append_chars(&mut out, &q);
    assert(b@.len() > 0 ==> b@.last() == b@[b@.len() - 1]);
    string_of(out.as_slice())
}

/// `path` made absolute against `cwd` and normalised.
pub fn resolve(cwd: &str, path: &str) -> (out: String)
    ensures
        out@ == spec_normalize(spec_push(cwd@, path@)),
{
    let joined = push_path(cwd, path);
    normalize(joined.as_str())
}

/// `path` taken relative to `base` (kept as is when absolute) and normalised.
pub fn join(base: &str, path: &str) -> (out: String)
    ensures
        out@ == spec_normalize(spec_push(base@, path@)),
{
    let joined = push_path(base, path);
    normalize(joined.as_str())
}

// ---------------------------------------------------------------------------
// Prefix tests
// ---------------------------------------------------------------------------

/// `path` relative to `base`, both normalised first: the components of
/// `path` left after those of `base` when they are a prefix of them
/// (a base with no component at all leaves `path` whole).
pub open spec fn spec_relative_to(path: Seq<char>, base: Seq<char>) -> Option<Seq<char>> {
    let rp = is_abs(path);
    let sp = norm_segs(path);
    let rb = is_abs(base);
    let sb = norm_segs(base);
    if !rb && sb.len() == 0 {
        Some(render(rp, sp))
    } else if rb == rp && sb.len() <= sp.len() && sp.take(sb.len() as int) == sb {
        Some(join_segs(sp.skip(sb.len() as int)))
    } else {
        None
    }
}

/// `path` relative to `base`, when it is `base` or lies inside it.
pub fn relative_to(path: &str, base: &str) -> (out: Option<String>)
    ensures
        match spec_relative_to(path@, base@) {
            Some(r) => out is Some && out->0@ == r,
            None => out is None,
        },
{
    let (rp, sp) = normalize_parts(path);
    let (rb, sb) = normalize_parts(base);
    if !rb && sb.len() == 0 {
        let cs = render_parts(rp, &sp);
        return Some(string_of(cs.as_slice()));
    }
    if rb != rp || sb.len() > sp.len() {
        return None;
    }
    let mut i: usize = 0;
    while i < sb.len()
        invariant
            i <= sb@.len() <= sp@.len(),
            views(sp@) == norm_segs(path@),
            views(sb@) == norm_segs(base@),
            rb == is_abs(base@),
            rp == is_abs(path@),
            rb == rp,
            !(!rb && sb@.len() == 0),
            views(sp@).take(i as int) == views(sb@).take(i as int),
        decreases sb@.len() - i,
    {
        if !chars_eq(sp[i].as_slice(), sb[i].as_slice()) {
            proof {
                assert(views(sp@)[i as int] != views(sb@)[i as int]);
                assert(views(sp@).take(sb@.len() as int)[i as int] == views(sp@)[i as int]);
                assert(views(sp@).take(sb@.len() as int) != views(sb@));
            }
            return None;
        }
        i = i + 1;
        assert(views(sp@).take(i as int) =~= views(sb@).take(i as int));
    }
    assert(views(sb@).take(sb@.len() as int) =~= views(sb@));
    let mut rest: Vec<Vec<char>> = Vec::new();
    let mut j = sb.len();
    let ghost n0 = sb@.len() as int;
    while j < sp.len()
        invariant
            n0 <= j <= sp@.len(),
            n0 == sb@.len(),
            views(rest@) == views(sp@).subrange(n0, j as int),
        decreases sp@.len() - j,
    {
        let ghost before = views(rest@);
        let c = copy_chars(&sp[j]);
        assert(c@ == views(sp@)[j as int]);
        rest.push(c);
        assert(views(rest@) =~= before.push(c@));
        j = j + 1;
        assert(views(sp@).subrange(n0, j as int) =~= views(sp@).subrange(n0, j - 1).push(views(sp@)[j - 1]));
    }
    assert(views(sp@).subrange(n0, sp@.len() as int) =~= views(sp@).skip(n0));
    let cs = render_parts(false, &rest);
    Some(string_of(cs.as_slice()))
}

/// Whether `path` is `base` or lies inside it.
pub fn is_same_or_inside(path: &str, base: &str) -> (out: bool)
    ensures
        out == spec_relative_to(path@, base@) is Some,
{
    relative_to(path, base).is_some()
}

/// The first component of a path when it is a normal name.
pub open spec fn spec_first_component(s: Seq<char>) -> Option<Seq<char>> {
    let f = pieces(s)[0];
    if f.len() == 0 || f == seq!['.'] || f == dotdot() {
        None
    } else {
        Some(f)
    }
}

proof fn lemma_first_piece(s: Seq<char>, k: int)
    requires
        0 <= k <= s.len(),
        forall|j: int| 0 <= j < k ==> s[j] != '/',
    ensures
        pieces(s.take(k)) == seq![s.take(k)],
    decreases k,
{
    if k > 0 {
        lemma_first_piece(s, k - 1);
        assert(s.take(k).drop_last() =~= s.take(k - 1));
        assert(s.take(k - 1).push(s[k - 1]) =~= s.take(k));
    } else {
        assert(s.take(0) =~= Seq::<char>::empty());
    }
}

proof fn lemma_pieces_prefix_first(s: Seq<char>, k: int)
    requires
        0 <= k <= s.len(),
    ensures
        pieces(s.take(k)).len() >= 1,
        pieces(s)[0].len() >= pieces(s.take(k))[0].len(),
        pieces(s)[0].take(pieces(s.take(k))[0].len() as int) == pieces(s.take(k))[0],
    decreases s.len() - k,
{
    lemma_pieces_len(s.take(k));
    if k < s.len() {
        lemma_pieces_prefix_first(s, k + 1);
        let t = s.take(k + 1);
        assert(t.drop_last() =~= s.take(k));
        lemma_pieces_len(s.take(k));
        let p = pieces(s.take(k));
        if p.len() > 1 || t.last() == '/' {
            assert(pieces(t)[0] == p[0]);
        } else {
            assert(pieces(t)[0] == p[0].push(t.last()));
            assert(pieces(t)[0].take(p[0].len() as int) =~= p[0]);
        }
    } else {
        assert(s.take(k) =~= s);
        assert(pieces(s)[0].take(pieces(s)[0].len() as int) =~= pieces(s)[0]);
    }
}

/// The first component of a path when it is a normal name.
pub fn first_component(path: &str) -> (out: Option<String>)
    ensures
        match spec_first_component(path@) {
            Some(f) => out is Some && out->0@ == f,
            None => out is None,
        },
{
    let cs = chars_of(path);
    let mut k: usize = 0;
    while k < cs.len() && cs[k] != '/'
        invariant
            k <= cs@.len(),
            forall|j: int| 0 <= j < k ==> cs@[j] != '/',
        decreases cs@.len() - k,
    {
        k = k + 1;
    }
    proof {
        lemma_first_piece(cs@, k as int);
        lemma_pieces_prefix_first(cs@, k as int);
        if k < cs@.len() {
            lemma_pieces_prefix_first(cs@, k + 1);
            let t = cs@.take(k + 1);
            assert(t.drop_last() =~= cs@.take(k as int));
            assert(t.last() == '/');
            assert(pieces(t)[0] == cs@.take(k as int));
            // the first piece cannot grow past a separator
            lemma_first_piece_stops(cs@, k as int);
        } else {
            assert(cs@.take(k as int) =~= cs@);
        }
    }
    let head = cs.as_slice();
    let mut f: Vec<char> = Vec::new();
    let mut j: usize = 0;
    while j < k
        invariant
            j <= k <= cs@.len(),
            head@ == cs@,
            f@ == cs@.take(j as int),
        decreases k - j,
    {
        f.push(head[j]);
        j = j + 1;
        assert(f@ =~= cs@.take(j as int));
    }
    let empty = k == 0;
    let dot = k == 1 && cs[0] == '.';
    let dd = k == 2 && cs[0] == '.' && cs[1] == '.';
    proof {
        let fs = cs@.take(k as int);
        if dot { assert(fs =~= seq!['.']); }
        if dd { assert(fs =~= dotdot()); }
        if fs == seq!['.'] { assert(fs[0] == '.'); }
        if fs == dotdot() { assert(fs[0] == '.' && fs[1] == '.'); }
    }
    if empty || dot || dd {
        None
    } else {
        Some(string_of(f.as_slice()))
    }
}

proof fn lemma_first_piece_stops(s: Seq<char>, k: int)
    requires
        0 <= k < s.len(),
        s[k] == '/',
        pieces(s.take(k + 1))[0] == s.take(k),
    ensures
        pieces(s)[0] == s.take(k),
    decreases s.len() - k,
{
    let t = s.take(k + 1);
    assert(t.drop_last() =~= s.take(k));
    lemma_pieces_len(s.take(k));
    assert(pieces(t).len() >= 2);
    lemma_first_piece_stays(s, k + 1);
}

proof fn lemma_first_piece_stays(s: Seq<char>, m: int)
    requires
        1 <= m <= s.len(),
        pieces(s.take(m)).len() >= 2,
    ensures
        pieces(s)[0] == pieces(s.take(m))[0],
        pieces(s).len() >= 2,
    decreases s.len() - m,
{
    if m < s.len() {
        let t = s.take(m + 1);
        assert(t.drop_last() =~= s.take(m));
        assert(pieces(t)[0] == pieces(s.take(m))[0]);
        assert(pieces(t).len() >= 2);
        lemma_first_piece_stays(s, m + 1);
    } else {
        assert(s.take(m) =~= s);
    }
}
// ---------------------------------------------------------------------------
// Component order, as `Path` compares paths
// ---------------------------------------------------------------------------

/// Whether the piece at index `k` is a component: non-empty and not `.`,
/// except a leading `.` of a relative path, which is the current directory.
pub open spec fn keep_piece(p: Seq<char>, k: int) -> bool {
    is_seg(p) || (k == 0 && p == seq!['.'])
}

/// The component pieces among the first `n` pieces.
pub open spec fn kept_pieces(ps: Seq<Seq<char>>, n: nat) -> Seq<Seq<char>>
    decreases n,
{
    if n == 0 {
        seq![]
    } else {
        let r = kept_pieces(ps, (n - 1) as nat);
        if keep_piece(ps[n - 1], n - 1) {
            r.push(ps[n - 1])
        } else {
            r
        }
    }
}

/// A component as a sort key: its kind (root, current directory, parent
/// directory, name), and for a name its bytes.
pub open spec fn piece_key(p: Seq<char>) -> (int, Seq<u8>) {
    if p == seq!['.'] {
        (2, seq![])
    } else if p == dotdot() {
        (3, seq![])
    } else {
        (4, encode_utf8(p))
    }
}

/// The sort keys of the components of a path (`Path::components`).
pub open spec fn path_keys(s: Seq<char>) -> Seq<(int, Seq<u8>)> {
    let ps = pieces(s);
    let k = kept_pieces(ps, ps.len());
    (if is_abs(s) { seq![(1int, Seq::<u8>::empty())] } else { Seq::<(int, Seq<u8>)>::empty() })
        + k.map_values(|p: Seq<char>| piece_key(p))
}

/// One component key before another.
pub open spec fn key_lt(a: (int, Seq<u8>), b: (int, Seq<u8>)) -> bool {
    a.0 < b.0 || (a.0 == b.0 && bytes_lt(a.1, b.1))
}

/// Lexicographic order of component keys.
pub open spec fn keys_lt(a: Seq<(int, Seq<u8>)>, b: Seq<(int, Seq<u8>)>) -> bool
    decreases a.len(),
{
    if b.len() == 0 {
        false
    } else if a.len() == 0 {
        true
    } else if key_lt(a[0], b[0]) {
        true
    } else if a[0] == b[0] {
        keys_lt(a.drop_first(), b.drop_first())
    } else {
        false
    }
}

/// `a` comes before `b` component by component (the order of `Path`).
pub open spec fn path_lt(a: Seq<char>, b: Seq<char>) -> bool {
    keys_lt(path_keys(a), path_keys(b))
}

/// `a` and `b` have the same components (`Path` equality).
pub open spec fn path_same(a: Seq<char>, b: Seq<char>) -> bool {
    path_keys(a) == path_keys(b)
}

/// The key views of exec component keys.
pub open spec fn key_views(v: Seq<(u8, Vec<u8>)>) -> Seq<(int, Seq<u8>)> {
    Seq::new(v.len(), |i: int| (v[i].0 as int, v[i].1@))
}

proof fn lemma_pieces_split(s: Seq<char>)
    ensures
        pieces(s) == split_on(s, '/'),
    decreases s.len(),
{
    if s.len() > 0 {
        lemma_pieces_split(s.drop_last());
    }
}

fn copy_bytes(b: &[u8]) -> (out: Vec<u8>)
    ensures
        out@ == b@,
{
    let mut out: Vec<u8> = Vec::new();
    let mut k: usize = 0;
    while k < b.len()
        invariant
            k <= b@.len(),
            out@ == b@.take(k as int),
        decreases b@.len() - k,
    {
        out.push(b[k]);
        k = k + 1;
        assert(out@ =~= b@.take(k as int));
    }
    assert(b@.take(b@.len() as int) =~= b@);
    out
}

fn piece_key_exec(p: &String) -> (out: (u8, Vec<u8>))
    ensures
        (out.0 as int, out.1@) == piece_key(p@),
{
    let cs = chars_of(p.as_str());
    if cs.len() == 1 && cs[0] == '.' {
        assert(p@ =~= seq!['.']);
        (2, Vec::new())
    } else if cs.len() == 2 && cs[0] == '.' && cs[1] == '.' {
        assert(p@ =~= dotdot());
        (3, Vec::new())
    } else {
        proof {
            if p@ == seq!['.'] {
                assert(p@[0] == '.');
            }
            if p@ == dotdot() {
                assert(p@[0] == '.' && p@[1] == '.');
            }
        }
        (4, copy_bytes(p.as_str().as_bytes()))
    }
}

/// The sort keys of the components of a path.
pub fn path_keys_exec(path: &str) -> (out: Vec<(u8, Vec<u8>)>)
    ensures
        key_views(out@) == path_keys(path@),
{
    let ps = split(path, '/');
    proof {
        lemma_pieces_split(path@);
    }
    let ghost pv = string_views(ps@);
    let mut out: Vec<(u8, Vec<u8>)> = Vec::new();
    let cs = chars_of(path);
    let rooted = cs.len() > 0 && cs[0] == '/';
    let ghost head = if is_abs(path@) { seq![(1int, Seq::<u8>::empty())] } else { Seq::<(int, Seq<u8>)>::empty() };
    if rooted {
        out.push((1, Vec::new()));
    }
    assert(key_views(out@) =~= head + kept_pieces(pv, 0).map_values(|p: Seq<char>| piece_key(p)));
    let mut i: usize = 0;
    while i < ps.len()
        invariant
            i <= ps@.len(),
            pv == string_views(ps@),
            pv == pieces(path@),
            key_views(out@) == head + kept_pieces(pv, i as nat).map_values(|p: Seq<char>| piece_key(p)),
        decreases ps@.len() - i,
    {
        let p = &ps[i];
        assert(pv[i as int] == p@);
        let cp = chars_of(p.as_str());
        let seg = cp.len() > 0 && !(cp.len() == 1 && cp[0] == '.');
        let lead_dot = i == 0 && cp.len() == 1 && cp[0] == '.';
        proof {
            if cp@.len() == 1 && cp@[0] == '.' {
                assert(p@ =~= seq!['.']);
            }
            if p@ == seq!['.'] {
                assert(p@[0] == '.');
            }
        }
        assert((seg || lead_dot) == keep_piece(p@, i as int));
        let ghost before = key_views(out@);
        let ghost kb = kept_pieces(pv, i as nat);
        if seg || lead_dot {
            let k = piece_key_exec(p);
            out.push(k);
            assert(key_views(out@) =~= before.push((k.0 as int, k.1@)));
            assert(kept_pieces(pv, (i + 1) as nat) == kb.push(p@));
            assert(kb.push(p@).map_values(|q: Seq<char>| piece_key(q)) =~= kb.map_values(|q: Seq<char>| piece_key(q)).push(piece_key(p@)));
        }
        i = i + 1;
        assert(key_views(out@) =~= head + kept_pieces(pv, i as nat).map_values(|p: Seq<char>| piece_key(p)));
    }
    out
}

fn keys_less(a: &Vec<(u8, Vec<u8>)>, b: &Vec<(u8, Vec<u8>)>) -> (r: bool)
    ensures
        r == keys_lt(key_views(a@), key_views(b@)),
{
    let ghost av = key_views(a@);
    let ghost bv = key_views(b@);
    let mut i: usize = 0;
    assert(av.skip(0) =~= av);
    assert(bv.skip(0) =~= bv);
    loop
        invariant
            i <= a@.len(),
            i <= b@.len(),
            av == key_views(a@),
            bv == key_views(b@),
            keys_lt(av, bv) == keys_lt(av.skip(i as int), bv.skip(i as int)),
        decreases a@.len() - i,
    {
        if i == b.len() {
            return false;
        }
        if i == a.len() {
            return true;
        }
        let (ra, ba) = (&a[i].0, &a[i].1);
        let (rb, bb) = (&b[i].0, &b[i].1);
        assert(av.skip(i as int)[0] == av[i as int]);
        assert(bv.skip(i as int)[0] == bv[i as int]);
        if *ra < *rb || (*ra == *rb && bytes_less(ba.as_slice(), bb.as_slice())) {
            return true;
        }
        if !(*ra == *rb && bytes_eq(ba.as_slice(), bb.as_slice())) {
            return false;
        }
        assert(av.skip(i as int).drop_first() =~= av.skip(i + 1));
        assert(bv.skip(i as int).drop_first() =~= bv.skip(i + 1));
        i = i + 1;
    }
}

fn keys_equal(a: &Vec<(u8, Vec<u8>)>, b: &Vec<(u8, Vec<u8>)>) -> (r: bool)
    ensures
        r == (key_views(a@) == key_views(b@)),
{
    if a.len() != b.len() {
        assert(key_views(a@).len() != key_views(b@).len());
        return false;
    }
    let mut i: usize = 0;
    while i < a.len()
        invariant
            i <= a@.len() == b@.len(),
            key_views(a@).take(i as int) == key_views(b@).take(i as int),
        decreases a@.len() - i,
    {
        if !(a[i].0 == b[i].0 && bytes_eq(a[i].1.as_slice(), b[i].1.as_slice())) {
            assert(key_views(a@)[i as int] != key_views(b@)[i as int]);
            return false;
        }
        i = i + 1;
        assert(key_views(a@).take(i as int) =~= key_views(b@).take(i as int));
    }
    assert(key_views(a@) =~= key_views(a@).take(i as int));
    assert(key_views(b@) =~= key_views(b@).take(i as int));
    true
}

/// Whether `a` comes before `b` component by component.
pub fn path_less(a: &str, b: &str) -> (r: bool)
    ensures
        r == path_lt(a@, b@),
{
    keys_less(&path_keys_exec(a), &path_keys_exec(b))
}

/// Whether `a` and `b` have the same components.
pub fn path_equal(a: &str, b: &str) -> (r: bool)
    ensures
        r == path_same(a@, b@),
{
    keys_equal(&path_keys_exec(a), &path_keys_exec(b))
}

/// `base`'s components are the first components of `path` (`Path::starts_with`).
pub open spec fn path_starts_with(path: Seq<char>, base: Seq<char>) -> bool {
    let a = path_keys(path);
    let b = path_keys(base);
    b.len() <= a.len() && a.take(b.len() as int) == b
}

/// Whether `base`'s components are the first components of `path`.
pub fn starts_with(path: &str, base: &str) -> (r: bool)
    ensures
        r == path_starts_with(path@, base@),
{
    let a = path_keys_exec(path);
    let b = path_keys_exec(base);
    if b.len() > a.len() {
        return false;
    }
    let mut i: usize = 0;
    while i < b.len()
        invariant
            i <= b@.len() <= a@.len(),
            key_views(a@) == path_keys(path@),
            key_views(b@) == path_keys(base@),
            key_views(a@).take(i as int) == key_views(b@).take(i as int),
        decreases b@.len() - i,
    {
        if !(a[i].0 == b[i].0 && bytes_eq(a[i].1.as_slice(), b[i].1.as_slice())) {
            assert(key_views(a@).take(b@.len() as int)[i as int] != key_views(b@)[i as int]);
            assert(key_views(a@).take(b@.len() as int) != key_views(b@));
            return false;
        }
        i = i + 1;
        assert(key_views(a@).take(i as int) =~= key_views(b@).take(i as int));
    }
    assert(key_views(b@) =~= key_views(b@).take(i as int));
    true
}

/// Whether a path is absolute, and its component pieces (`Path::components`
/// after the root: names, `..`, and a leading `.`).
pub fn split_path_pieces(path: &str) -> (out: (bool, Vec<String>))
    ensures
        out.0 == is_abs(path@),
        string_views(out.1@) == kept_pieces(pieces(path@), pieces(path@).len()),
{
    let ps = split(path, '/');
    proof {
        lemma_pieces_split(path@);
    }
    let ghost pv = string_views(ps@);
    let cs = chars_of(path);
    let rooted = cs.len() > 0 && cs[0] == '/';
    let mut out: Vec<String> = Vec::new();
    let mut i: usize = 0;
    assert(string_views(out@) =~= kept_pieces(pv, 0));
    while i < ps.len()
        invariant
            i <= ps@.len(),
            pv == string_views(ps@),
            pv == pieces(path@),
            string_views(out@) == kept_pieces(pv, i as nat),
        decreases ps@.len() - i,
    {
        let p = &ps[i];
        assert(pv[i as int] == p@);
        let cp = chars_of(p.as_str());
        let seg = cp.len() > 0 && !(cp.len() == 1 && cp[0] == '.');
        let lead_dot = i == 0 && cp.len() == 1 && cp[0] == '.';
        proof {
            if cp@.len() == 1 && cp@[0] == '.' {
                assert(p@ =~= seq!['.']);
            }
            if p@ == seq!['.'] {
                assert(p@[0] == '.');
            }
        }
        assert((seg || lead_dot) == keep_piece(p@, i as int));
        let ghost before = string_views(out@);
        if seg || lead_dot {
            out.push(p.clone());
            assert(string_views(out@) =~= before.push(p@));
        }
        i = i + 1;
    }
    (rooted, out)
}

/// Every path is the same as or inside itself, so a listing narrowed to a
/// path includes the files that came from exactly that path.
pub proof fn lemma_inside_itself(path: Seq<char>)
    ensures
        spec_relative_to(path, path) is Some,
{
    let sp = norm_segs(path);
    assert(sp.take(sp.len() as int) =~= sp);
}

proof fn lemma_keys_lt_irreflexive(a: Seq<(int, Seq<u8>)>)
    ensures
        !keys_lt(a, a),
    decreases a.len(),
{
    if a.len() > 0 {
        lemma_bytes_lt_irreflexive(a[0].1);
        lemma_keys_lt_irreflexive(a.drop_first());
    }
}

proof fn lemma_keys_lt_transitive(a: Seq<(int, Seq<u8>)>, b: Seq<(int, Seq<u8>)>, c: Seq<(int, Seq<u8>)>)
    requires
        keys_lt(a, b),
        keys_lt(b, c),
    ensures
        keys_lt(a, c),
    decreases a.len(),
{
    if a.len() > 0 && b.len() > 0 && c.len() > 0 {
        if key_lt(a[0], b[0]) && key_lt(b[0], c[0]) {
            if a[0].0 == b[0].0 && b[0].0 == c[0].0 {
                lemma_bytes_lt_transitive(a[0].1, b[0].1, c[0].1);
            }
        } else if a[0] == b[0] && b[0] == c[0] {
            lemma_bytes_lt_irreflexive(a[0].1);
            lemma_keys_lt_transitive(a.drop_first(), b.drop_first(), c.drop_first());
        }
    }
}

/// [`path_lt`] is irreflexive.
pub proof fn lemma_path_lt_irreflexive(a: Seq<char>)
    ensures
        !path_lt(a, a),
{
    lemma_keys_lt_irreflexive(path_keys(a));
}

/// [`path_lt`] is transitive.
pub proof fn lemma_path_lt_transitive(a: Seq<char>, b: Seq<char>, c: Seq<char>)
    requires
        path_lt(a, b),
        path_lt(b, c),
    ensures
        path_lt(a, c),
{
    lemma_keys_lt_transitive(path_keys(a), path_keys(b), path_keys(c));
}

// ---------------------------------------------------------------------------
// Normalising twice changes nothing
// ---------------------------------------------------------------------------

/// Components as normalisation leaves them: names without separators, not
/// `.`, and `..` only as the first component of a relative path.
pub open spec fn normal_segs(segs: Seq<Seq<char>>, absolute: bool) -> bool {
    forall|i: int| 0 <= i < segs.len() ==> {
        &&& is_seg(#[trigger] segs[i])
        &&& forall|k: int| 0 <= k < segs[i].len() ==> segs[i][k] != '/'
        &&& (segs[i] == dotdot() ==> i == 0 && !absolute)
    }
}

proof fn lemma_pieces_no_sep(s: Seq<char>)
    ensures
        forall|i: int, k: int| 0 <= i < pieces(s).len() && 0 <= k < pieces(s)[i].len() ==> #[trigger] pieces(s)[i][k] != '/',
    decreases s.len(),
{
    if s.len() > 0 {
        lemma_pieces_no_sep(s.drop_last());
        lemma_pieces_len(s.drop_last());
        let p = pieces(s.drop_last());
        assert forall|i: int, k: int| 0 <= i < pieces(s).len() && 0 <= k < pieces(s)[i].len() implies #[trigger] pieces(s)[i][k] != '/' by {
            if s.last() != '/' && i == p.len() - 1 {
                if k < p.last().len() {
                    assert(pieces(s)[i][k] == p[i][k]);
                }
            } else if i < p.len() {
                assert(pieces(s)[i] == p[i]);
            }
        }
    }
}

proof fn lemma_fold_normal(ps: Seq<Seq<char>>, absolute: bool)
    requires
        forall|i: int, k: int| 0 <= i < ps.len() && 0 <= k < ps[i].len() ==> #[trigger] ps[i][k] != '/',
    ensures
        normal_segs(norm_fold(ps, absolute), absolute),
    decreases ps.len(),
{
    if ps.len() > 0 {
        let d = ps.drop_last();
        assert forall|i: int, k: int| 0 <= i < d.len() && 0 <= k < d[i].len() implies #[trigger] d[i][k] != '/' by {
            assert(d[i] == ps[i]);
        }
        lemma_fold_normal(d, absolute);
        let st = norm_fold(d, absolute);
        let piece = ps.last();
        assert(forall|k: int| 0 <= k < piece.len() ==> piece[k] != '/') by {
            assert forall|k: int| 0 <= k < piece.len() implies piece[k] != '/' by {
                assert(ps[ps.len() - 1][k] == piece[k]);
            }
        }
        let r = norm_fold(ps, absolute);
        assert forall|i: int| 0 <= i < r.len() implies {
            &&& is_seg(#[trigger] r[i])
            &&& forall|k: int| 0 <= k < r[i].len() ==> r[i][k] != '/'
            &&& (r[i] == dotdot() ==> i == 0 && !absolute)
        } by {
            if i < st.len() && (r == st || r == st.drop_last() || r == st.push(piece)) {
                assert(r[i] == st[i]);
            }
        }
    }
}

proof fn lemma_pieces_no_sep_single(s: Seq<char>)
    requires
        forall|k: int| 0 <= k < s.len() ==> s[k] != '/',
    ensures
        pieces(s) == seq![s],
{
    lemma_first_piece(s, s.len() as int);
    assert(s.take(s.len() as int) =~= s);
}

proof fn lemma_pieces_join(a: Seq<char>, b: Seq<char>)
    ensures
        pieces(a + seq!['/'] + b) == pieces(a) + pieces(b),
    decreases b.len(),
{
    lemma_pieces_len(a);
    if b.len() == 0 {
        assert(a + seq!['/'] + b =~= (a + seq!['/']));
        assert((a + seq!['/']).drop_last() =~= a);
        assert(pieces(a) + pieces(b) =~= pieces(a).push(Seq::<char>::empty()));
    } else {
        lemma_pieces_join(a, b.drop_last());
        lemma_pieces_len(b.drop_last());
        let x = a + seq!['/'] + b;
        assert(x.drop_last() =~= a + seq!['/'] + b.drop_last());
        assert(x.last() == b.last());
        let pb = pieces(b.drop_last());
        if b.last() == '/' {
            assert(pieces(a) + pieces(b) =~= (pieces(a) + pb).push(Seq::<char>::empty()));
        } else {
            let q = pieces(a) + pb;
            assert(pieces(a) + pieces(b) =~= q.update(q.len() - 1, q.last().push(b.last())));
        }
    }
}

proof fn lemma_pieces_of_join(segs: Seq<Seq<char>>)
    requires
        segs.len() >= 1,
        forall|i: int, k: int| 0 <= i < segs.len() && 0 <= k < segs[i].len() ==> #[trigger] segs[i][k] != '/',
    ensures
        pieces(join_segs(segs)) == segs,
    decreases segs.len(),
{
    if segs.len() == 1 {
        lemma_pieces_no_sep_single(segs[0]);
        assert(seq![segs[0]] =~= segs);
    } else {
        let d = segs.drop_last();
        assert forall|i: int, k: int| 0 <= i < d.len() && 0 <= k < d[i].len() implies #[trigger] d[i][k] != '/' by {
            assert(d[i] == segs[i]);
        }
        lemma_pieces_of_join(d);
        assert forall|k: int| 0 <= k < segs.last().len() implies segs.last()[k] != '/' by {
            assert(segs[segs.len() - 1][k] == segs.last()[k]);
        }
        lemma_pieces_no_sep_single(segs.last());
        lemma_pieces_join(join_segs(d), segs.last());
        assert(d + seq![segs.last()] =~= segs);
    }
}

proof fn lemma_fold_skip_first(e: Seq<char>, rest: Seq<Seq<char>>, absolute: bool)
    requires
        !is_seg(e),
    ensures
        norm_fold(seq![e] + rest, absolute) == norm_fold(rest, absolute),
    decreases rest.len(),
{
    let x = seq![e] + rest;
    if rest.len() == 0 {
        assert(x =~= seq![e]);
        assert(x.drop_last() =~= Seq::<Seq<char>>::empty());
        assert(x.last() == e);
        assert(norm_fold(Seq::<Seq<char>>::empty(), absolute) == Seq::<Seq<char>>::empty());
        assert(norm_fold(x, absolute) == norm_step(norm_fold(x.drop_last(), absolute), e, absolute));
    } else {
        lemma_fold_skip_first(e, rest.drop_last(), absolute);
        assert(x.drop_last() =~= seq![e] + rest.drop_last());
        assert(x.last() == rest.last());
        assert(norm_fold(x, absolute) == norm_step(norm_fold(x.drop_last(), absolute), x.last(), absolute));
    }
}

proof fn lemma_fold_normal_fixed(segs: Seq<Seq<char>>, absolute: bool)
    requires
        normal_segs(segs, absolute),
    ensures
        norm_fold(segs, absolute) == segs,
    decreases segs.len(),
{
    if segs.len() > 0 {
        let d = segs.drop_last();
        assert forall|i: int| 0 <= i < d.len() implies {
            &&& is_seg(#[trigger] d[i])
            &&& forall|k: int| 0 <= k < d[i].len() ==> d[i][k] != '/'
            &&& (d[i] == dotdot() ==> i == 0 && !absolute)
        } by {
            assert(d[i] == segs[i]);
        }
        lemma_fold_normal_fixed(d, absolute);
        assert(segs[segs.len() - 1] == segs.last());
        assert(d.push(segs.last()) =~= segs);
    }
}

/// The components of a normal path are read back from its text, and so is
/// whether it is absolute.
proof fn lemma_render_recovers(segs: Seq<Seq<char>>, abs: bool)
    requires
        normal_segs(segs, abs),
    ensures
        is_abs(render(abs, segs)) == abs,
        norm_segs(render(abs, segs)) == segs,
{
    let r = render(abs, segs);
    assert(forall|i: int, k: int| 0 <= i < segs.len() && 0 <= k < segs[i].len() ==> #[trigger] segs[i][k] != '/');
    if segs.len() == 0 {
        if abs {
            assert(r =~= seq!['/']);
            assert(seq!['/'] =~= Seq::<char>::empty() + seq!['/'] + Seq::<char>::empty());
            lemma_pieces_join(Seq::<char>::empty(), Seq::<char>::empty());
            assert(pieces(r) =~= seq![Seq::<char>::empty(), Seq::<char>::empty()]);
            lemma_fold_skip_first(Seq::<char>::empty(), seq![Seq::<char>::empty()], true);
            lemma_fold_skip_first(Seq::<char>::empty(), Seq::<Seq<char>>::empty(), true);
            assert(seq![Seq::<char>::empty()] =~= seq![Seq::<char>::empty()] + Seq::<Seq<char>>::empty());
        } else {
            assert(r =~= Seq::<char>::empty());
            assert(pieces(r) =~= seq![Seq::<char>::empty()]);
            assert(seq![Seq::<char>::empty()] =~= seq![Seq::<char>::empty()] + Seq::<Seq<char>>::empty());
            lemma_fold_skip_first(Seq::<char>::empty(), Seq::<Seq<char>>::empty(), false);
        }
    } else {
        lemma_pieces_of_join(segs);
        lemma_fold_normal_fixed(segs, abs);
        assert(is_seg(segs[0]));
        assert(join_segs(segs).len() >= 1 && join_segs(segs)[0] == segs[0][0]) by {
            lemma_join_first(segs);
        }
        if abs {
            assert(r =~= Seq::<char>::empty() + seq!['/'] + join_segs(segs));
            lemma_pieces_join(Seq::<char>::empty(), join_segs(segs));
            assert(pieces(Seq::<char>::empty()) =~= seq![Seq::<char>::empty()]);
            lemma_fold_skip_first(Seq::<char>::empty(), segs, true);
        } else {
            assert(segs[0][0] != '/');
        }
    }
}

/// The components kept by normalising are normal.
proof fn lemma_norm_segs_normal(s: Seq<char>)
    ensures
        normal_segs(norm_segs(s), is_abs(s)),
{
    lemma_pieces_no_sep(s);
    lemma_fold_normal(pieces(s), is_abs(s));
}

/// Normalising a normalised path changes nothing.
pub proof fn lemma_normalize_idempotent(s: Seq<char>)
    ensures
        spec_normalize(spec_normalize(s)) == spec_normalize(s),
{
    lemma_norm_segs_normal(s);
    lemma_render_recovers(norm_segs(s), is_abs(s));
}

/// Joining components end to end.
proof fn lemma_join_concat(a: Seq<Seq<char>>, b: Seq<Seq<char>>)
    requires
        a.len() >= 1,
        b.len() >= 1,
    ensures
        join_segs(a + b) == join_segs(a) + seq!['/'] + join_segs(b),
    decreases b.len(),
{
    if b.len() == 1 {
        assert((a + b).drop_last() =~= a);
        assert((a + b).last() == b[0]);
    } else {
        lemma_join_concat(a, b.drop_last());
        assert((a + b).drop_last() =~= a + b.drop_last());
        assert((a + b).last() == b.last());
    }
}

proof fn lemma_join_last(segs: Seq<Seq<char>>)
    requires
        segs.len() >= 1,
        segs.last().len() >= 1,
    ensures
        join_segs(segs).len() >= 1,
        join_segs(segs).last() == segs.last().last(),
{
}

/// A normal path with a separator added normalises back to itself.
proof fn lemma_normalize_trailing_sep(n: Seq<char>)
    requires
        n.len() > 0,
        spec_normalize(n) == n,
    ensures
        spec_normalize(n + seq!['/']) == n,
{
    let m = n + seq!['/'];
    assert(m.drop_last() =~= n);
    assert(m.last() == '/');
    assert(pieces(m) == pieces(n).push(Seq::<char>::empty()));
    let ps = pieces(n).push(Seq::<char>::empty());
    assert(ps.drop_last() =~= pieces(n));
    assert(norm_fold(ps, is_abs(n)) == norm_step(norm_fold(pieces(n), is_abs(n)), Seq::<char>::empty(), is_abs(n)));
    assert(m[0] == n[0]);
}

/// `relative_to` gives what joining back onto the normalised base restores:
/// the rest is empty exactly when both paths normalise to the same path, a
/// non-empty rest joined onto the normalised base gives the normalised path,
/// and in every case the join normalises to it (joining an empty rest adds
/// only a separator at the end).
pub proof fn lemma_relative_to_rejoins(path: Seq<char>, base: Seq<char>)
    ensures
        spec_relative_to(path, base) matches Some(rel) ==> {
            &&& (rel.len() == 0 <==> spec_normalize(path) == spec_normalize(base))
            &&& (rel.len() > 0 ==> spec_push(spec_normalize(base), rel) == spec_normalize(path))
            &&& spec_normalize(spec_push(spec_normalize(base), rel)) == spec_normalize(path)
        },
{
    let rp = is_abs(path);
    let sp = norm_segs(path);
    let rb = is_abs(base);
    let sb = norm_segs(base);
    let np = spec_normalize(path);
    let nb = spec_normalize(base);
    lemma_norm_segs_normal(path);
    lemma_norm_segs_normal(base);
    lemma_render_recovers(sp, rp);
    lemma_render_recovers(sb, rb);
    lemma_normalize_idempotent(path);
    lemma_normalize_idempotent(base);
    if let Some(rel) = spec_relative_to(path, base) {
        if !rb && sb.len() == 0 {
            assert(nb =~= Seq::<char>::empty());
            assert(rel == np);
            if rel.len() > 0 {
                if is_abs(rel) {
                } else {
                    assert(Seq::<char>::empty() + rel =~= rel);
                }
            } else {
                assert(spec_push(nb, rel) =~= Seq::<char>::empty());
            }
        } else {
            let k = sb.len() as int;
            let rest = sp.skip(k);
            assert(rb == rp && sb.len() <= sp.len() && sp.take(k) == sb);
            assert(rel == join_segs(rest));
            assert(sp =~= sb + rest);
            if rest.len() == 0 {
                assert(rel =~= Seq::<char>::empty());
                assert(sp =~= sb);
                // the join only adds a separator at the end
                if nb.len() > 0 && nb.last() != '/' {
                    assert(spec_push(nb, rel) =~= nb + seq!['/']);
                    lemma_normalize_trailing_sep(nb);
                } else {
                    assert(spec_push(nb, rel) =~= nb);
                }
            } else {
                assert(is_seg(rest[0]) && rest[0] == sp[k]);
                lemma_join_first(rest);
                assert(rest[0][0] != '/');
                assert(!is_abs(rel));
                if np == nb {
                    assert(sp == sb);
                    assert(rest.len() == 0);
                }
                if sb.len() == 0 {
                    assert(rb);
                    assert(nb =~= seq!['/']);
                    assert(rest =~= sp);
                    assert(spec_push(nb, rel) =~= np);
                } else {
                    assert(sb.last() == sp[k - 1]);
                    assert(is_seg(sb.last()));
                    lemma_join_last(sb);
                    assert(sb.last().last() == sb.last()[sb.last().len() - 1]);
                    assert(join_segs(sb).last() != '/');
                    lemma_join_concat(sb, rest);
                    if rb {
                        assert(nb.last() == join_segs(sb).last());
                        assert(spec_push(nb, rel) =~= seq!['/'] + join_segs(sp));
                    } else {
                        assert(spec_push(nb, rel) =~= join_segs(sp));
                    }
                }
            }
        }
    }
}

proof fn lemma_join_first(segs: Seq<Seq<char>>)
    requires
        segs.len() >= 1,
        segs[0].len() >= 1,
    ensures
        join_segs(segs).len() >= 1,
        join_segs(segs)[0] == segs[0][0],
    decreases segs.len(),
{
    if segs.len() > 1 {
        lemma_join_first(segs.drop_last());
    }
}

} // verus!
