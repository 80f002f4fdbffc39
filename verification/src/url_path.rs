//! From a request URL to the file it names under the served root.
//!
//! The resolution is purely lexical: no filesystem access and no link
//! resolution happen here.

use vstd::prelude::*;
use crate::text::{chars_of, push_char};

verus! {

// ---------------------------------------------------------------------------
// Query strings
// ---------------------------------------------------------------------------

/// Index of the first `'?'` in `s`, or the length of `s` when there is none.
pub open spec fn query_start(s: Seq<char>) -> nat
    decreases s.len(),
{
    if s.len() == 0 {
        0
    } else if s[0] == '?' {
        0
    } else {
        1 + query_start(s.drop_first())
    }
}

/// The part of a URL before its query string.
pub open spec fn spec_strip_query(url: Seq<char>) -> Seq<char> {
    url.take(query_start(url) as int)
}

proof fn lemma_query_start(s: Seq<char>)
    ensures
        query_start(s) <= s.len(),
        forall|i: int| 0 <= i < query_start(s) ==> s[i] != '?',
        query_start(s) < s.len() ==> s[query_start(s) as int] == '?',
    decreases s.len(),
{
    if s.len() > 0 && s[0] != '?' {
        lemma_query_start(s.drop_first());
        assert forall|i: int| 0 <= i < query_start(s) implies s[i] != '?' by {
            if i > 0 {
                assert(s[i] == s.drop_first()[i - 1]);
            }
        }
    }
}

/// `url` without its `"?query=string"` suffix, if any: everything before the
/// first `'?'`.
pub fn strip_query(url: &str) -> (r: &str)
    ensures
        r@ == spec_strip_query(url@),
        r@.len() <= url@.len(),
        r@ == url@.take(r@.len() as int),
        !r@.contains('?'),
        r@.len() < url@.len() ==> url@[r@.len() as int] == '?',
{
    let cs = chars_of(url);
    let mut i: usize = 0;
    while i < cs.len() && cs[i] != '?'
        invariant
            cs@ == url@,
            i <= cs@.len(),
            forall|j: int| 0 <= j < i ==> cs@[j] != '?',
        decreases cs@.len() - i,
    {
        i = i + 1;
    }
    proof {
        lemma_query_start(url@);
        // both indices are the first '?' (or the end)
        if (i as nat) < query_start(url@) {
            assert(url@[i as int] != '?');
        }
        if query_start(url@) < i {
            assert(url@[query_start(url@) as int] == '?');
        }
        assert(query_start(url@) == i);
    }
    url.substring_char(0, i)
}

// ---------------------------------------------------------------------------
// Path segments
// ---------------------------------------------------------------------------

/// Whether a piece between slashes names nothing (`""` or `"."`).
pub open spec fn is_current(p: Seq<char>) -> bool {
    p.len() == 0 || p == seq!['.']
}

/// Whether a piece between slashes names the parent directory.
pub open spec fn is_parent(p: Seq<char>) -> bool {
    p == seq!['.', '.']
}

/// Applies one piece between slashes to the segments gathered so far:
/// `""` and `"."` are skipped, `".."` drops the last segment (never going
/// above the root), anything else is appended.
pub open spec fn apply_piece(segs: Seq<Seq<char>>, p: Seq<char>) -> Seq<Seq<char>> {
    if is_current(p) {
        segs
    } else if is_parent(p) {
        if segs.len() > 0 {
            segs.drop_last()
        } else {
            segs
        }
    } else {
        segs.push(p)
    }
}

/// One character of the left-to-right scan of a URL path: a slash completes
/// the piece being read, any other character extends it.
pub open spec fn clamp_step(st: (Seq<Seq<char>>, Seq<char>), c: char) -> (Seq<Seq<char>>, Seq<char>) {
    if c == '/' {
        (apply_piece(st.0, st.1), seq![])
    } else {
        (st.0, st.1.push(c))
    }
}

/// The scan of `s` from the state `st`: segments gathered and the piece
/// being read.
pub open spec fn clamp_scan_from(st: (Seq<Seq<char>>, Seq<char>), s: Seq<char>) -> (Seq<Seq<char>>, Seq<char>)
    decreases s.len(),
{
    if s.len() == 0 {
        st
    } else {
        clamp_step(clamp_scan_from(st, s.drop_last()), s.last())
    }
}

/// Left-to-right scan of `s` from the start: the segments of its completed
/// pieces and the piece being read (the characters after the last slash).
pub open spec fn clamp_scan(s: Seq<char>) -> (Seq<Seq<char>>, Seq<char>) {
    clamp_scan_from((seq![], seq![]), s)
}

/// The segments a file lookup uses for the URL path `s`, with `".."` clamped
/// so that it never walks above the root.
pub open spec fn spec_clamp(s: Seq<char>) -> Seq<Seq<char>> {
    apply_piece(clamp_scan(s).0, clamp_scan(s).1)
}

/// A segment that can be appended to a directory path as one component.
pub open spec fn is_normal(p: Seq<char>) -> bool {
    &&& !is_current(p)
    &&& !is_parent(p)
    &&& !p.contains('/')
}

/// Every segment of `segs` is normal.
pub open spec fn all_normal(segs: Seq<Seq<char>>) -> bool {
    forall|i: int| 0 <= i < segs.len() ==> is_normal(#[trigger] segs[i])
}

/// The texts of a sequence of string slices.
pub open spec fn views(v: Seq<&str>) -> Seq<Seq<char>> {
    v.map_values(|s: &str| s@)
}

proof fn lemma_apply_piece_normal(segs: Seq<Seq<char>>, p: Seq<char>)
    requires
        all_normal(segs),
        !p.contains('/'),
    ensures
        all_normal(apply_piece(segs, p)),
{
    let r = apply_piece(segs, p);
    assert forall|i: int| 0 <= i < r.len() implies is_normal(#[trigger] r[i]) by {
        if !is_current(p) && !is_parent(p) && i == segs.len() {
        } else {
            assert(r[i] == segs[i]);
        }
    }
}

proof fn lemma_scan_normal(s: Seq<char>)
    ensures
        all_normal(clamp_scan(s).0),
        !clamp_scan(s).1.contains('/'),
    decreases s.len(),
{
    if s.len() > 0 {
        lemma_scan_normal(s.drop_last());
        let (segs, cur) = clamp_scan(s.drop_last());
        if s.last() == '/' {
            lemma_apply_piece_normal(segs, cur);
            assert(!Seq::<char>::empty().contains('/'));
        } else {
            assert forall|j: int| 0 <= j < cur.push(s.last()).len() implies cur.push(s.last())[j]
                != '/' by {
                if j < cur.len() {
                    assert(cur.push(s.last())[j] == cur[j]);
                }
            }
        }
    }
}

/// Every segment of a clamped URL path is normal: nonempty, not `"."`, not
/// `".."` and without a slash.
pub proof fn lemma_clamp_normal(s: Seq<char>)
    ensures
        all_normal(spec_clamp(s)),
{
    lemma_scan_normal(s);
    lemma_apply_piece_normal(clamp_scan(s).0, clamp_scan(s).1);
}

/// Splits a request URL path into the segments a file lookup uses, clamping
/// `".."` so that it can never walk above the root.
pub fn clamp_segments(url: &str) -> (r: Vec<&str>)
    ensures
        views(r@) == spec_clamp(url@),
        all_normal(views(r@)),
{
    let cs = chars_of(url);
    let n = cs.len();
    let mut segs: Vec<&str> = Vec::new();
    let mut start: usize = 0;
    let mut i: usize = 0;
    while i < n
        invariant
            cs@ == url@,
            n == cs@.len(),
            start <= i <= n,
            views(segs@) == clamp_scan(cs@.take(i as int)).0,
            cs@.subrange(start as int, i as int) == clamp_scan(cs@.take(i as int)).1,
        decreases n - i,
    {
        assert(cs@.take(i + 1).drop_last() =~= cs@.take(i as int));
        assert(cs@.take(i + 1).last() == cs@[i as int]);
        if cs[i] == '/' {
            let ghost old_segs = segs@;
            apply_segment(&mut segs, url, &cs, start, i);
            start = i + 1;
            assert(cs@.subrange(start as int, (i + 1) as int) =~= Seq::<char>::empty());
        } else {
            assert(cs@.subrange(start as int, (i + 1) as int) =~= cs@.subrange(
                start as int,
                i as int,
            ).push(cs@[i as int]));
        }
        i = i + 1;
    }
    assert(cs@.take(n as int) =~= cs@);
    apply_segment(&mut segs, url, &cs, start, n);
    proof {
        lemma_clamp_normal(url@);
    }
    segs
}

/// Applies the piece `url[start..end]` to `segs`.
fn apply_segment<'a>(segs: &mut Vec<&'a str>, url: &'a str, cs: &Vec<char>, start: usize, end: usize)
    requires
        cs@ == url@,
        start <= end <= cs@.len(),
    ensures
        views(final(segs)@) == apply_piece(views(old(segs)@), cs@.subrange(start as int, end as int)),
{
    let ghost p = cs@.subrange(start as int, end as int);
    let len = end - start;
    if len == 0 || (len == 1 && cs[start] == '.') {
        assert(is_current(p)) by {
            if len == 1 {
                assert(p =~= seq!['.']);
            }
        }
    } else if len == 2 && cs[start] == '.' && cs[start + 1] == '.' {
        assert(p =~= seq!['.', '.']);
        let ghost before = segs@;
        segs.pop();
        assert(views(segs@) =~= if views(before).len() > 0 {
            views(before).drop_last()
        } else {
            views(before)
        });
    } else {
        assert(!is_current(p)) by {
            assert(p.len() == len);
            if len == 1 {
                assert(p[0] == cs@[start as int]);
                assert(seq!['.'][0] == '.');
            }
        }
        assert(!is_parent(p)) by {
            assert(seq!['.', '.'][0] == '.' && seq!['.', '.'][1] == '.');
            if len == 2 {
                assert(p[0] == cs@[start as int]);
                assert(p[1] == cs@[start + 1]);
            }
        }
        let piece = url.substring_char(start, end);
        let ghost before = segs@;
        segs.push(piece);
        assert(views(segs@) =~= views(before).push(p));
    }
}

// ---------------------------------------------------------------------------
// Assembling the path on disk
// ---------------------------------------------------------------------------

/// The segments joined into a relative path, each preceded by a slash.
pub open spec fn join_segments(segs: Seq<Seq<char>>) -> Seq<char>
    decreases segs.len(),
{
    if segs.len() == 0 {
        seq![]
    } else {
        join_segments(segs.drop_last()) + seq!['/'] + segs.last()
    }
}

/// The path on disk for `url` under `root`: the root followed by each
/// clamped segment, slash-separated.
pub open spec fn spec_assemble(root: Seq<char>, url: Seq<char>) -> Seq<char> {
    root + join_segments(spec_clamp(url))
}

/// Joins `root_path` and the clamped segments of `url` so that the result
/// stays inside `root_path`.
pub fn assemble_file_path(root_path: &str, url: &str) -> (r: String)
    requires
        root_path@.len() > 0,
    ensures
        r@ == spec_assemble(root_path@, url@),
        r@.take(root_path@.len() as int) == root_path@,
        all_normal(spec_clamp(url@)),
{
    let segs = clamp_segments(url);
    let mut out = String::from_str(root_path);
    let mut k: usize = 0;
    while k < segs.len()
        invariant
            out@ == root_path@ + join_segments(views(segs@).take(k as int)),
            k <= segs@.len(),
        decreases segs@.len() - k,
    {
        push_char(&mut out, '/');
        out.append(segs[k]);
        proof {
            let vs = views(segs@);
            assert(vs.take(k + 1).drop_last() =~= vs.take(k as int));
            assert(vs.take(k + 1).last() == segs@[k as int]@);
            assert(out@ =~= root_path@ + join_segments(vs.take(k + 1)));
        }
        k = k + 1;
    }
    proof {
        assert(views(segs@).take(segs@.len() as int) =~= views(segs@));
        assert((root_path@ + join_segments(spec_clamp(url@))).take(root_path@.len() as int)
            =~= root_path@);
    }
    out
}

// ---------------------------------------------------------------------------
// Laws of the resolution
// ---------------------------------------------------------------------------

proof fn lemma_scan_concat(st: (Seq<Seq<char>>, Seq<char>), a: Seq<char>, b: Seq<char>)
    ensures
        clamp_scan_from(st, a + b) == clamp_scan_from(clamp_scan_from(st, a), b),
    decreases b.len(),
{
    if b.len() == 0 {
        assert(a + b =~= a);
    } else {
        assert((a + b).drop_last() =~= a + b.drop_last());
        assert((a + b).last() == b.last());
        lemma_scan_concat(st, a, b.drop_last());
    }
}

proof fn lemma_scan_push(st: (Seq<Seq<char>>, Seq<char>), a: Seq<char>, c: char)
    ensures
        clamp_scan_from(st, a.push(c)) == clamp_step(clamp_scan_from(st, a), c),
{
    assert(a.push(c).drop_last() =~= a);
    assert(a.push(c).last() == c);
}

proof fn lemma_scan_piece(st: (Seq<Seq<char>>, Seq<char>), p: Seq<char>)
    requires
        !p.contains('/'),
    ensures
        clamp_scan_from(st, p) == (st.0, st.1 + p),
    decreases p.len(),
{
    if p.len() == 0 {
        assert(st.1 + p =~= st.1);
    } else {
        assert(!p.drop_last().contains('/')) by {
            assert forall|j: int| 0 <= j < p.drop_last().len() implies p.drop_last()[j] != '/' by {
                assert(p.drop_last()[j] == p[j]);
            }
        }
        lemma_scan_piece(st, p.drop_last());
        assert(p.last() == p[p.len() - 1]);
        assert((st.1 + p.drop_last()).push(p.last()) =~= st.1 + p);
    }
}

proof fn lemma_scan_joined(stack: Seq<Seq<char>>, segs: Seq<Seq<char>>)
    requires
        all_normal(segs),
        segs.len() > 0,
    ensures
        clamp_scan_from((stack, seq![]), join_segments(segs)) == (
            stack + segs.drop_last(),
            segs.last(),
        ),
    decreases segs.len(),
{
    let dl = segs.drop_last();
    assert(all_normal(dl)) by {
        assert forall|i: int| 0 <= i < dl.len() implies is_normal(#[trigger] dl[i]) by {
            assert(dl[i] == segs[i]);
        }
    }
    let last = segs.last();
    assert(is_normal(last)) by {
        assert(segs[segs.len() - 1] == last);
    }
    let st0: (Seq<Seq<char>>, Seq<char>) = (stack, seq![]);
    lemma_scan_concat(st0, join_segments(dl) + seq!['/'], last);
    lemma_scan_concat(st0, join_segments(dl), seq!['/']);
    let mid = clamp_scan_from(st0, join_segments(dl));
    if dl.len() == 0 {
        assert(mid == st0);
        assert(clamp_scan_from(mid, seq!['/']) == clamp_step(mid, '/')) by {
            lemma_scan_push(mid, Seq::<char>::empty(), '/');
            assert(Seq::<char>::empty().push('/') =~= seq!['/']);
        }
        assert(apply_piece(stack, seq![]) == stack);
        lemma_scan_piece((stack, seq![]), last);
        assert(Seq::<char>::empty() + last =~= last);
        assert(stack + dl =~= stack);
    } else {
        lemma_scan_joined(stack, dl);
        let dl_last = dl.last();
        assert(is_normal(dl_last)) by {
            assert(dl[dl.len() - 1] == dl_last);
        }
        assert(clamp_scan_from(mid, seq!['/']) == clamp_step(mid, '/')) by {
            lemma_scan_push(mid, Seq::<char>::empty(), '/');
            assert(Seq::<char>::empty().push('/') =~= seq!['/']);
        }
        assert(apply_piece(stack + dl.drop_last(), dl_last) == (stack + dl.drop_last()).push(dl_last));
        assert((stack + dl.drop_last()).push(dl_last) =~= stack + dl);
        lemma_scan_piece((stack + dl, seq![]), last);
        assert(Seq::<char>::empty() + last =~= last);
    }
    assert(join_segments(segs) =~= join_segments(dl) + seq!['/'] + last);
}

/// Clamping is idempotent: the segments of a clamped path, joined again and
/// re-clamped, are the same segments.
pub proof fn lemma_clamp_idempotent(url: Seq<char>)
    ensures
        spec_clamp(join_segments(spec_clamp(url))) == spec_clamp(url),
{
    let segs = spec_clamp(url);
    lemma_clamp_normal(url);
    if segs.len() == 0 {
        assert(join_segments(segs) =~= Seq::<char>::empty());
        assert(apply_piece(seq![], seq![]) == Seq::<Seq<char>>::empty());
    } else {
        lemma_scan_joined(seq![], segs);
        assert(Seq::<Seq<char>>::empty() + segs.drop_last() =~= segs.drop_last());
        let last = segs.last();
        assert(is_normal(last)) by {
            assert(segs[segs.len() - 1] == last);
        }
        assert(segs.drop_last().push(last) =~= segs);
    }
}

/// `".."` at the root stays at the root: `"/../" + url` resolves as `url`
/// does.
pub proof fn lemma_parent_of_root_is_root(url: Seq<char>)
    ensures
        spec_clamp(seq!['/', '.', '.', '/'] + url) == spec_clamp(url),
{
    let pre = seq!['/', '.', '.', '/'];
    let init: (Seq<Seq<char>>, Seq<char>) = (seq![], seq![]);
    lemma_scan_concat(init, pre, url);
    let e = Seq::<char>::empty();
    lemma_scan_push(init, e, '/');
    lemma_scan_push(init, e.push('/'), '.');
    lemma_scan_push(init, e.push('/').push('.'), '.');
    lemma_scan_push(init, e.push('/').push('.').push('.'), '/');
    assert(e.push('/').push('.').push('.').push('/') =~= pre);
    assert(apply_piece(seq![], seq![]) == Seq::<Seq<char>>::empty());
    assert(Seq::<char>::empty().push('.') =~= seq!['.']);
    assert(seq!['.'].push('.') =~= seq!['.', '.']);
    assert(is_parent(seq!['.', '.']));
    assert(clamp_scan_from(init, pre) == init);
}

/// Stripping the query string twice strips nothing more.
pub proof fn lemma_strip_query_idempotent(url: Seq<char>)
    ensures
        spec_strip_query(spec_strip_query(url)) == spec_strip_query(url),
{
    lemma_query_start(url);
    let r = spec_strip_query(url);
    lemma_query_start(r);
    if query_start(r) < r.len() {
        assert(r[query_start(r) as int] == url[query_start(r) as int]);
    }
    assert(r.take(query_start(r) as int) =~= r);
}

/// The query string plays no part in resolving a path: for a path without
/// `'?'`, appending `"?"` and any query leaves the resolved file unchanged.
pub proof fn lemma_query_string_ignored(root: Seq<char>, path: Seq<char>, query: Seq<char>)
    requires
        !path.contains('?'),
    ensures
        spec_strip_query(path + seq!['?'] + query) == path,
        spec_assemble(root, spec_strip_query(path + seq!['?'] + query)) == spec_assemble(root, path),
{
    let u = path + seq!['?'] + query;
    lemma_query_start(u);
    assert(u[path.len() as int] == '?');
    if query_start(u) < path.len() {
        assert(u[query_start(u) as int] == path[query_start(u) as int]);
    }
    assert(query_start(u) == path.len());
    assert(u.take(path.len() as int) =~= path);
}

/// One character of the scan that looks for a `".."` piece: a slash
/// completes the piece being read and records whether it was `".."`.
pub open spec fn parent_step(st: (bool, Seq<char>), c: char) -> (bool, Seq<char>) {
    if c == '/' {
        (st.0 || is_parent(st.1), seq![])
    } else {
        (st.0, st.1.push(c))
    }
}

/// The scan of `s` for `".."` pieces: whether a completed piece was `".."`,
/// and the piece being read.
pub open spec fn parent_scan(s: Seq<char>) -> (bool, Seq<char>)
    decreases s.len(),
{
    if s.len() == 0 {
        (false, seq![])
    } else {
        parent_step(parent_scan(s.drop_last()), s.last())
    }
}

/// Whether one of the pieces between the slashes of `s` is `".."`.
pub open spec fn has_parent_piece(s: Seq<char>) -> bool {
    parent_scan(s).0 || is_parent(parent_scan(s).1)
}

proof fn lemma_scan_stacked(stack: Seq<Seq<char>>, b: Seq<char>)
    requires
        !parent_scan(b).0,
    ensures
        clamp_scan_from((stack, seq![]), b) == (stack + clamp_scan(b).0, clamp_scan(b).1),
        clamp_scan(b).1 == parent_scan(b).1,
    decreases b.len(),
{
    if b.len() == 0 {
        assert(stack + Seq::<Seq<char>>::empty() =~= stack);
    } else {
        let dl = b.drop_last();
        lemma_scan_stacked(stack, dl);
        let (x, c) = clamp_scan(dl);
        if b.last() == '/' {
            assert(!is_parent(c));
            if is_current(c) {
            } else {
                assert((stack + x).push(c) =~= stack + x.push(c));
            }
        }
    }
}

/// Clamping a path made of two parts joined by a slash gives the segments of
/// the first part followed by those of the second, when no piece of the
/// second part is `".."`.
pub proof fn lemma_clamp_concat(a: Seq<char>, b: Seq<char>)
    requires
        !has_parent_piece(b),
    ensures
        spec_clamp(a + seq!['/'] + b) == spec_clamp(a) + spec_clamp(b),
{
    let init: (Seq<Seq<char>>, Seq<char>) = (seq![], seq![]);
    lemma_scan_concat(init, a + seq!['/'], b);
    lemma_scan_push(init, a, '/');
    assert(a.push('/') =~= a + seq!['/']);
    lemma_scan_stacked(spec_clamp(a), b);
    let (x, c) = clamp_scan(b);
    assert(!is_parent(c));
    if is_current(c) {
    } else {
        assert((spec_clamp(a) + x).push(c) =~= spec_clamp(a) + x.push(c));
    }
}

// ---------------------------------------------------------------------------
// What each piece of a URL path does
// ---------------------------------------------------------------------------

proof fn lemma_clamp_slash_piece(u: Seq<char>, p: Seq<char>)
    requires
        !p.contains('/'),
    ensures
        spec_clamp(u + seq!['/'] + p) == apply_piece(spec_clamp(u), p),
{
    let init: (Seq<Seq<char>>, Seq<char>) = (seq![], seq![]);
    lemma_scan_concat(init, u + seq!['/'], p);
    lemma_scan_push(init, u, '/');
    assert(u.push('/') =~= u + seq!['/']);
    lemma_scan_piece((spec_clamp(u), seq![]), p);
    assert(Seq::<char>::empty() + p =~= p);
}

/// The empty path has no segment.
pub proof fn lemma_clamp_empty()
    ensures
        spec_clamp(Seq::<char>::empty()) == Seq::<Seq<char>>::empty(),
{
}

/// A normal piece after a slash is appended as one more segment.
pub proof fn lemma_clamp_appends_normal(u: Seq<char>, x: Seq<char>)
    requires
        x.len() > 0,
        x != seq!['.'],
        x != seq!['.', '.'],
        !x.contains('/'),
    ensures
        spec_clamp(u + seq!['/'] + x) == spec_clamp(u).push(x),
{
    lemma_clamp_slash_piece(u, x);
}

/// A `".."` piece drops exactly the last segment, and nothing when there is
/// none.
pub proof fn lemma_clamp_parent_drops_one(u: Seq<char>)
    ensures
        spec_clamp(u).len() > 0 ==> spec_clamp(u + seq!['/', '.', '.']) == spec_clamp(u).drop_last(),
        spec_clamp(u).len() == 0 ==> spec_clamp(u + seq!['/', '.', '.']) == Seq::<Seq<char>>::empty(),
{
    assert(!seq!['.', '.'].contains('/')) by {
        assert(seq!['.', '.'][0] == '.' && seq!['.', '.'][1] == '.');
    }
    lemma_clamp_slash_piece(u, seq!['.', '.']);
    assert(u + seq!['/'] + seq!['.', '.'] =~= u + seq!['/', '.', '.']);
}

/// `"."` and empty pieces change nothing.
pub proof fn lemma_clamp_current_is_noop(u: Seq<char>)
    ensures
        spec_clamp(u + seq!['/', '.']) == spec_clamp(u),
        spec_clamp(u + seq!['/']) == spec_clamp(u),
{
    assert(!seq!['.'].contains('/')) by {
        assert(seq!['.'][0] == '.');
    }
    lemma_clamp_slash_piece(u, seq!['.']);
    assert(u + seq!['/'] + seq!['.'] =~= u + seq!['/', '.']);
    lemma_clamp_slash_piece(u, Seq::<char>::empty());
    assert(u + seq!['/'] + Seq::<char>::empty() =~= u + seq!['/']);
}

/// A `".."` right after a normal segment cancels exactly that segment.
pub proof fn lemma_parent_cancels_segment(u: Seq<char>, x: Seq<char>)
    requires
        x.len() > 0,
        x != seq!['.'],
        x != seq!['.', '.'],
        !x.contains('/'),
    ensures
        spec_clamp(u + seq!['/'] + x + seq!['/', '.', '.']) == spec_clamp(u),
{
    lemma_clamp_appends_normal(u, x);
    lemma_clamp_parent_drops_one(u + seq!['/'] + x);
    assert(spec_clamp(u).push(x).drop_last() =~= spec_clamp(u));
}

// ---------------------------------------------------------------------------
// Path components
// ---------------------------------------------------------------------------

/// One character of the split of a path at its slashes: a slash completes
/// the piece being read, whatever it is.
pub open spec fn split_step(st: (Seq<Seq<char>>, Seq<char>), c: char) -> (Seq<Seq<char>>, Seq<char>) {
    if c == '/' {
        (st.0.push(st.1), seq![])
    } else {
        (st.0, st.1.push(c))
    }
}

/// The split of `s` from the state `st`.
pub open spec fn split_scan_from(st: (Seq<Seq<char>>, Seq<char>), s: Seq<char>) -> (Seq<Seq<char>>, Seq<char>)
    decreases s.len(),
{
    if s.len() == 0 {
        st
    } else {
        split_step(split_scan_from(st, s.drop_last()), s.last())
    }
}

/// The pieces between the slashes of `s`, empty ones included.
pub open spec fn split_pieces(s: Seq<char>) -> Seq<Seq<char>> {
    let (done, cur) = split_scan_from((seq![], seq![]), s);
    done.push(cur)
}

/// The pieces that name something: all but `""` and `"."`.
pub open spec fn named(ps: Seq<Seq<char>>) -> Seq<Seq<char>>
    decreases ps.len(),
{
    if ps.len() == 0 {
        seq![]
    } else if is_current(ps.last()) {
        named(ps.drop_last())
    } else {
        named(ps.drop_last()).push(ps.last())
    }
}

/// The components of a Unix path, as `Path::components` yields them, and so
/// what `PathBuf` equality compares: whether it starts at the root, whether
/// it starts with a `"."` component, and its other components in order
/// (`".."` included, `""` and `"."` left out).
pub open spec fn path_components(s: Seq<char>) -> (bool, bool, Seq<Seq<char>>) {
    let rooted = s.len() > 0 && s[0] == '/';
    (rooted, !rooted && split_pieces(s)[0] == seq!['.'], named(split_pieces(s)))
}

proof fn lemma_split_concat(st: (Seq<Seq<char>>, Seq<char>), a: Seq<char>, b: Seq<char>)
    ensures
        split_scan_from(st, a + b) == split_scan_from(split_scan_from(st, a), b),
    decreases b.len(),
{
    if b.len() == 0 {
        assert(a + b =~= a);
    } else {
        assert((a + b).drop_last() =~= a + b.drop_last());
        assert((a + b).last() == b.last());
        lemma_split_concat(st, a, b.drop_last());
    }
}

proof fn lemma_split_stacked(done: Seq<Seq<char>>, b: Seq<char>)
    ensures
        split_scan_from((done, seq![]), b) == (
            done + split_scan_from((seq![], seq![]), b).0,
            split_scan_from((seq![], seq![]), b).1,
        ),
    decreases b.len(),
{
    if b.len() == 0 {
        assert(done + Seq::<Seq<char>>::empty() =~= done);
    } else {
        lemma_split_stacked(done, b.drop_last());
        let (x, c) = split_scan_from((seq![], seq![]), b.drop_last());
        assert((done + x).push(c) =~= done + x.push(c));
    }
}

/// Splitting `a + "/" + b` gives the pieces of `a` then those of `b`.
proof fn lemma_split_slash(a: Seq<char>, b: Seq<char>)
    ensures
        split_pieces(a + seq!['/'] + b) == split_pieces(a) + split_pieces(b),
{
    let init: (Seq<Seq<char>>, Seq<char>) = (seq![], seq![]);
    lemma_split_concat(init, a + seq!['/'], b);
    assert((a + seq!['/']).drop_last() =~= a);
    assert((a + seq!['/']).last() == '/');
    let (d, c) = split_scan_from(init, a);
    assert(split_scan_from(init, a + seq!['/']) == (d.push(c), Seq::<char>::empty()));
    lemma_split_stacked(d.push(c), b);
    let (x, y) = split_scan_from(init, b);
    assert((d.push(c) + x).push(y) =~= d.push(c) + x.push(y));
}

proof fn lemma_named_concat(p: Seq<Seq<char>>, q: Seq<Seq<char>>)
    ensures
        named(p + q) == named(p) + named(q),
    decreases q.len(),
{
    if q.len() == 0 {
        assert(p + q =~= p);
        assert(named(p) + named(q) =~= named(p));
    } else {
        assert((p + q).drop_last() =~= p + q.drop_last());
        assert((p + q).last() == q.last());
        lemma_named_concat(p, q.drop_last());
        if !is_current(q.last()) {
            assert((named(p) + named(q.drop_last())).push(q.last()) =~= named(p) + named(
                q.drop_last(),
            ).push(q.last()));
        }
    }
}

proof fn lemma_named_one_empty(e: Seq<Seq<char>>)
    requires
        e == seq![Seq::<char>::empty()],
    ensures
        named(e) == Seq::<Seq<char>>::empty(),
{
    assert(e.drop_last() =~= Seq::<Seq<char>>::empty());
    assert(is_current(e.last()));
    assert(named(e.drop_last()) == Seq::<Seq<char>>::empty());
}

proof fn lemma_split_nonempty(s: Seq<char>)
    ensures
        split_pieces(s).len() > 0,
{
}

/// The joined segments are empty or start with a slash.
proof fn lemma_join_starts_with_slash(segs: Seq<Seq<char>>)
    ensures
        join_segments(segs).len() == 0 || join_segments(segs)[0] == '/',
    decreases segs.len(),
{
    if segs.len() > 0 {
        lemma_join_starts_with_slash(segs.drop_last());
        let j = join_segments(segs.drop_last());
        assert(join_segments(segs) =~= j + seq!['/'] + segs.last());
        if j.len() == 0 {
            assert((j + seq!['/'] + segs.last())[0] == '/');
        } else {
            assert((j + seq!['/'] + segs.last())[0] == j[0]);
        }
    }
}

/// A trailing slash on the root makes no difference to the path on disk: the
/// two paths have the same components, so they are equal as `PathBuf`s.
pub proof fn lemma_trailing_slash_on_root(root: Seq<char>, url: Seq<char>)
    requires
        root.len() > 0,
    ensures
        path_components(spec_assemble(root + seq!['/'], url)) == path_components(
            spec_assemble(root, url),
        ),
{
    let j = join_segments(spec_clamp(url));
    lemma_join_starts_with_slash(spec_clamp(url));
    let with = root + seq!['/'] + j;
    let without = root + j;
    assert(spec_assemble(root + seq!['/'], url) =~= with);
    assert(with[0] == root[0]);
    assert(without[0] == root[0]);
    lemma_split_nonempty(root);
    if j.len() == 0 {
        assert(with =~= root + seq!['/'] + Seq::<char>::empty());
        assert(without =~= root);
        lemma_split_slash(root, Seq::<char>::empty());
        let e: Seq<Seq<char>> = split_pieces(Seq::<char>::empty());
        assert(e =~= seq![Seq::<char>::empty()]);
        lemma_named_concat(split_pieces(root), e);
        lemma_named_one_empty(e);
        assert(named(split_pieces(root)) + named(e) =~= named(split_pieces(root)));
        assert(split_pieces(with)[0] == split_pieces(root)[0]);
    } else {
        let rest = j.skip(1);
        assert(j =~= seq!['/'] + rest);
        assert(without =~= root + seq!['/'] + rest);
        assert(with =~= (root + seq!['/']) + seq!['/'] + rest);
        lemma_split_slash(root, rest);
        lemma_split_slash(root + seq!['/'], rest);
        lemma_split_slash(root, Seq::<char>::empty());
        assert(root + seq!['/'] + Seq::<char>::empty() =~= root + seq!['/']);
        let e: Seq<Seq<char>> = split_pieces(Seq::<char>::empty());
        assert(e =~= seq![Seq::<char>::empty()]);
        let pr = split_pieces(root);
        let pt = split_pieces(rest);
        lemma_named_concat(pr + e, pt);
        lemma_named_concat(pr, e);
        lemma_named_concat(pr, pt);
        lemma_named_one_empty(e);
        assert(named(pr) + named(e) =~= named(pr));
        assert((pr + e + pt)[0] == pr[0]);
        assert((pr + pt)[0] == pr[0]);
    }
}

// ---------------------------------------------------------------------------
// File name and extension
// ---------------------------------------------------------------------------

/// One character of the scan for the last component of a path: a slash
/// completes the piece being read, which becomes the last component unless
/// it is `""` or `"."`.
pub open spec fn name_step(st: (Option<Seq<char>>, Seq<char>), c: char) -> (Option<Seq<char>>, Seq<char>) {
    if c == '/' {
        (if is_current(st.1) { st.0 } else { Some(st.1) }, seq![])
    } else {
        (st.0, st.1.push(c))
    }
}

/// The scan of `s` for its last component.
pub open spec fn name_scan(s: Seq<char>) -> (Option<Seq<char>>, Seq<char>)
    decreases s.len(),
{
    if s.len() == 0 {
        (None, seq![])
    } else {
        name_step(name_scan(s.drop_last()), s.last())
    }
}

/// The last component of a path, ignoring empty and `"."` pieces.
pub open spec fn last_component(s: Seq<char>) -> Option<Seq<char>> {
    let (m, cur) = name_scan(s);
    if is_current(cur) { m } else { Some(cur) }
}

/// The file name of a path, as `Path::file_name` gives it: its last
/// component, unless there is none or it is `".."`.
pub open spec fn spec_file_name(s: Seq<char>) -> Option<Seq<char>> {
    match last_component(s) {
        Some(p) => if is_parent(p) { None } else { Some(p) },
        None => None,
    }
}

/// Index of the last `'.'` of `s`, or `-1`.
pub open spec fn last_dot(s: Seq<char>) -> int
    decreases s.len(),
{
    if s.len() == 0 {
        -1
    } else if s.last() == '.' {
        s.len() - 1
    } else {
        last_dot(s.drop_last())
    }
}

/// The extension of a file name, as `Path::extension` gives it: what follows
/// its last `'.'`, provided that something precedes that dot.
pub open spec fn name_extension(name: Seq<char>) -> Option<Seq<char>> {
    if last_dot(name) > 0 {
        Some(name.skip(last_dot(name) + 1))
    } else {
        None
    }
}

/// The extension of the file that a path names.
pub open spec fn spec_extension(path: Seq<char>) -> Option<Seq<char>> {
    match spec_file_name(path) {
        Some(name) => name_extension(name),
        None => None,
    }
}

proof fn lemma_last_dot(s: Seq<char>)
    ensures
        -1 <= last_dot(s) < s.len(),
        last_dot(s) >= 0 ==> s[last_dot(s)] == '.',
        forall|j: int| last_dot(s) < j < s.len() ==> s[j] != '.',
    decreases s.len(),
{
    if s.len() > 0 && s.last() != '.' {
        lemma_last_dot(s.drop_last());
        assert forall|j: int| last_dot(s) < j < s.len() implies s[j] != '.' by {
            if j < s.len() - 1 {
                assert(s[j] == s.drop_last()[j]);
            }
        }
        if last_dot(s) >= 0 {
            assert(s[last_dot(s)] == s.drop_last()[last_dot(s)]);
        }
    }
}

proof fn lemma_name_scan_tail(p: Seq<char>, q: Seq<char>)
    requires
        !q.contains('/'),
    ensures
        name_scan(p + seq!['/'] + q).1 == q,
    decreases q.len(),
{
    if q.len() == 0 {
        assert(p + seq!['/'] + q =~= p.push('/'));
        assert(p.push('/').drop_last() =~= p);
    } else {
        let dl = q.drop_last();
        assert(!dl.contains('/')) by {
            assert forall|j: int| 0 <= j < dl.len() implies dl[j] != '/' by {
                assert(dl[j] == q[j]);
            }
        }
        lemma_name_scan_tail(p, dl);
        assert((p + seq!['/'] + q).drop_last() =~= p + seq!['/'] + dl);
        assert((p + seq!['/'] + q).last() == q[q.len() - 1]);
        assert(dl.push(q.last()) =~= q);
    }
}

proof fn lemma_last_dot_of(base: Seq<char>, ext: Seq<char>)
    requires
        !ext.contains('.'),
    ensures
        last_dot(base + seq!['.'] + ext) == base.len(),
    decreases ext.len(),
{
    let s = base + seq!['.'] + ext;
    if ext.len() == 0 {
        assert(s.last() == '.');
    } else {
        let dl = ext.drop_last();
        assert(!dl.contains('.')) by {
            assert forall|j: int| 0 <= j < dl.len() implies dl[j] != '.' by {
                assert(dl[j] == ext[j]);
            }
        }
        lemma_last_dot_of(base, dl);
        assert(s.drop_last() =~= base + seq!['.'] + dl);
        assert(s.last() == ext[ext.len() - 1]);
    }
}

/// The extension of a file is all that follows the last dot of its name,
/// whatever its length, provided something precedes that dot: for a name
/// `base.ext` under any directory, with a nonempty `base` and an `ext`
/// without dot, the extension is `ext`.
pub proof fn lemma_extension_after_last_dot(dir: Seq<char>, base: Seq<char>, ext: Seq<char>)
    requires
        base.len() > 0,
        !base.contains('/'),
        !ext.contains('.'),
        !ext.contains('/'),
        !(base == seq!['.'] && ext.len() == 0),
    ensures
        spec_extension(dir + seq!['/'] + base + seq!['.'] + ext) == Some(ext),
{
    let name = base + seq!['.'] + ext;
    assert(!name.contains('/')) by {
        assert forall|j: int| 0 <= j < name.len() implies name[j] != '/' by {
            if j < base.len() {
                assert(name[j] == base[j]);
            } else if j > base.len() {
                assert(name[j] == ext[j - base.len() - 1]);
            }
        }
    }
    lemma_name_scan_tail(dir, name);
    assert(dir + seq!['/'] + base + seq!['.'] + ext =~= dir + seq!['/'] + name);
    assert(!is_current(name)) by {
        assert(name.len() >= 2);
    }
    assert(!is_parent(name)) by {
        if name == seq!['.', '.'] {
            assert(name.len() == 2);
            assert(base.len() == 1 && ext.len() == 0);
            assert(base[0] == name[0]);
            assert(base =~= seq!['.']);
        }
    }
    lemma_last_dot_of(base, ext);
    assert(name.skip(base.len() + 1 as int) =~= ext);
}

/// A file name without a dot, or whose only dot is its first character, has
/// no extension.
pub proof fn lemma_no_extension_without_inner_dot(dir: Seq<char>, name: Seq<char>)
    requires
        name.len() > 0,
        name != seq!['.'],
        !name.contains('/'),
        forall|j: int| 0 < j < name.len() ==> name[j] != '.',
    ensures
        spec_extension(dir + seq!['/'] + name) is None,
{
    lemma_name_scan_tail(dir, name);
    assert(!is_current(name));
    assert(!is_parent(name)) by {
        if name == seq!['.', '.'] {
            assert(name[1] == '.');
        }
    }
    assert(spec_file_name(dir + seq!['/'] + name) == Some(name));
    lemma_last_dot(name);
    assert(last_dot(name) <= 0) by {
        if last_dot(name) > 0 {
            assert(name[last_dot(name)] == '.');
        }
    }
}

/// The range of `cs` that holds the last component of the path `cs`, if any.
fn last_component_range(cs: &Vec<char>) -> (r: Option<(usize, usize)>)
    ensures
        r matches Some((a, b)) ==> a <= b <= cs@.len() && last_component(cs@) == Some(
            cs@.subrange(a as int, b as int),
        ),
        r is None ==> last_component(cs@) is None,
{
    let n = cs.len();
    let mut has_last = false;
    let mut last_start: usize = 0;
    let mut last_end: usize = 0;
    let mut start: usize = 0;
    let mut i: usize = 0;
    while i < n
        invariant
            n == cs@.len(),
            start <= i <= n,
            last_start <= last_end <= n,
            name_scan(cs@.take(i as int)).1 == cs@.subrange(start as int, i as int),
            name_scan(cs@.take(i as int)).0 == if has_last {
                Some(cs@.subrange(last_start as int, last_end as int))
            } else {
                None
            },
        decreases n - i,
    {
        assert(cs@.take(i + 1).drop_last() =~= cs@.take(i as int));
        assert(cs@.take(i + 1).last() == cs@[i as int]);
        if cs[i] == '/' {
            if !is_dot_or_empty(cs, start, i) {
                has_last = true;
                last_start = start;
                last_end = i;
            }
            start = i + 1;
            assert(cs@.subrange(start as int, (i + 1) as int) =~= Seq::<char>::empty());
        } else {
            assert(cs@.subrange(start as int, (i + 1) as int) =~= cs@.subrange(
                start as int,
                i as int,
            ).push(cs@[i as int]));
        }
        i = i + 1;
    }
    assert(cs@.take(n as int) =~= cs@);
    if !is_dot_or_empty(cs, start, n) {
        Some((start, n))
    } else if has_last {
        Some((last_start, last_end))
    } else {
        None
    }
}

/// Whether `cs[start..end]` is `""` or `"."`.
fn is_dot_or_empty(cs: &Vec<char>, start: usize, end: usize) -> (r: bool)
    requires
        start <= end <= cs@.len(),
    ensures
        r == is_current(cs@.subrange(start as int, end as int)),
{
    let ghost p = cs@.subrange(start as int, end as int);
    let len = end - start;
    assert(p.len() == len);
    assert(seq!['.'][0] == '.');
    if len == 1 {
        assert(p[0] == cs@[start as int]);
        if cs[start] == '.' {
            assert(p =~= seq!['.']);
        }
    }
    len == 0 || (len == 1 && cs[start] == '.')
}

/// The index just after the last `'.'` of `cs[a..b]`, or `a` when there is
/// no dot.
fn after_last_dot(cs: &Vec<char>, a: usize, b: usize) -> (j: usize)
    requires
        a <= b <= cs@.len(),
    ensures
        a <= j <= b,
        j - a - 1 == last_dot(cs@.subrange(a as int, b as int)),
{
    let ghost name = cs@.subrange(a as int, b as int);
    let mut j: usize = b;
    while j > a && cs[j - 1] != '.'
        invariant
            a <= j <= b <= cs@.len(),
            forall|k: int| j <= k < b ==> cs@[k] != '.',
        decreases j,
    {
        j = j - 1;
    }
    proof {
        lemma_last_dot(name);
        let d = last_dot(name);
        if j > a {
            assert(name[j - 1 - a] == cs@[j - 1]);
            assert(d >= j - 1 - a) by {
                if d < j - 1 - a {
                    assert(name[j - 1 - a] != '.');
                }
            }
            assert(d <= j - 1 - a) by {
                if d > j - 1 - a {
                    assert(name[d] == cs@[a + d]);
                }
            }
        } else {
            assert(d == -1) by {
                if d >= 0 {
                    assert(name[d] == cs@[a + d]);
                }
            }
        }
    }
    j
}

/// The extension of the file that `path` names, if any.
pub fn file_extension(path: &str) -> (r: Option<String>)
    ensures
        r matches Some(e) ==> spec_extension(path@) == Some(e@),
        r is None ==> spec_extension(path@) is None,
{
    let cs = chars_of(path);
    let (a, b) = match last_component_range(&cs) {
        Some(ab) => ab,
        None => return None,
    };
    let ghost name = cs@.subrange(a as int, b as int);
    // `..` is no file name
    if b - a == 2 && cs[a] == '.' && cs[a + 1] == '.' {
        assert(name =~= seq!['.', '.']);
        return None;
    }
    assert(!is_parent(name)) by {
        assert(seq!['.', '.'][0] == '.' && seq!['.', '.'][1] == '.');
        if name.len() == 2 {
            assert(name[0] == cs@[a as int]);
            assert(name[1] == cs@[a + 1]);
        }
    }
    assert(spec_file_name(path@) == Some(name));
    let j = after_last_dot(&cs, a, b);
    if j - a > 1 {
        let e = path.substring_char(j, b);
        assert(e@ =~= name.skip(last_dot(name) + 1));
        Some(String::from_str(e))
    } else {
        None
    }
}

// ---------------------------------------------------------------------------
// Opening a file one segment at a time
// ---------------------------------------------------------------------------

/// The directories to descend through and the file to open at the end, for
/// a lookup of `segs` relative to the root: every segment but the last is a
/// directory; with no segment, the root itself (`"."`) is opened.
pub open spec fn spec_open_steps(segs: Seq<Seq<char>>) -> (Seq<Seq<char>>, Seq<char>) {
    if segs.len() == 0 {
        (seq![], seq!['.'])
    } else {
        (segs.drop_last(), segs.last())
    }
}

/// Splits the segments of a lookup into the directories to descend through
/// and the name of the file to open in the last of them.
pub fn open_steps<'a>(segs: &Vec<&'a str>) -> (r: (Vec<&'a str>, &'a str))
    ensures
        (views(r.0@), r.1@) == spec_open_steps(views(segs@)),
{
    if segs.len() == 0 {
        let dot: &'a str = ".";
        proof {
            reveal_strlit(".");
        }
        assert(dot@ =~= seq!['.']);
        return (Vec::new(), dot);
    }
    let mut dirs: Vec<&'a str> = Vec::new();
    let last = segs.len() - 1;
    let mut k: usize = 0;
    while k < last
        invariant
            last == segs@.len() - 1,
            k <= last,
            dirs@ == segs@.take(k as int),
        decreases last - k,
    {
        dirs.push(segs[k]);
        k = k + 1;
        assert(dirs@ =~= segs@.take(k as int));
    }
    assert(views(dirs@) =~= views(segs@).drop_last());
    (dirs, segs[last])
}

/// A lookup descends through every segment but the last and opens the last:
/// the directories followed by the file are the segments again.
pub proof fn lemma_open_steps_cover_segments(segs: Seq<Seq<char>>)
    requires
        segs.len() > 0,
    ensures
        spec_open_steps(segs).0.push(spec_open_steps(segs).1) == segs,
{
    assert(segs.drop_last().push(segs.last()) =~= segs);
}

/// The path on disk is the root followed by one slash and each segment: a
/// normal piece at the end of the URL adds `"/"` and that piece to it, and a
/// URL with no segment names the root itself.
pub proof fn lemma_assemble_appends_segment(root: Seq<char>, u: Seq<char>, x: Seq<char>)
    requires
        x.len() > 0,
        x != seq!['.'],
        x != seq!['.', '.'],
        !x.contains('/'),
    ensures
        spec_assemble(root, u + seq!['/'] + x) == spec_assemble(root, u) + seq!['/'] + x,
        spec_assemble(root, Seq::<char>::empty()) == root,
{
    lemma_clamp_appends_normal(u, x);
    let segs = spec_clamp(u).push(x);
    assert(segs.drop_last() =~= spec_clamp(u));
    assert(join_segments(segs) == join_segments(spec_clamp(u)) + seq!['/'] + x);
    assert(root + join_segments(segs) =~= root + join_segments(spec_clamp(u)) + seq!['/'] + x);
    assert(root + Seq::<char>::empty() =~= root);
}

} // verus!
