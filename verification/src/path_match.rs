//! Shell-style wildcard path matching shared by `ls` (filter/exclude
//! patterns) and `diff` (filter patterns).
use vstd::prelude::*;

use crate::text::{join_chars, join_path, seqs_of, split_chars, split_path, strip_leading_slashes, strip_slashes};

verus! {

/// Whether `p[i..]` matches `t[j..]`, where `*` in the pattern matches any
/// sequence of characters (including none, and including `/`) and every
/// other character matches itself.
pub open spec fn match_from(p: Seq<char>, t: Seq<char>, i: int, j: int) -> bool
    decreases (p.len() - i) + (t.len() - j),
    when 0 <= i <= p.len() && 0 <= j <= t.len()
{
    if i >= p.len() {
        j >= t.len()
    } else if p[i] == '*' {
        match_from(p, t, i + 1, j) || (j < t.len() && match_from(p, t, i, j + 1))
    } else {
        j < t.len() && p[i] == t[j] && match_from(p, t, i + 1, j + 1)
    }
}

/// Whether the whole of `t` matches the wildcard pattern `p`.
pub open spec fn wildcard(p: Seq<char>, t: Seq<char>) -> bool {
    match_from(p, t, 0, 0)
}

/// A star that matches from `j2` also matches from any earlier `j`.
proof fn lemma_star_earlier(p: Seq<char>, t: Seq<char>, i: int, j: int, j2: int)
    requires
        0 <= i < p.len(),
        p[i] == '*',
        0 <= j <= j2 <= t.len(),
        match_from(p, t, i, j2),
    ensures
        match_from(p, t, i, j),
    decreases j2 - j,
{
    if j < j2 {
        lemma_star_earlier(p, t, i, j + 1, j2);
    }
}

/// A star matches from `j` exactly when the rest of the pattern matches
/// from some `k >= j`.
proof fn lemma_star_witness(p: Seq<char>, t: Seq<char>, i: int, j: int) -> (k: int)
    requires
        0 <= i < p.len(),
        p[i] == '*',
        0 <= j <= t.len(),
        match_from(p, t, i, j),
    ensures
        j <= k <= t.len(),
        match_from(p, t, i + 1, k),
    decreases t.len() - j,
{
    if match_from(p, t, i + 1, j) {
        j
    } else {
        lemma_star_witness(p, t, i, j + 1)
    }
}

/// A star-free pattern segment `p[a..b]` matches at `k` exactly when the
/// text there spells the segment out and the pattern matches on from `b`.
proof fn lemma_literal_segment(p: Seq<char>, t: Seq<char>, a: int, b: int, k: int)
    requires
        0 <= a <= b <= p.len(),
        0 <= k <= t.len(),
        forall|x: int| a <= x < b ==> p[x] != '*',
    ensures
        match_from(p, t, a, k) == (k + (b - a) <= t.len() && p.subrange(a, b) == t.subrange(
            k,
            k + (b - a),
        ) && match_from(p, t, b, k + (b - a))),
    decreases b - a,
{
    if a == b {
        assert(p.subrange(a, b) =~= t.subrange(k, k));
    } else if k < t.len() {
        lemma_literal_segment(p, t, a + 1, b, k + 1);
        if k + (b - a) <= t.len() {
            if p.subrange(a, b) == t.subrange(k, k + (b - a)) {
                assert(p.subrange(a, b)[0] == t.subrange(k, k + (b - a))[0]);
                assert(p.subrange(a + 1, b) =~= p.subrange(a, b).drop_first());
                assert(t.subrange(k + 1, k + (b - a)) =~= t.subrange(k, k + (b - a)).drop_first());
            }
            if p[a] == t[k] && p.subrange(a + 1, b) == t.subrange(k + 1, k + (b - a)) {
                assert(p.subrange(a, b) =~= t.subrange(k, k + (b - a))) by {
                    assert forall|x: int| 0 <= x < b - a implies p.subrange(a, b)[x]
                        == t.subrange(k, k + (b - a))[x] by {
                        if x > 0 {
                            assert(p.subrange(a + 1, b)[x - 1] == t.subrange(
                                k + 1,
                                k + (b - a),
                            )[x - 1]);
                        }
                    }
                }
            }
        }
    }
}

/// Committing a star: when the segment between two stars at `s` and `pi`
/// matches `t[ms..ti]` literally, matching from the first star at `ms` is
/// the same as matching from the second star at `ti`.
proof fn lemma_commit_star(p: Seq<char>, t: Seq<char>, s: int, ms: int, pi: int, ti: int)
    requires
        0 <= s < pi < p.len(),
        p[s] == '*',
        p[pi] == '*',
        0 <= ms <= ti <= t.len(),
        pi - (s + 1) == ti - ms,
        forall|x: int| s + 1 <= x < pi ==> p[x] != '*' && p[x] == t[ms + x - (s + 1)],
    ensures
        match_from(p, t, s, ms) == match_from(p, t, pi, ti),
{
    lemma_literal_segment(p, t, s + 1, pi, ms);
    if match_from(p, t, s, ms) {
        let k = lemma_star_witness(p, t, s, ms);
        lemma_literal_segment(p, t, s + 1, pi, k);
        lemma_star_earlier(p, t, pi, ti, k + (pi - (s + 1)));
    }
    assert(p.subrange(s + 1, pi) =~= t.subrange(ms, ti));
}

/// Simple shell-style wildcard match: `*` in `pattern` matches any sequence
/// of characters (including none, and including `/`). All other characters
/// must match literally. No other wildcard syntax (e.g. `?`, `[abc]`) is
/// supported.
pub fn wildcard_match(pattern: &Vec<char>, text: &Vec<char>) -> (r: bool)
    ensures
        r == wildcard(pattern@, text@),
{
    let ghost p = pattern@;
    let ghost t = text@;
    let m = pattern.len();
    let n = text.len();
    let mut pi: usize = 0;
    let mut ti: usize = 0;
    let mut star: Option<usize> = None;
    let mut match_start: usize = 0;

    while ti < n
        invariant
            pattern@ == p,
            text@ == t,
            m == p.len(),
            n == t.len(),
            pi <= m,
            match_start <= ti <= n,
            star is None ==> wildcard(p, t) == match_from(p, t, pi as int, ti as int),
            star matches Some(s) ==> {
                &&& s < pi
                &&& p[s as int] == '*'
                &&& pi - (s + 1) == ti - match_start
                &&& forall|x: int|
                    s + 1 <= x < pi ==> p[x] != '*' && p[x] == t[match_start + x - (s + 1)]
                &&& wildcard(p, t) == match_from(p, t, s as int, match_start as int)
            },
        decreases n - match_start, n - ti, m - pi,
    {
        if pi < m && pattern[pi] == '*' {
            proof {
                if let Some(s) = star {
                    lemma_commit_star(p, t, s as int, match_start as int, pi as int, ti as int);
                }
            }
            star = Some(pi);
            match_start = ti;
            pi = pi + 1;
        } else if pi < m && pattern[pi] == text[ti] {
            pi = pi + 1;
            ti = ti + 1;
        } else if let Some(s) = star {
            proof {
                lemma_literal_segment(p, t, s + 1, pi as int, match_start as int);
                assert(p.subrange(s + 1, pi as int) =~= t.subrange(
                    match_start as int,
                    ti as int,
                ));
                assert(!match_from(p, t, pi as int, ti as int));
            }
            pi = s + 1;
            match_start = match_start + 1;
            ti = match_start;
        } else {
            return false;
        }
    }
    proof {
        if let Some(s) = star {
            lemma_literal_segment(p, t, s + 1, pi as int, match_start as int);
            if match_from(p, t, s as int, match_start as int) {
                let k = lemma_star_witness(p, t, s as int, match_start as int);
                lemma_literal_segment(p, t, s + 1, pi as int, k);
            }
            assert(p.subrange(s + 1, pi as int) =~= t.subrange(match_start as int, ti as int));
        }
    }
    while pi < m && pattern[pi] == '*'
        invariant
            pattern@ == p,
            text@ == t,
            m == p.len(),
            n == t.len(),
            pi <= m,
            wildcard(p, t) == match_from(p, t, pi as int, n as int),
        decreases m - pi,
    {
        pi = pi + 1;
    }
    pi == m
}

/// Whether `path` equals `pattern` or lies underneath it: the pattern's
/// segments match, one by one, the leading segments of the path (leading
/// `/` ignored on both). A `*` in a pattern segment stays within that
/// segment.
pub open spec fn under_pattern(path: Seq<char>, pattern: Seq<char>) -> bool {
    let ps = split_path(strip_slashes(path));
    let qs = split_path(strip_slashes(pattern));
    &&& ps.len() >= qs.len()
    &&& forall|i: int| 0 <= i < qs.len() ==> wildcard(#[trigger] qs[i], ps[i])
}

/// Returns true if `full_path` equals `pattern`, or is nested underneath it.
/// `pattern` is matched segment-by-segment against `full_path`'s leading
/// segments; each pattern segment may contain `*` as a wildcard matching any
/// sequence of characters *within that segment* (unlike the `-x` exclude
/// patterns, a segment wildcard here does not span `/` — e.g. `Root/*`
/// matches any direct child of `Root`, not arbitrarily deep descendants).
pub fn path_under_pattern(full_path: &Vec<char>, pattern: &Vec<char>) -> (r: bool)
    ensures
        r == under_pattern(full_path@, pattern@),
{
    let path_segments = split_chars(&strip_leading_slashes(full_path));
    let pattern_segments = split_chars(&strip_leading_slashes(pattern));
    let ghost ps = seqs_of(path_segments@);
    let ghost qs = seqs_of(pattern_segments@);
    assert(ps.len() == path_segments@.len() && qs.len() == pattern_segments@.len());
    if path_segments.len() < pattern_segments.len() {
        return false;
    }
    let mut i: usize = 0;
    while i < pattern_segments.len()
        invariant
            ps == seqs_of(path_segments@),
            qs == seqs_of(pattern_segments@),
            ps.len() == path_segments@.len(),
            qs.len() == pattern_segments@.len(),
            ps == split_path(strip_slashes(full_path@)),
            qs == split_path(strip_slashes(pattern@)),
            pattern_segments@.len() <= path_segments@.len(),
            0 <= i <= pattern_segments@.len(),
            forall|k: int| 0 <= k < i ==> wildcard(#[trigger] qs[k], ps[k]),
        decreases pattern_segments@.len() - i,
    {
        if !wildcard_match(&pattern_segments[i], &path_segments[i]) {
            assert(!wildcard(qs[i as int], ps[i as int]));
            return false;
        }
        i = i + 1;
    }
    true
}

/// A lone `*` matches from any position.
proof fn lemma_star_from(t: Seq<char>, j: int)
    requires
        0 <= j <= t.len(),
    ensures
        match_from(seq!['*'], t, 0, j),
    decreases t.len() - j,
{
    let p = seq!['*'];
    assert(p.len() == 1 && p[0] == '*');
    if j < t.len() {
        lemma_star_from(t, j + 1);
        assert(match_from(p, t, 0, j + 1));
    } else {
        assert(match_from(p, t, 1, j));
    }
}

/// The pattern `*` matches every text.
pub proof fn lemma_star_matches_everything(t: Seq<char>)
    ensures
        wildcard(seq!['*'], t),
{
    lemma_star_from(t, 0);
}

/// A pattern without `*` matches exactly the text that equals it.
pub proof fn lemma_literal_pattern(p: Seq<char>, t: Seq<char>)
    requires
        forall|x: int| 0 <= x < p.len() ==> p[x] != '*',
    ensures
        wildcard(p, t) <==> p == t,
{
    lemma_literal_segment(p, t, 0, p.len() as int, 0);
    assert(p.subrange(0, p.len() as int) =~= p);
    if p.len() <= t.len() && p == t.subrange(0, p.len() as int) && p.len() == t.len() {
        assert(t.subrange(0, t.len() as int) =~= t);
    }
    if p == t {
        assert(t.subrange(0, p.len() as int) =~= t);
    }
}

/// Every pattern matches itself from any common position.
proof fn lemma_self_match_from(p: Seq<char>, i: int)
    requires
        0 <= i <= p.len(),
    ensures
        match_from(p, p, i, i),
    decreases p.len() - i,
{
    if i < p.len() {
        lemma_self_match_from(p, i + 1);
        if p[i] == '*' {
            assert(match_from(p, p, i, i + 1));
        }
    }
}

/// Every pattern, read as text, matches itself: a literal character matches
/// itself and a `*` matches the `*` it faces.
pub proof fn lemma_pattern_matches_itself(p: Seq<char>)
    ensures
        wildcard(p, p),
{
    lemma_self_match_from(p, 0);
}

/// Every path is under the pattern that spells it out.
pub proof fn lemma_path_under_itself(p: Seq<char>)
    ensures
        under_pattern(p, p),
{
    let qs = split_path(strip_slashes(p));
    assert forall|i: int| 0 <= i < qs.len() implies wildcard(#[trigger] qs[i], qs[i]) by {
        lemma_pattern_matches_itself(qs[i]);
    }
}

} // verus!
