//! Character-sequence helpers: conversion between `String` and `Vec<char>`,
//! whitespace trimming, `/`-separated path splitting and joining, and the
//! lexicographic order that `String`'s `Ord` uses.
use vstd::prelude::*;

verus! {

/// The Unicode `White_Space` property (PropList.txt): U+0009..U+000D,
/// U+0020, U+0085, U+00A0, U+1680, U+2000..U+200A, U+2028, U+2029, U+202F,
/// U+205F and U+3000.
pub open spec fn unicode_white_space(c: char) -> bool {
    let n = c as u32;
    ||| 0x09 <= n <= 0x0d
    ||| n == 0x20
    ||| n == 0x85
    ||| n == 0xa0
    ||| n == 0x1680
    ||| 0x2000 <= n <= 0x200a
    ||| n == 0x2028
    ||| n == 0x2029
    ||| n == 0x202f
    ||| n == 0x205f
    ||| n == 0x3000
}

/// Whether `c` has the Unicode `White_Space` property, as
/// `char::is_whitespace` reports it.
fn char_is_whitespace(c: char) -> (b: bool)
    ensures
        b == unicode_white_space(c),
{
    let n = c as u32;
    (0x09 <= n && n <= 0x0d) || n == 0x20 || n == 0x85 || n == 0xa0 || n == 0x1680 || (0x2000
        <= n && n <= 0x200a) || n == 0x2028 || n == 0x2029 || n == 0x202f || n == 0x205f || n
        == 0x3000
}

/// `String::push`: appends one character to the end of the string.
#[verifier::external_body]
fn push_char(s: &mut String, c: char)
    ensures
        final(s)@ == old(s)@.push(c),
{
    s.push(c);
}

/// The view of every vector in `v`.
pub open spec fn seqs_of(v: Seq<Vec<char>>) -> Seq<Seq<char>> {
    v.map_values(|x: Vec<char>| x@)
}

/// The view of every string in `v`.
pub open spec fn strings_of(v: Seq<String>) -> Seq<Seq<char>> {
    v.map_values(|x: String| x@)
}

/// Collects the characters of a string slice.
pub fn chars_of(s: &str) -> (r: Vec<char>)
    ensures
        r@ == s@,
{
    broadcast use vstd::string::group_string_axioms;

    let mut out: Vec<char> = Vec::new();
    for c in it: s.chars()
        invariant
            out@ == it.seq().take(it.index() as int),
    {
        out.push(c);
    }
    out
}

/// Builds a `String` holding the characters of `v`.
pub fn string_of(v: &[char]) -> (r: String)
    ensures
        r@ == v@,
{
    let mut out = String::new();
    let mut i: usize = 0;
    while i < v.len()
        invariant
            0 <= i <= v@.len(),
            out@ == v@.take(i as int),
        decreases v@.len() - i,
    {
        push_char(&mut out, v[i]);
        assert(v@.take(i + 1) =~= v@.take(i as int).push(v@[i as int]));
        i = i + 1;
    }
    assert(v@.take(v@.len() as int) =~= v@);
    out
}

/// Character-wise equality of a vector and a string slice.
pub fn chars_eq_str(a: &Vec<char>, b: &str) -> (r: bool)
    ensures
        r == (a@ == b@),
{
    let bv = chars_of(b);
    chars_eq(a, &bv)
}

/// Character-wise equality of two vectors.
pub fn chars_eq(a: &Vec<char>, b: &Vec<char>) -> (r: bool)
    ensures
        r == (a@ == b@),
{
    if a.len() != b.len() {
        return false;
    }
    let mut i: usize = 0;
    while i < a.len()
        invariant
            0 <= i <= a@.len(),
            a@.len() == b@.len(),
            forall|k: int| 0 <= k < i ==> a@[k] == b@[k],
        decreases a@.len() - i,
    {
        if a[i] != b[i] {
            return false;
        }
        i = i + 1;
    }
    assert(a@ =~= b@);
    true
}

/// `s` with leading Unicode whitespace removed.
pub open spec fn trim_start_ws(s: Seq<char>) -> Seq<char>
    decreases s.len(),
{
    if s.len() > 0 && unicode_white_space(s[0]) {
        trim_start_ws(s.drop_first())
    } else {
        s
    }
}

/// `s` with trailing Unicode whitespace removed.
pub open spec fn trim_end_ws(s: Seq<char>) -> Seq<char>
    decreases s.len(),
{
    if s.len() > 0 && unicode_white_space(s.last()) {
        trim_end_ws(s.drop_last())
    } else {
        s
    }
}

/// `str::trim`: `s` with leading and trailing Unicode whitespace removed.
pub open spec fn trim_ws(s: Seq<char>) -> Seq<char> {
    trim_end_ws(trim_start_ws(s))
}

/// `str::trim_start_matches('/')`: `s` with every leading `/` removed.
pub open spec fn strip_slashes(s: Seq<char>) -> Seq<char>
    decreases s.len(),
{
    if s.len() > 0 && s[0] == '/' {
        strip_slashes(s.drop_first())
    } else {
        s
    }
}

/// Index of the first character of `s` at or after `i` that is not a `/`.
fn skip_slashes(s: &Vec<char>, i: usize) -> (j: usize)
    requires
        i <= s@.len(),
    ensures
        i <= j <= s@.len(),
        strip_slashes(s@.subrange(i as int, s@.len() as int)) == s@.subrange(
            j as int,
            s@.len() as int,
        ),
{
    let mut j = i;
    while j < s.len() && s[j] == '/'
        invariant
            i <= j <= s@.len(),
            strip_slashes(s@.subrange(i as int, s@.len() as int)) == strip_slashes(
                s@.subrange(j as int, s@.len() as int),
            ),
        decreases s@.len() - j,
    {
        assert(s@.subrange(j as int, s@.len() as int).drop_first() =~= s@.subrange(
            j + 1,
            s@.len() as int,
        ));
        j = j + 1;
    }
    j
}

/// `s` with every leading `/` removed.
pub fn strip_leading_slashes(s: &Vec<char>) -> (r: Vec<char>)
    ensures
        r@ == strip_slashes(s@),
{
    assert(s@.subrange(0, s@.len() as int) =~= s@);
    let j = skip_slashes(s, 0);
    slice_from(s, j)
}

/// The characters of `s` from index `from` to the end.
pub fn slice_from(s: &Vec<char>, from: usize) -> (r: Vec<char>)
    requires
        from <= s@.len(),
    ensures
        r@ == s@.subrange(from as int, s@.len() as int),
{
    slice_range(s, from, s.len())
}

/// The characters of `s` in `[from, to)`.
pub fn slice_range(s: &Vec<char>, from: usize, to: usize) -> (r: Vec<char>)
    requires
        from <= to <= s@.len(),
    ensures
        r@ == s@.subrange(from as int, to as int),
{
    let mut out: Vec<char> = Vec::new();
    let mut k = from;
    while k < to
        invariant
            from <= k <= to <= s@.len(),
            out@ == s@.subrange(from as int, k as int),
        decreases to - k,
    {
        out.push(s[k]);
        assert(s@.subrange(from as int, k + 1) =~= s@.subrange(from as int, k as int).push(
            s@[k as int],
        ));
        k = k + 1;
    }
    out
}

/// `str::trim` on a character vector.
pub fn trim_chars(s: &Vec<char>) -> (r: Vec<char>)
    ensures
        r@ == trim_ws(s@),
{
    let mut i: usize = 0;
    assert(s@.subrange(0, s@.len() as int) =~= s@);
    while i < s.len() && char_is_whitespace(s[i])
        invariant
            0 <= i <= s@.len(),
            trim_start_ws(s@) == trim_start_ws(s@.subrange(i as int, s@.len() as int)),
        decreases s@.len() - i,
    {
        assert(s@.subrange(i as int, s@.len() as int).drop_first() =~= s@.subrange(
            i + 1,
            s@.len() as int,
        ));
        i = i + 1;
    }
    assert(trim_start_ws(s@) == s@.subrange(i as int, s@.len() as int));
    let mut j: usize = s.len();
    while j > i && char_is_whitespace(s[j - 1])
        invariant
            i <= j <= s@.len(),
            trim_ws(s@) == trim_end_ws(s@.subrange(i as int, j as int)),
        decreases j,
    {
        assert(s@.subrange(i as int, j as int).drop_last() =~= s@.subrange(i as int, j - 1));
        j = j - 1;
    }
    slice_range(s, i, j)
}

/// `p.trim().trim_start_matches('/')` on characters.
pub open spec fn normalise(p: Seq<char>) -> Seq<char> {
    strip_slashes(trim_ws(p))
}

/// [`normalise`] on characters.
pub fn normalise_chars(p: &Vec<char>) -> (r: Vec<char>)
    ensures
        r@ == normalise(p@),
{
    let t = trim_chars(p);
    strip_leading_slashes(&t)
}

/// Normalises a user-supplied path: surrounding whitespace and any leading
/// `/` are removed, so `/Root/A` and `Root/A` name the same path.
pub fn normalise_path(p: &str) -> (r: String)
    ensures
        r@ == normalise(p@),
{
    let c = chars_of(p);
    let t = trim_chars(&c);
    let s = strip_leading_slashes(&t);
    string_of(s.as_slice())
}

/// `str::split('/')`: the `/`-separated segments of `s`, empty ones included.
pub open spec fn split_path(s: Seq<char>) -> Seq<Seq<char>>
    decreases s.len(),
{
    if s.len() == 0 {
        seq![Seq::<char>::empty()]
    } else {
        let prev = split_path(s.drop_last());
        if s.last() == '/' {
            prev.push(Seq::<char>::empty())
        } else {
            prev.update(prev.len() - 1, prev.last().push(s.last()))
        }
    }
}

/// `split` always yields at least one segment.
pub proof fn lemma_split_nonempty(s: Seq<char>)
    ensures
        split_path(s).len() >= 1,
    decreases s.len(),
{
    if s.len() > 0 {
        lemma_split_nonempty(s.drop_last());
    }
}

/// `segs.join("/")`.
pub open spec fn join_path(segs: Seq<Seq<char>>) -> Seq<char>
    decreases segs.len(),
{
    if segs.len() == 0 {
        Seq::<char>::empty()
    } else if segs.len() == 1 {
        segs[0]
    } else {
        join_path(segs.drop_last()) + seq!['/'] + segs.last()
    }
}

/// Splits `s` at every `/`.
pub fn split_chars(s: &Vec<char>) -> (r: Vec<Vec<char>>)
    ensures
        seqs_of(r@) == split_path(s@),
        r@.len() >= 1,
{
    let mut segs: Vec<Vec<char>> = Vec::new();
    let mut cur: Vec<char> = Vec::new();
    let mut i: usize = 0;
    assert(s@.take(0) =~= Seq::<char>::empty());
    assert(seqs_of(segs@).push(cur@) =~= split_path(s@.take(0)));
    while i < s.len()
        invariant
            0 <= i <= s@.len(),
            seqs_of(segs@).push(cur@) == split_path(s@.take(i as int)),
        decreases s@.len() - i,
    {
        let c = s[i];
        let ghost before = s@.take(i as int);
        assert(s@.take(i + 1).drop_last() =~= before);
        assert(s@.take(i + 1).last() == c);
        if c == '/' {
            let done = cur;
            segs.push(done);
            cur = Vec::new();
            assert(seqs_of(segs@).push(cur@) =~= split_path(before).push(Seq::<char>::empty()));
        } else {
            cur.push(c);
            proof {
                lemma_split_nonempty(before);
            }
            assert(seqs_of(segs@).push(cur@) =~= split_path(before).update(
                split_path(before).len() - 1,
                split_path(before).last().push(c),
            ));
        }
        i = i + 1;
    }
    assert(s@.take(s@.len() as int) =~= s@);
    segs.push(cur);
    assert(seqs_of(segs@) =~= split_path(s@));
    segs
}

/// Joins `segs` with `/` between consecutive segments.
pub fn join_chars(segs: &Vec<Vec<char>>, count: usize) -> (r: Vec<char>)
    requires
        count <= segs@.len(),
    ensures
        r@ == join_path(seqs_of(segs@).take(count as int)),
{
    let mut out: Vec<char> = Vec::new();
    let mut i: usize = 0;
    assert(seqs_of(segs@).take(0) =~= Seq::<Seq<char>>::empty());
    while i < count
        invariant
            0 <= i <= count <= segs@.len(),
            out@ == join_path(seqs_of(segs@).take(i as int)),
        decreases count - i,
    {
        let ghost prev = out@;
        assert(seqs_of(segs@).take(i + 1).drop_last() =~= seqs_of(segs@).take(i as int));
        if i > 0 {
            out.push('/');
        }
        let seg = &segs[i];
        let mut k: usize = 0;
        let ghost mid = out@;
        while k < seg.len()
            invariant
                0 <= k <= seg@.len(),
                out@ == mid + seg@.take(k as int),
            decreases seg@.len() - k,
        {
            out.push(seg[k]);
            assert(seg@.take(k + 1) =~= seg@.take(k as int).push(seg@[k as int]));
            k = k + 1;
        }
        assert(seg@.take(seg@.len() as int) =~= seg@);
        if i == 0 {
            assert(out@ =~= join_path(seqs_of(segs@).take(1)));
        } else {
            assert(out@ =~= prev + seq!['/'] + seg@);
        }
        i = i + 1;
    }
    out
}

/// Strict lexicographic order on characters, the order `String`'s `Ord`
/// gives (comparing UTF-8 bytes orders strings by code point).
pub open spec fn seq_lt(a: Seq<char>, b: Seq<char>) -> bool
    decreases a.len(),
{
    if a.len() == 0 {
        b.len() > 0
    } else if b.len() == 0 {
        false
    } else if a[0] != b[0] {
        (a[0] as u32) < (b[0] as u32)
    } else {
        seq_lt(a.drop_first(), b.drop_first())
    }
}

/// `a <= b` in the order of `seq_lt`.
pub open spec fn seq_le(a: Seq<char>, b: Seq<char>) -> bool {
    !seq_lt(b, a)
}

/// Distinct characters have distinct code points.
proof fn lemma_char_code_injective(x: char, y: char)
    ensures
        x != y ==> (x as u32) != (y as u32),
{
}

/// `seq_lt` is irreflexive.
pub proof fn lemma_lt_irreflexive(a: Seq<char>)
    ensures
        !seq_lt(a, a),
    decreases a.len(),
{
    if a.len() > 0 {
        lemma_lt_irreflexive(a.drop_first());
    }
}

/// `seq_lt` is total on distinct sequences.
pub proof fn lemma_lt_total(a: Seq<char>, b: Seq<char>)
    ensures
        a != b ==> seq_lt(a, b) || seq_lt(b, a),
    decreases a.len(),
{
    if a.len() > 0 && b.len() > 0 && a[0] == b[0] {
        lemma_lt_total(a.drop_first(), b.drop_first());
        if a.drop_first() == b.drop_first() {
            assert(a =~= seq![a[0]] + a.drop_first());
            assert(b =~= seq![b[0]] + b.drop_first());
        }
    } else if a.len() == 0 && b.len() == 0 {
        assert(a =~= b);
    } else if a.len() > 0 && b.len() > 0 {
        lemma_char_code_injective(a[0], b[0]);
    }
}

/// `seq_lt` is asymmetric.
pub proof fn lemma_lt_asymmetric(a: Seq<char>, b: Seq<char>)
    ensures
        seq_lt(a, b) ==> !seq_lt(b, a),
    decreases a.len(),
{
    if a.len() > 0 && b.len() > 0 && a[0] == b[0] {
        lemma_lt_asymmetric(a.drop_first(), b.drop_first());
    }
}

/// `seq_lt` is transitive.
pub proof fn lemma_lt_transitive(a: Seq<char>, b: Seq<char>, c: Seq<char>)
    requires
        seq_lt(a, b),
        seq_lt(b, c),
    ensures
        seq_lt(a, c),
    decreases a.len(),
{
    if a.len() > 0 && b.len() > 0 && c.len() > 0 && a[0] == b[0] && b[0] == c[0] {
        lemma_lt_transitive(a.drop_first(), b.drop_first(), c.drop_first());
    }
}

/// Compares two character vectors in the order `String`'s `Ord` uses.
pub fn chars_lt(a: &Vec<char>, b: &Vec<char>) -> (r: bool)
    ensures
        r == seq_lt(a@, b@),
{
    let mut i: usize = 0;
    assert(a@.subrange(0, a@.len() as int) =~= a@);
    assert(b@.subrange(0, b@.len() as int) =~= b@);
    while i < a.len() && i < b.len() && a[i] == b[i]
        invariant
            0 <= i <= a@.len(),
            i <= b@.len(),
            seq_lt(a@, b@) == seq_lt(
                a@.subrange(i as int, a@.len() as int),
                b@.subrange(i as int, b@.len() as int),
            ),
        decreases a@.len() - i,
    {
        assert(a@.subrange(i as int, a@.len() as int).drop_first() =~= a@.subrange(
            i + 1,
            a@.len() as int,
        ));
        assert(b@.subrange(i as int, b@.len() as int).drop_first() =~= b@.subrange(
            i + 1,
            b@.len() as int,
        ));
        i = i + 1;
    }
    let ghost sa = a@.subrange(i as int, a@.len() as int);
    let ghost sb = b@.subrange(i as int, b@.len() as int);
    if i == a.len() {
        assert(sa.len() == 0);
        assert(seq_lt(a@, b@) == seq_lt(sa, sb));
        assert(seq_lt(sa, sb) == (sb.len() > 0));
        let r = i < b.len();
        assert(r == seq_lt(a@, b@));
        r
    } else if i == b.len() {
        assert(sb.len() == 0 && sa.len() > 0);
        false
    } else {
        assert(sa[0] == a@[i as int] && sb[0] == b@[i as int]);
        assert(sa.len() > 0 && sb.len() > 0 && sa[0] != sb[0]);
        assert(seq_lt(sa, sb) == ((sa[0] as u32) < (sb[0] as u32)));
        let x = a[i];
        let y = b[i];
        assert(x == sa[0] && y == sb[0]);
        let r = (x as u32) < (y as u32);
        r
    }
}

/// `String::push_str` with the characters of `s`.
pub fn push_str(out: &mut String, s: &str)
    ensures
        final(out)@ == old(out)@ + s@,
{
    let v = chars_of(s);
    push_chars(out, &v);
}

/// Appends the characters of `v`.
pub fn push_chars(out: &mut String, v: &Vec<char>)
    ensures
        final(out)@ == old(out)@ + v@,
{
    let t = string_of(v.as_slice());
    let ghost start = out@;
    let tv = chars_of(t.as_str());
    let mut k: usize = 0;
    while k < tv.len()
        invariant
            0 <= k <= tv@.len(),
            tv@ == v@,
            out@ == start + tv@.take(k as int),
        decreases tv@.len() - k,
    {
        push_char(out, tv[k]);
        assert(tv@.take(k + 1) =~= tv@.take(k as int).push(tv@[k as int]));
        k = k + 1;
    }
    assert(tv@.take(tv@.len() as int) =~= tv@);
}

/// Trailing whitespace is trimmed from behind a leading non-whitespace
/// character.
proof fn lemma_trim_end_after(x: char, q: Seq<char>)
    requires
        !unicode_white_space(x),
    ensures
        trim_end_ws(seq![x] + q) == seq![x] + trim_end_ws(q),
    decreases q.len(),
{
    let s = seq![x] + q;
    if q.len() == 0 {
        assert(s =~= seq![x]);
        assert(s.last() == x);
    } else {
        assert(s.last() == q.last());
        assert(s.drop_last() =~= seq![x] + q.drop_last());
        lemma_trim_end_after(x, q.drop_last());
    }
}

/// A path names the same thing with or without a leading `/`: for a path
/// that does not start with whitespace, `/path` and `path` normalise alike.
pub proof fn lemma_leading_slash_ignored(p: Seq<char>)
    requires
        p.len() == 0 || !unicode_white_space(p[0]),
    ensures
        normalise(seq!['/'] + p) == normalise(p),
{
    let s = seq!['/'] + p;
    assert(s[0] == '/');
    assert(!unicode_white_space('/'));
    assert(trim_start_ws(s) == s);
    assert(trim_start_ws(p) == p);
    lemma_trim_end_after('/', p);
    let r = trim_end_ws(p);
    assert(trim_ws(s) == seq!['/'] + r);
    assert((seq!['/'] + r)[0] == '/');
    assert((seq!['/'] + r).drop_first() =~= r);
}

/// Splitting `s/name` (with `name` free of `/`) gives the segments of `s`
/// and then `name`.
pub proof fn lemma_split_append(s: Seq<char>, name: Seq<char>)
    requires
        forall|k: int| 0 <= k < name.len() ==> name[k] != '/',
    ensures
        split_path(s + seq!['/'] + name) == split_path(s).push(name),
    decreases name.len(),
{
    let t = s + seq!['/'] + name;
    if name.len() == 0 {
        assert(t.last() == '/');
        assert(t.drop_last() =~= s);
        assert(name =~= Seq::<char>::empty());
    } else {
        let m = name.drop_last();
        assert forall|k: int| 0 <= k < m.len() implies m[k] != '/' by {
            assert(m[k] == name[k]);
        }
        lemma_split_append(s, m);
        assert(t.last() == name.last());
        assert(t.drop_last() =~= s + seq!['/'] + m);
        assert(name =~= m.push(name.last()));
        assert(split_path(t) =~= split_path(s).push(name));
    }
}

/// Leading `/` characters are stripped only at the front: once something
/// other than `/` is left, appending to the input appends to the output.
pub proof fn lemma_strip_append(s: Seq<char>, x: Seq<char>)
    requires
        strip_slashes(s).len() > 0,
    ensures
        strip_slashes(s + x) == strip_slashes(s) + x,
    decreases s.len(),
{
    if s.len() > 0 && s[0] == '/' {
        assert((s + x)[0] == '/');
        assert((s + x).drop_first() =~= s.drop_first() + x);
        lemma_strip_append(s.drop_first(), x);
    } else {
        if s.len() > 0 {
            assert((s + x)[0] == s[0]);
        }
    }
}

/// Stripping leading `/` twice is stripping them once.
pub proof fn lemma_strip_idempotent(s: Seq<char>)
    ensures
        strip_slashes(strip_slashes(s)) == strip_slashes(s),
    decreases s.len(),
{
    if s.len() > 0 && s[0] == '/' {
        lemma_strip_idempotent(s.drop_first());
    }
}

/// Joining the segments of a split gives back the text.
pub proof fn lemma_join_split(s: Seq<char>)
    ensures
        join_path(split_path(s)) == s,
    decreases s.len(),
{
    if s.len() > 0 {
        let prev = split_path(s.drop_last());
        lemma_join_split(s.drop_last());
        lemma_split_nonempty(s.drop_last());
        if s.last() == '/' {
            assert(prev.push(Seq::<char>::empty()).drop_last() =~= prev);
            assert(s =~= s.drop_last() + seq!['/'] + Seq::<char>::empty());
        } else {
            let u = prev.update(prev.len() - 1, prev.last().push(s.last()));
            if prev.len() == 1 {
                assert(u[0] =~= prev[0].push(s.last()));
                assert(s =~= s.drop_last().push(s.last()));
            } else {
                assert(u.drop_last() =~= prev.drop_last());
                assert(join_path(prev) == join_path(prev.drop_last()) + seq!['/'] + prev.last());
                assert(s =~= s.drop_last().push(s.last()));
                let a = join_path(prev.drop_last()) + seq!['/'];
                assert(s.drop_last() == a + prev.last());
                assert((a + prev.last()).push(s.last()) =~= a + prev.last().push(s.last()));
                assert(join_path(u) == join_path(u.drop_last()) + seq!['/'] + u.last());
            }
        }
    }
}

/// Every character of a segment of `s` is a character of `s`.
pub proof fn lemma_segment_chars(s: Seq<char>, i: int, k: int)
    requires
        0 <= i < split_path(s).len(),
        0 <= k < split_path(s)[i].len(),
    ensures
        exists|m: int| 0 <= m < s.len() && s[m] == split_path(s)[i][k],
    decreases s.len(),
{
    if s.len() > 0 {
        let prev = split_path(s.drop_last());
        lemma_split_nonempty(s.drop_last());
        if s.last() == '/' {
            if i < prev.len() {
                lemma_segment_chars(s.drop_last(), i, k);
                let m = choose|m: int| 0 <= m < s.drop_last().len() && s.drop_last()[m] == prev[i][k];
                assert(s[m] == prev[i][k]);
            }
        } else {
            if i < prev.len() - 1 || k < prev.last().len() {
                lemma_segment_chars(s.drop_last(), i, k);
                let m = choose|m: int| 0 <= m < s.drop_last().len() && s.drop_last()[m] == prev[i][k];
                assert(s[m] == prev[i][k]);
            } else {
                assert(s[s.len() - 1] == split_path(s)[i][k]);
            }
        }
    }
}

} // verus!
