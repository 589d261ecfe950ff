//! Sorting character sequences in the order of `String`'s `Ord`, and the
//! sorted set operations that `diff` needs.
use vstd::prelude::*;
use vstd::multiset::Multiset;
use vstd::seq_lib::{to_multiset_build, to_multiset_insert};

use crate::text::{
    chars_eq, chars_lt, lemma_lt_asymmetric, lemma_lt_irreflexive, lemma_lt_total,
    lemma_lt_transitive, seq_le, seq_lt, seqs_of,
};

verus! {

/// `s` is in ascending order.
pub open spec fn is_sorted(s: Seq<Seq<char>>) -> bool {
    forall|i: int, j: int| 0 <= i < j < s.len() ==> seq_le(#[trigger] s[i], #[trigger] s[j])
}

/// `s` is in strictly ascending order (so it holds no duplicates).
pub open spec fn is_strictly_sorted(s: Seq<Seq<char>>) -> bool {
    forall|i: int, j: int| 0 <= i < j < s.len() ==> seq_lt(#[trigger] s[i], #[trigger] s[j])
}

/// `seq_le` is transitive.
pub proof fn lemma_le_transitive(a: Seq<char>, b: Seq<char>, c: Seq<char>)
    requires
        seq_le(a, b),
        seq_le(b, c),
    ensures
        seq_le(a, c),
{
    if seq_lt(c, a) {
        lemma_lt_total(a, b);
        if a != b {
            lemma_lt_transitive(c, a, b);
        }
    }
}

/// Sorts `v` in ascending order (insertion sort).
pub fn sort_chars(v: Vec<Vec<char>>) -> (r: Vec<Vec<char>>)
    ensures
        is_sorted(seqs_of(r@)),
        seqs_of(r@).to_multiset() == seqs_of(v@).to_multiset(),
{
    let ghost input = seqs_of(v@);
    let mut sorted: Vec<Vec<char>> = Vec::new();
    let mut rest = v;
    assert(seqs_of(sorted@) =~= Seq::<Seq<char>>::empty());
    let mut items: Vec<Vec<char>> = Vec::new();
    // Take the elements out in reverse, so that popping yields them in order.
    while rest.len() > 0
        invariant
            seqs_of(rest@) + seqs_of(items@).reverse() == input,
        decreases rest@.len(),
    {
        let ghost before_rest = seqs_of(rest@);
        let ghost before_items = seqs_of(items@);
        let x = rest.pop().unwrap();
        items.push(x);
        assert(seqs_of(rest@) =~= before_rest.drop_last());
        assert(seqs_of(items@) =~= before_items.push(x@));
        assert(seqs_of(items@).reverse() =~= seq![x@] + before_items.reverse());
        assert(seqs_of(rest@) + seqs_of(items@).reverse() =~= before_rest.drop_last() + (seq![
            x@,
        ] + before_items.reverse()));
        assert(before_rest =~= before_rest.drop_last().push(x@));
    }
    assert(seqs_of(rest@) =~= Seq::<Seq<char>>::empty());
    assert(seqs_of(items@).reverse() =~= input);
    proof {
        broadcast use vstd::seq_lib::group_to_multiset_ensures, vstd::multiset::group_multiset_axioms;

        seqs_of(items@).lemma_reverse_to_multiset();
        assert(seqs_of(sorted@).to_multiset().len() == 0);
        assert(seqs_of(sorted@).to_multiset() =~= Multiset::<Seq<char>>::empty());
        assert(seqs_of(sorted@).to_multiset().add(seqs_of(items@).to_multiset())
            =~= seqs_of(items@).to_multiset());
    }
    while items.len() > 0
        invariant
            is_sorted(seqs_of(sorted@)),
            seqs_of(sorted@).to_multiset().add(seqs_of(items@).to_multiset()) == input.to_multiset(),
        decreases items@.len(),
    {
        broadcast use to_multiset_build, to_multiset_insert;

        let ghost before_items = seqs_of(items@);
        let x = items.pop().unwrap();
        assert(seqs_of(items@) =~= before_items.drop_last());
        assert(before_items =~= seqs_of(items@).push(x@));
        let ghost s = seqs_of(sorted@);
        let mut j = sorted.len();
        while j > 0 && chars_lt(&x, &sorted[j - 1])
            invariant
                s == seqs_of(sorted@),
                0 <= j <= s.len(),
                forall|t: int| j <= t < s.len() ==> seq_lt(x@, #[trigger] s[t]),
            decreases j,
        {
            j = j - 1;
        }
        proof {
            if j > 0 {
                assert(!seq_lt(x@, s[j - 1]));
            }
        }
        sorted.insert(j, x);
        let ghost s2 = seqs_of(sorted@);
        assert(s2 =~= s.insert(j as int, x@));
        assert forall|a: int, b: int| 0 <= a < b < s2.len() implies seq_le(
            #[trigger] s2[a],
            #[trigger] s2[b],
        ) by {
            if b < j {
                assert(s2[a] == s[a] && s2[b] == s[b]);
            } else if a > j {
                assert(s2[a] == s[a - 1] && s2[b] == s[b - 1]);
            } else if a == j {
                assert(s2[b] == s[b - 1]);
                lemma_lt_asymmetric(x@, s[b - 1]);
            } else if b == j {
                assert(s2[a] == s[a]);
                if a < j - 1 {
                    lemma_le_transitive(s[a], s[j - 1], x@);
                }
            } else {
                assert(s2[a] == s[a] && s2[b] == s[b - 1]);
            }
        }
        assert(s2.to_multiset() == s.to_multiset().insert(x@));
        assert(before_items.to_multiset() == seqs_of(items@).to_multiset().insert(x@));
        assert(s2.to_multiset().add(seqs_of(items@).to_multiset()) =~= s.to_multiset().add(
            before_items.to_multiset(),
        ));
    }
    assert(seqs_of(items@) =~= Seq::<Seq<char>>::empty());
    proof {
        broadcast use vstd::seq_lib::group_to_multiset_ensures, vstd::multiset::group_multiset_axioms;

        assert(seqs_of(items@).to_multiset().len() == 0);
        assert(seqs_of(items@).to_multiset() =~= Multiset::<Seq<char>>::empty());
    }
    assert(seqs_of(sorted@).to_multiset() =~= seqs_of(sorted@).to_multiset().add(
        Multiset::<Seq<char>>::empty(),
    ));
    sorted
}

/// Whether `v` holds `x`.
pub fn contains_chars_seq(v: &Vec<Vec<char>>, x: &Vec<char>) -> (r: bool)
    ensures
        r == seqs_of(v@).contains(x@),
{
    let mut k: usize = 0;
    while k < v.len()
        invariant
            0 <= k <= v@.len(),
            forall|t: int| 0 <= t < k ==> seqs_of(v@)[t] != x@,
        decreases v@.len() - k,
    {
        if chars_eq(&v[k], x) {
            assert(seqs_of(v@)[k as int] == x@);
            return true;
        }
        k = k + 1;
    }
    false
}

/// The distinct entries of the sorted `a` that `b` holds (`keep`) or does
/// not hold (`!keep`), in strictly ascending order.
pub fn sorted_select(a: &Vec<Vec<char>>, b: &Vec<Vec<char>>, keep: bool) -> (r: Vec<Vec<char>>)
    requires
        is_sorted(seqs_of(a@)),
    ensures
        is_strictly_sorted(seqs_of(r@)),
        seqs_of(r@).to_set() == seqs_of(a@).to_set().filter(
            |x: Seq<char>| seqs_of(b@).contains(x) == keep,
        ),
{
    let ghost sa = seqs_of(a@);
    let ghost sb = seqs_of(b@);
    let mut r: Vec<Vec<char>> = Vec::new();
    let mut i: usize = 0;
    assert(seqs_of(r@).to_set() =~= sa.take(0).to_set().filter(
        |x: Seq<char>| sb.contains(x) == keep,
    ));
    while i < a.len()
        invariant
            sa == seqs_of(a@),
            sb == seqs_of(b@),
            is_sorted(sa),
            0 <= i <= a@.len(),
            is_strictly_sorted(seqs_of(r@)),
            seqs_of(r@).len() > 0 ==> sa.take(i as int).contains(seqs_of(r@).last()),
            seqs_of(r@).to_set() == sa.take(i as int).to_set().filter(
                |x: Seq<char>| sb.contains(x) == keep,
            ),
        decreases a@.len() - i,
    {
        let ghost sr = seqs_of(r@);
        let x = &a[i];
        assert(x@ == sa[i as int]);
        assert(sa.take(i + 1) =~= sa.take(i as int).push(x@));
        proof {
            sa.take(i as int).lemma_push_to_set_commute(x@);
        }
        assert(sa.take(i + 1).to_set() =~= sa.take(i as int).to_set().insert(x@));
        let in_b = contains_chars_seq(b, x);
        if in_b == keep {
            let dup = r.len() > 0 && chars_eq(&r[r.len() - 1], x);
            if !dup {
                proof {
                    if sr.len() > 0 {
                        let k = choose|k: int| 0 <= k < i && sa.take(i as int)[k] == sr.last();
                        assert(sa[k] == sr.last());
                        assert(seq_le(sa[k], sa[i as int]));
                        assert(r@[r@.len() - 1]@ == sr.last());
                        lemma_lt_total(sr.last(), x@);
                        assert(seq_lt(sr.last(), x@));
                    }
                }
                r.push(copy_chars(x));
                let ghost sr2 = seqs_of(r@);
                assert(sr2 =~= sr.push(x@));
                assert forall|p: int, q: int| 0 <= p < q < sr2.len() implies seq_lt(
                    #[trigger] sr2[p],
                    #[trigger] sr2[q],
                ) by {
                    if q == sr.len() {
                        if p < sr.len() - 1 {
                            lemma_lt_transitive(sr[p], sr.last(), x@);
                        }
                    } else {
                        assert(sr2[p] == sr[p] && sr2[q] == sr[q]);
                    }
                }
                proof {
                    sr.lemma_push_to_set_commute(x@);
                }
                assert(sr2.to_set() =~= sr.to_set().insert(x@));
                assert(sa.take(i + 1)[i as int] == x@);
                assert(seqs_of(r@).to_set() =~= sa.take(i + 1).to_set().filter(
                    |x: Seq<char>| sb.contains(x) == keep,
                ));
            } else {
                assert(sr.last() == x@);
                assert(sr.contains(x@));
                assert(seqs_of(r@).to_set() =~= sa.take(i + 1).to_set().filter(
                    |x: Seq<char>| sb.contains(x) == keep,
                ));
                assert(sa.take(i + 1).contains(sr.last())) by {
                    let k = choose|k: int| 0 <= k < i && sa.take(i as int)[k] == sr.last();
                    assert(sa.take(i + 1)[k] == sr.last());
                }
            }
        } else {
            assert(seqs_of(r@).to_set() =~= sa.take(i + 1).to_set().filter(
                |x: Seq<char>| sb.contains(x) == keep,
            ));
            proof {
                if sr.len() > 0 {
                    let k = choose|k: int| 0 <= k < i && sa.take(i as int)[k] == sr.last();
                    assert(sa.take(i + 1)[k] == sr.last());
                }
            }
        }
        i = i + 1;
    }
    assert(sa.take(a@.len() as int) =~= sa);
    r
}

/// A copy of `v`.
fn copy_chars(v: &Vec<char>) -> (r: Vec<char>)
    ensures
        r@ == v@,
{
    crate::tree::copy_chars(v)
}

/// The strictly ascending sequence of the elements of `s` (there is exactly
/// one when `s` is finite; see [`lemma_strictly_sorted_unique`]).
pub open spec fn sorted_of(s: Set<Seq<char>>) -> Seq<Seq<char>> {
    choose|q: Seq<Seq<char>>| is_strictly_sorted(q) && q.to_set() == s
}

/// Two strictly ascending sequences with the same elements are equal.
pub proof fn lemma_strictly_sorted_unique(a: Seq<Seq<char>>, b: Seq<Seq<char>>)
    requires
        is_strictly_sorted(a),
        is_strictly_sorted(b),
        a.to_set() == b.to_set(),
    ensures
        a == b,
    decreases a.len(),
{
    if a.len() == 0 {
        if b.len() > 0 {
            assert(b.to_set().contains(b[0]));
        }
        assert(a =~= b);
    } else {
        assert(a.to_set().contains(a[0]));
        assert(b.len() > 0);
        assert(b.to_set().contains(b[0]));
        let j = choose|j: int| 0 <= j < b.len() && b[j] == a[0];
        let i = choose|i: int| 0 <= i < a.len() && a[i] == b[0];
        if i > 0 && j > 0 {
            assert(seq_lt(a[0], a[i]));
            assert(seq_lt(b[0], b[j]));
            lemma_lt_asymmetric(a[0], b[0]);
        }
        assert(a[0] == b[0]);
        let ta = a.drop_first();
        let tb = b.drop_first();
        assert(is_strictly_sorted(ta)) by {
            assert forall|p: int, q: int| 0 <= p < q < ta.len() implies seq_lt(
                #[trigger] ta[p],
                #[trigger] ta[q],
            ) by {
                assert(ta[p] == a[p + 1] && ta[q] == a[q + 1]);
            }
        }
        assert(is_strictly_sorted(tb)) by {
            assert forall|p: int, q: int| 0 <= p < q < tb.len() implies seq_lt(
                #[trigger] tb[p],
                #[trigger] tb[q],
            ) by {
                assert(tb[p] == b[p + 1] && tb[q] == b[q + 1]);
            }
        }
        assert forall|x: Seq<char>| ta.to_set().contains(x) == tb.to_set().contains(x) by {
            if ta.to_set().contains(x) {
                let p = choose|p: int| 0 <= p < ta.len() && ta[p] == x;
                assert(a[p + 1] == x);
                assert(seq_lt(a[0], x));
                lemma_lt_irreflexive(x);
                assert(a.to_set().contains(x));
                let q = choose|q: int| 0 <= q < b.len() && b[q] == x;
                assert(q != 0);
                assert(tb[q - 1] == x);
            }
            if tb.to_set().contains(x) {
                let p = choose|p: int| 0 <= p < tb.len() && tb[p] == x;
                assert(b[p + 1] == x);
                assert(seq_lt(b[0], x));
                lemma_lt_irreflexive(x);
                assert(b.to_set().contains(x));
                let q = choose|q: int| 0 <= q < a.len() && a[q] == x;
                assert(q != 0);
                assert(ta[q - 1] == x);
            }
        }
        assert(ta.to_set() =~= tb.to_set());
        lemma_strictly_sorted_unique(ta, tb);
        assert(a =~= b) by {
            assert forall|k: int| 0 <= k < a.len() implies a[k] == b[k] by {
                if k > 0 {
                    assert(a[k] == ta[k - 1] && b[k] == tb[k - 1]);
                }
            }
        }
    }
}

/// A strictly ascending sequence is the sorted sequence of its elements.
pub proof fn lemma_is_sorted_of(q: Seq<Seq<char>>)
    requires
        is_strictly_sorted(q),
    ensures
        sorted_of(q.to_set()) == q,
{
    let r = sorted_of(q.to_set());
    assert(is_strictly_sorted(r) && r.to_set() == q.to_set());
    lemma_strictly_sorted_unique(r, q);
}

/// `f` picks the entries of `a` out of `b`, in order: `a[i] == b[f[i]]`
/// with `f` strictly increasing.
pub open spec fn picks<A>(f: Seq<int>, a: Seq<A>, b: Seq<A>) -> bool {
    &&& f.len() == a.len()
    &&& forall|i: int| 0 <= i < f.len() ==> 0 <= #[trigger] f[i] < b.len() && b[f[i]] == a[i]
    &&& forall|i: int, j: int| 0 <= i < j < f.len() ==> #[trigger] f[i] < #[trigger] f[j]
}

/// `a` is `b` with some entries left out and the rest in the same order.
pub open spec fn is_subsequence<A>(a: Seq<A>, b: Seq<A>) -> bool {
    exists|f: Seq<int>| picks(f, a, b)
}

/// Extending a picking by one entry taken from a new last entry of `b`.
pub proof fn lemma_picks_push<A>(f: Seq<int>, a: Seq<A>, b: Seq<A>, x: A)
    requires
        picks(f, a, b),
    ensures
        picks(f.push(b.len() as int), a.push(x), b.push(x)),
        picks(f, a, b.push(x)),
{
    let g = f.push(b.len() as int);
    assert forall|i: int| 0 <= i < g.len() implies 0 <= #[trigger] g[i] < b.push(x).len() && b.push(
        x,
    )[g[i]] == a.push(x)[i] by {
        if i < f.len() {
            assert(g[i] == f[i]);
        }
    }
    assert forall|i: int, j: int| 0 <= i < j < g.len() implies #[trigger] g[i] < #[trigger] g[j] by {
        if j < f.len() {
            assert(g[i] == f[i] && g[j] == f[j]);
        } else {
            assert(g[i] == f[i]);
        }
    }
    assert forall|i: int| 0 <= i < f.len() implies 0 <= #[trigger] f[i] < b.push(x).len() && b.push(
        x,
    )[f[i]] == a[i] by {}
}

/// `q` with `x` inserted before the first entry greater than it.
pub open spec fn insert_sorted_seq(q: Seq<Seq<char>>, x: Seq<char>) -> Seq<Seq<char>>
    decreases q.len(),
{
    if q.len() == 0 {
        seq![x]
    } else if seq_lt(q.last(), x) {
        q.push(x)
    } else {
        insert_sorted_seq(q.drop_last(), x).push(q.last())
    }
}

/// Inserting a new element keeps a sequence strictly sorted and adds the
/// element to its set.
proof fn lemma_insert_sorted_seq(q: Seq<Seq<char>>, x: Seq<char>)
    requires
        is_strictly_sorted(q),
        !q.contains(x),
    ensures
        is_strictly_sorted(insert_sorted_seq(q, x)),
        insert_sorted_seq(q, x).to_set() == q.to_set().insert(x),
    decreases q.len(),
{
    let r = insert_sorted_seq(q, x);
    if q.len() == 0 {
        assert(r.to_set() =~= q.to_set().insert(x)) by {
            assert(r[0] == x);
        }
    } else if seq_lt(q.last(), x) {
        assert forall|i: int, j: int| 0 <= i < j < r.len() implies seq_lt(
            #[trigger] r[i],
            #[trigger] r[j],
        ) by {
            if j == q.len() {
                if i < q.len() - 1 {
                    lemma_lt_transitive(q[i], q.last(), x);
                }
            } else {
                assert(r[i] == q[i] && r[j] == q[j]);
            }
        }
        q.lemma_push_to_set_commute(x);
    } else {
        let p = q.drop_last();
        let l = q.last();
        assert(!p.contains(x)) by {
            if p.contains(x) {
                let k = choose|k: int| 0 <= k < p.len() && p[k] == x;
                assert(q[k] == x);
            }
        }
        assert(is_strictly_sorted(p)) by {
            assert forall|i: int, j: int| 0 <= i < j < p.len() implies seq_lt(
                #[trigger] p[i],
                #[trigger] p[j],
            ) by {
                assert(p[i] == q[i] && p[j] == q[j]);
            }
        }
        lemma_insert_sorted_seq(p, x);
        let m = insert_sorted_seq(p, x);
        assert(x != l) by {
            assert(q[q.len() - 1] == l);
        }
        lemma_lt_total(x, l);
        assert forall|y: Seq<char>| m.to_set().contains(y) implies seq_lt(y, l) by {
            assert(p.to_set().insert(x).contains(y));
            if y != x {
                let k = choose|k: int| 0 <= k < p.len() && p[k] == y;
                assert(q[k] == y);
                assert(seq_lt(q[k], q[q.len() - 1]));
            }
        }
        assert forall|i: int, j: int| 0 <= i < j < r.len() implies seq_lt(
            #[trigger] r[i],
            #[trigger] r[j],
        ) by {
            if j == m.len() {
                assert(r[i] == m[i]);
                assert(m.to_set().contains(m[i]));
            } else {
                assert(r[i] == m[i] && r[j] == m[j]);
            }
        }
        m.lemma_push_to_set_commute(l);
        assert(q =~= p.push(l));
        p.lemma_push_to_set_commute(l);
        assert(r.to_set() =~= q.to_set().insert(x));
    }
}

/// Every finite set has a strictly ascending sequence of its elements.
pub proof fn lemma_sorted_of(s: Set<Seq<char>>)
    requires
        s.finite(),
    ensures
        is_strictly_sorted(sorted_of(s)),
        sorted_of(s).to_set() == s,
    decreases s.len(),
{
    if s.len() == 0 {
        let e = Seq::<Seq<char>>::empty();
        assert(e.to_set() =~= s);
        assert(is_strictly_sorted(e));
    } else {
        let x = s.choose();
        let r = s.remove(x);
        lemma_sorted_of(r);
        let q = sorted_of(r);
        assert(!q.contains(x)) by {
            if q.contains(x) {
                assert(q.to_set().contains(x));
            }
        }
        lemma_insert_sorted_seq(q, x);
        let w = insert_sorted_seq(q, x);
        assert(w.to_set() =~= s);
        assert(is_strictly_sorted(w) && w.to_set() == s);
    }
}

/// Where a sorted `x` holds no entry more often than a sorted `y`, the
/// positions that pick `x` out of `y`.
proof fn sorted_sub_picks(x: Seq<Seq<char>>, y: Seq<Seq<char>>) -> (f: Seq<int>)
    requires
        is_sorted(x),
        is_sorted(y),
        x.to_multiset().subset_of(y.to_multiset()),
    ensures
        picks(f, x, y),
    decreases y.len(),
{
    broadcast use vstd::seq_lib::group_to_multiset_ensures, vstd::multiset::group_multiset_axioms;

    if x.len() == 0 {
        Seq::empty()
    } else {
        let a = x.last();
        assert(x.contains(a)) by {
            assert(x[x.len() - 1] == a);
        }
        assert(x.to_multiset().count(a) > 0);
        assert(y.len() > 0) by {
            if y.len() == 0 {
                assert(y.to_multiset().count(a) == 0);
            }
        }
        let b = y.last();
        let xp = x.drop_last();
        let yp = y.drop_last();
        assert(x =~= xp.push(a));
        assert(y =~= yp.push(b));
        assert(is_sorted(xp)) by {
            assert forall|i: int, j: int| 0 <= i < j < xp.len() implies seq_le(
                #[trigger] xp[i],
                #[trigger] xp[j],
            ) by {
                assert(xp[i] == x[i] && xp[j] == x[j]);
            }
        }
        assert(is_sorted(yp)) by {
            assert forall|i: int, j: int| 0 <= i < j < yp.len() implies seq_le(
                #[trigger] yp[i],
                #[trigger] yp[j],
            ) by {
                assert(yp[i] == y[i] && yp[j] == y[j]);
            }
        }
        if a == b {
            assert(xp.to_multiset().subset_of(yp.to_multiset())) by {
                assert forall|v: Seq<char>| xp.to_multiset().count(v) <= yp.to_multiset().count(v) by {
                    assert(x.to_multiset().count(v) <= y.to_multiset().count(v));
                }
            }
            let g = sorted_sub_picks(xp, yp);
            lemma_picks_push(g, xp, yp, a);
            g.push(yp.len() as int)
        } else {
            assert(!x.contains(b)) by {
                if x.contains(b) {
                    let i = choose|i: int| 0 <= i < x.len() && x[i] == b;
                    if i < x.len() - 1 {
                        assert(seq_le(x[i], x[x.len() - 1]));
                    }
                    assert(seq_le(b, a));
                    assert(y.to_multiset().count(a) > 0);
                    let j = choose|j: int| 0 <= j < y.len() && y[j] == a;
                    assert(j < y.len() - 1);
                    assert(seq_le(y[j], y[y.len() - 1]));
                    lemma_lt_total(a, b);
                }
            }
            assert(xp.push(a).to_multiset().subset_of(yp.to_multiset())) by {
                assert forall|v: Seq<char>| x.to_multiset().count(v) <= yp.to_multiset().count(v) by {
                    assert(x.to_multiset().count(v) <= y.to_multiset().count(v));
                    if v == b {
                        assert(x.to_multiset().count(b) == 0);
                    }
                }
            }
            let g = sorted_sub_picks(x, yp);
            lemma_picks_push(g, x, yp, b);
            g
        }
    }
}

/// A sorted sequence that holds no entry more often than a sorted `y` is
/// `y` with some entries left out.
pub proof fn lemma_sorted_sub_multiset_is_subsequence(x: Seq<Seq<char>>, y: Seq<Seq<char>>)
    requires
        is_sorted(x),
        is_sorted(y),
        x.to_multiset().subset_of(y.to_multiset()),
    ensures
        is_subsequence(x, y),
{
    let f = sorted_sub_picks(x, y);
}

} // verus!
