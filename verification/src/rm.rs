//! `arx rm`: remove `AR-PACKAGE`s or individual `ELEMENTS` from an ARXML
//! file.
use vstd::prelude::*;

use crate::cp::toplevel_ranges;
use crate::ls::chars_of_all;
use crate::range::{
    collect_ranges, collect_root_attrs, lemma_ranges_within, pairs_view, ranges_of, ranges_view,
    root_attrs_from, PackageRange, RangeKind, RangeV,
};
use crate::text::{chars_eq, chars_of, normalise, normalise_path, seqs_of, strings_of};
use crate::tree::{build_tree, spec_tree, NodeV};
use crate::util::{
    append_range, append_str, footer_bytes, header_bytes, utf8, write_arxml_footer,
    write_arxml_header,
};
use crate::xml::input_tokens;

verus! {

/// Parse arguments after `rm <input>`: `<pkg1> [<pkg2>...]`, each path
/// normalised.
pub fn parse_rm_args(args: &[String]) -> (r: Vec<String>)
    ensures
        strings_of(r@) == args@.map_values(|a: String| normalise(a@)),
{
    let mut out: Vec<String> = Vec::new();
    let mut i: usize = 0;
    while i < args.len()
        invariant
            0 <= i <= args@.len(),
            strings_of(out@) == args@.map_values(|a: String| normalise(a@)).take(i as int),
        decreases args@.len() - i,
    {
        let ghost prev = strings_of(out@);
        out.push(normalise_path(args[i].as_str()));
        assert(strings_of(out@) =~= prev.push(normalise(args@[i as int]@)));
        assert(args@.map_values(|a: String| normalise(a@)).take(i + 1) =~= args@.map_values(
            |a: String| normalise(a@),
        ).take(i as int).push(normalise(args@[i as int]@)));
        i = i + 1;
    }
    assert(args@.map_values(|a: String| normalise(a@)).take(args@.len() as int) =~= args@.map_values(
        |a: String| normalise(a@),
    ));
    out
}

/// The paths to remove that are not the path of a top-level package: those
/// of nested packages and of elements.
pub open spec fn element_targets(to_remove: Seq<Seq<char>>, toplevel: Seq<RangeV>) -> Seq<
    Seq<char>,
>
    decreases to_remove.len(),
{
    if to_remove.len() == 0 {
        Seq::empty()
    } else {
        let prev = element_targets(to_remove.drop_last(), toplevel);
        if exists|i: int| 0 <= i < toplevel.len() && #[trigger] toplevel[i].path == to_remove.last() {
            prev
        } else {
            prev.push(to_remove.last())
        }
    }
}

/// The `[start, end)` of the element ranges that lie within `[s, e]`, in
/// the order found.
pub open spec fn ranges_within(ers: Seq<RangeV>, s: nat, e: nat) -> Seq<(nat, nat)>
    decreases ers.len(),
{
    if ers.len() == 0 {
        Seq::empty()
    } else {
        let prev = ranges_within(ers.drop_last(), s, e);
        if ers.last().start >= s && ers.last().end <= e {
            prev.push((ers.last().start, ers.last().end))
        } else {
            prev
        }
    }
}

/// Inserts `x` into `sorted` after every entry whose start is not greater.
pub open spec fn insert_by_start(sorted: Seq<(nat, nat)>, x: (nat, nat)) -> Seq<(nat, nat)>
    decreases sorted.len(),
{
    if sorted.len() == 0 {
        seq![x]
    } else if sorted.last().0 <= x.0 {
        sorted.push(x)
    } else {
        insert_by_start(sorted.drop_last(), x).push(sorted.last())
    }
}

/// `s` stably sorted by start (`sort_by_key(|r| r.start)`).
pub open spec fn sort_by_start(s: Seq<(nat, nat)>) -> Seq<(nat, nat)>
    decreases s.len(),
{
    if s.len() == 0 {
        Seq::empty()
    } else {
        insert_by_start(sort_by_start(s.drop_last()), s.last())
    }
}

/// Where the copy stands after skipping the first `k` of `inner`: the
/// furthest end reached so far (a range nested in an earlier one does not
/// move it back).
pub open spec fn cursor_after(start: nat, inner: Seq<(nat, nat)>, k: int) -> nat
    decreases k,
{
    if k <= 0 {
        start
    } else {
        let c = cursor_after(start, inner, k - 1);
        if inner[k - 1].1 > c {
            inner[k - 1].1
        } else {
            c
        }
    }
}

/// The bytes kept before each of the first `k` ranges of `inner`: from the
/// cursor up to the range's start, when the cursor lies before it.
pub open spec fn kept_prefix(raw: Seq<u8>, start: nat, inner: Seq<(nat, nat)>, k: int) -> Seq<u8>
    decreases k,
{
    if k <= 0 {
        Seq::empty()
    } else {
        let c = cursor_after(start, inner, k - 1);
        kept_prefix(raw, start, inner, k - 1) + if c < inner[k - 1].0 {
            raw.subrange(c as int, inner[k - 1].0 as int)
        } else {
            Seq::empty()
        }
    }
}

/// The bytes of `raw[start..end]` without the ranges of `inner` (taken in
/// order; after each range the copy resumes at its end).
pub open spec fn spliced(raw: Seq<u8>, start: nat, end: nat, inner: Seq<(nat, nat)>) -> Seq<u8> {
    let c = cursor_after(start, inner, inner.len() as int);
    kept_prefix(raw, start, inner, inner.len() as int) + if c < end {
        raw.subrange(c as int, end as int)
    } else {
        Seq::empty()
    }
}

/// What is written for the first `k` top-level packages, and whether any
/// of them lost a package or element.
pub open spec fn rm_body(
    raw: Seq<u8>,
    to_remove: Seq<Seq<char>>,
    toplevel: Seq<RangeV>,
    elements: Seq<RangeV>,
    k: int,
) -> (Seq<u8>, bool)
    decreases k,
{
    if k <= 0 {
        (Seq::empty(), false)
    } else {
        let (prev, removed) = rm_body(raw, to_remove, toplevel, elements, k - 1);
        let t = toplevel[k - 1];
        if to_remove.contains(normalise(t.path)) {
            (prev, true)
        } else {
            let inner = sort_by_start(ranges_within(elements, t.start, t.end));
            if inner.len() == 0 {
                (prev + raw.subrange(t.start as int, t.end as int) + utf8("\n"@), removed)
            } else {
                (prev + spliced(raw, t.start, t.end, inner) + utf8("\n"@), true)
            }
        }
    }
}

/// The output of `rm`: the new bytes of the file, and whether any of the
/// given paths was found.
pub struct RmPlan {
    pub bytes: Vec<u8>,
    pub any_removed: bool,
}

/// Every pair is an ordered range within `bound`.
pub open spec fn pairs_within(v: Seq<(nat, nat)>, bound: nat) -> bool {
    forall|i: int| 0 <= i < v.len() ==> (#[trigger] v[i]).0 <= v[i].1 <= bound
}

/// Inserts `x` into `sorted` after every entry whose start is not greater.
fn insert_sorted(sorted: &mut Vec<(u64, u64)>, x: (u64, u64), Ghost(bound): Ghost<nat>)
    requires
        pairs_within(pairs_nat(old(sorted)@), bound),
        x.0 <= x.1 <= bound,
    ensures
        pairs_nat(final(sorted)@) == insert_by_start(pairs_nat(old(sorted)@), (x.0 as nat, x.1 as nat)),
        pairs_within(pairs_nat(final(sorted)@), bound),
{
    let ghost s = pairs_nat(sorted@);
    let ghost xn = (x.0 as nat, x.1 as nat);
    let mut j = sorted.len();
    assert(s.take(j as int) =~= s);
    assert(s.skip(j as int) =~= Seq::<(nat, nat)>::empty());
    assert(insert_by_start(s, xn) =~= insert_by_start(s, xn) + Seq::<(nat, nat)>::empty());
    while j > 0 && sorted[j - 1].0 > x.0
        invariant
            s == pairs_nat(sorted@),
            xn == (x.0 as nat, x.1 as nat),
            0 <= j <= sorted@.len(),
            insert_by_start(s, xn) == insert_by_start(s.take(j as int), xn) + s.skip(j as int),
        decreases j,
    {
        assert(s.take(j as int).drop_last() =~= s.take(j - 1));
        assert(s.take(j as int).last() == s[j - 1]);
        assert(s[j - 1].0 > xn.0);
        assert(s.skip(j - 1) =~= seq![s[j - 1]] + s.skip(j as int));
        assert(insert_by_start(s.take(j as int), xn) == insert_by_start(s.take(j - 1), xn).push(
            s[j - 1],
        ));
        assert(insert_by_start(s.take(j - 1), xn).push(s[j - 1]) + s.skip(j as int) =~= insert_by_start(
            s.take(j - 1),
            xn,
        ) + s.skip(j - 1));
        j = j - 1;
    }
    proof {
        if j > 0 {
            assert(s.take(j as int).last() == s[j - 1]);
            assert(insert_by_start(s.take(j as int), xn) == s.take(j as int).push(xn));
        } else {
            assert(s.take(0) =~= Seq::<(nat, nat)>::empty());
        }
    }
    sorted.insert(j, x);
    assert(pairs_nat(sorted@) =~= s.take(j as int).push(xn) + s.skip(j as int));
    assert forall|i: int| 0 <= i < pairs_nat(sorted@).len() implies (#[trigger] pairs_nat(
        sorted@,
    )[i]).0 <= pairs_nat(sorted@)[i].1 <= bound by {
        if i < j {
            assert(pairs_nat(sorted@)[i] == s[i]);
        } else if i > j {
            assert(pairs_nat(sorted@)[i] == s[i - 1]);
        }
    }
}

/// Appends `raw[start..end]` without the ranges of `inner` (see
/// [`spliced`]).
fn append_spliced(
    out: &mut Vec<u8>,
    raw: &[u8],
    start: u64,
    end: u64,
    inner: &Vec<(u64, u64)>,
)
    requires
        start <= end <= raw@.len(),
        pairs_within(pairs_nat(inner@), raw@.len()),
    ensures
        final(out)@ == old(out)@ + spliced(raw@, start as nat, end as nat, pairs_nat(inner@)),
{
    let ghost iv = pairs_nat(inner@);
    let ghost begin = out@;
    let n = raw.len();
    let mut cursor = start;
    let mut k: usize = 0;
    while k < inner.len()
        invariant
            iv == pairs_nat(inner@),
            pairs_within(iv, raw@.len()),
            n == raw@.len(),
            start <= end <= n,
            0 <= k <= inner@.len(),
            cursor == cursor_after(start as nat, iv, k as int),
            cursor <= n,
            out@ == begin + kept_prefix(raw@, start as nat, iv, k as int),
        decreases inner@.len() - k,
    {
        assert(iv[k as int] == (inner@[k as int].0 as nat, inner@[k as int].1 as nat));
        let (s, e) = inner[k];
        let ghost before = out@;
        if cursor < s {
            append_range(out, raw, cursor as usize, s as usize);
        }
        assert(out@ =~= begin + kept_prefix(raw@, start as nat, iv, k + 1));
        if e > cursor {
            cursor = e;
        }
        k = k + 1;
    }
    if cursor < end {
        append_range(out, raw, cursor as usize, end as usize);
    }
    assert(out@ =~= begin + spliced(raw@, start as nat, end as nat, iv));
}

/// The `(start, end)` pairs as naturals.
pub open spec fn pairs_nat(v: Seq<(u64, u64)>) -> Seq<(nat, nat)> {
    v.map_values(|p: (u64, u64)| (p.0 as nat, p.1 as nat))
}

/// Remove the given AR-PACKAGE or ELEMENT blocks from the document
/// `input`: the new bytes of the file (header with the root attributes,
/// every remaining top-level package, footer), or `None` when the input
/// cannot be read as XML.
///
/// Paths that match a top-level AR-PACKAGE remove it entirely. Other paths
/// that match a nested AR-PACKAGE (e.g. `Root/Components`) or an element
/// directly inside a package (e.g. `Root/Components/MyComponent`) remove
/// only that block's bytes; the rest of its top-level package is kept byte
/// for byte. Where one removed block lies inside another, the outer one is
/// removed once.
pub fn cmd_rm(input: &[u8], packages: &[String]) -> (r: Option<RmPlan>)
    ensures
        match r {
            None => spec_tree(input@) is None,
            Some(plan) => spec_tree(input@) matches Some(nodes) && {
                let to_remove = strings_of(packages@);
                let toplevel = toplevel_ranges(nodes);
                let elements = ranges_of(
                    nodes,
                    nodes.len(),
                    RangeKind::Child,
                    false,
                    element_targets(to_remove, toplevel),
                );
                let body = rm_body(input@, to_remove, toplevel, elements, toplevel.len() as int);
                &&& plan.bytes@ == header_bytes(root_attrs_from(input_tokens(input@), 0)) + body.0
                    + footer_bytes()
                &&& plan.any_removed == body.1
            },
        },
{
    let root_attrs = collect_root_attrs(input);
    let tree = match build_tree(input) {
        Some(t) => t,
        None => {
            return None;
        },
    };
    let ghost nodes = tree@;
    let ghost len = input@.len();
    let none: Vec<String> = Vec::new();
    proof {
        assert(strings_of(none@) =~= Seq::<Seq<char>>::empty());
    }
    let all_toplevel = collect_ranges(&tree, RangeKind::TopLevel, true, none.as_slice());
    let ghost tv = ranges_view(all_toplevel@);
    let to_remove = chars_of_all(packages);
    let ghost rem = strings_of(packages@);
    let toplevel_paths: Vec<Vec<char>> = {
        let mut v: Vec<Vec<char>> = Vec::new();
        let mut k: usize = 0;
        while k < all_toplevel.len()
            invariant
                tv == ranges_view(all_toplevel@),
                0 <= k <= all_toplevel@.len(),
                v@.len() == k,
                forall|x: int| 0 <= x < k ==> (#[trigger] v@[x])@ == tv[x].path,
            decreases all_toplevel@.len() - k,
        {
            assert(tv[k as int] == all_toplevel@[k as int]@);
            v.push(chars_of(all_toplevel[k].path.as_str()));
            k = k + 1;
        }
        v
    };
    let mut element_targets_v: Vec<String> = Vec::new();
    let mut i: usize = 0;
    assert(rem.take(0) =~= Seq::<Seq<char>>::empty());
    while i < packages.len()
        invariant
            tv == ranges_view(all_toplevel@),
            rem == strings_of(packages@),
            seqs_of(to_remove@) == rem,
            toplevel_paths@.len() == tv.len(),
            forall|x: int| 0 <= x < tv.len() ==> (#[trigger] toplevel_paths@[x])@ == tv[x].path,
            0 <= i <= packages@.len(),
            strings_of(element_targets_v@) == element_targets(rem.take(i as int), tv),
        decreases packages@.len() - i,
    {
        assert(rem.take(i + 1).drop_last() =~= rem.take(i as int));
        assert(rem.take(i + 1).last() == rem[i as int]);
        assert(seqs_of(to_remove@).len() == to_remove@.len());
        assert(seqs_of(to_remove@)[i as int] == to_remove@[i as int]@);
        let mut found = false;
        let mut k: usize = 0;
        while k < toplevel_paths.len()
            invariant
                toplevel_paths@.len() == tv.len(),
                forall|x: int| 0 <= x < tv.len() ==> (#[trigger] toplevel_paths@[x])@ == tv[x].path,
                0 <= k <= toplevel_paths@.len(),
                i < to_remove@.len(),
                found == exists|x: int| 0 <= x < k && #[trigger] tv[x].path == to_remove@[i as int]@,
            decreases toplevel_paths@.len() - k,
        {
            if chars_eq(&toplevel_paths[k], &to_remove[i]) {
                assert(tv[k as int].path == to_remove@[i as int]@);
                found = true;
            }
            k = k + 1;
        }
        if !found {
            let ghost prev = strings_of(element_targets_v@);
            element_targets_v.push(packages[i].clone());
            assert(strings_of(element_targets_v@) =~= prev.push(rem[i as int]));
        }
        i = i + 1;
    }
    assert(rem.take(packages@.len() as int) =~= rem);
    let element_ranges = collect_ranges(
        &tree,
        RangeKind::Child,
        false,
        element_targets_v.as_slice());
    let ghost ev = ranges_view(element_ranges@);
    proof {
        lemma_ranges_within(nodes, nodes.len(), RangeKind::TopLevel, true, Seq::empty(), len);
        lemma_ranges_within(
            nodes,
            nodes.len(),
            RangeKind::Child,
            false,
            strings_of(element_targets_v@),
            len,
        );
    }

    let mut out: Vec<u8> = Vec::new();
    write_arxml_header(&mut out, root_attrs.as_slice());
    let ghost head = out@;
    let mut any_removed = false;
    let mut t: usize = 0;
    assert(head =~= head + rm_body(input@, rem, tv, ev, 0).0);
    while t < all_toplevel.len()
        invariant
            tv == ranges_view(all_toplevel@),
            ev == ranges_view(element_ranges@),
            rem == strings_of(packages@),
            seqs_of(to_remove@) == rem,
            forall|x: int| 0 <= x < tv.len() ==> (#[trigger] tv[x]).start <= tv[x].end <= input@.len(),
            forall|x: int| 0 <= x < ev.len() ==> (#[trigger] ev[x]).start <= ev[x].end <= input@.len(),
            0 <= t <= all_toplevel@.len(),
            out@ == head + rm_body(input@, rem, tv, ev, t as int).0,
            any_removed == rm_body(input@, rem, tv, ev, t as int).1,
        decreases all_toplevel@.len() - t,
    {
        assert(tv[t as int] == all_toplevel@[t as int]@);
        let rs = all_toplevel[t].start;
        let re = all_toplevel[t].end;
        let norm = normalise_path(all_toplevel[t].path.as_str());
        let norm_chars = chars_of(norm.as_str());
        let mut listed = false;
        let mut k: usize = 0;
        while k < to_remove.len()
            invariant
                seqs_of(to_remove@) == rem,
                0 <= k <= to_remove@.len(),
                listed == exists|x: int| 0 <= x < k && #[trigger] rem[x] == norm_chars@,
            decreases to_remove@.len() - k,
        {
            assert(rem[k as int] == to_remove@[k as int]@);
            if chars_eq(&to_remove[k], &norm_chars) {
                listed = true;
            }
            k = k + 1;
        }
        assert(listed == rem.contains(normalise(tv[t as int].path)));
        if listed {
            any_removed = true;
        } else {
            let mut inner: Vec<(u64, u64)> = Vec::new();
            let mut e: usize = 0;
            assert(ev.take(0) =~= Seq::<RangeV>::empty());
            assert(pairs_nat(inner@) =~= sort_by_start(ranges_within(ev.take(0), rs as nat, re as nat)));
            while e < element_ranges.len()
                invariant
                    ev == ranges_view(element_ranges@),
                    0 <= e <= element_ranges@.len(),
                    pairs_nat(inner@) == sort_by_start(ranges_within(ev.take(e as int), rs as nat, re as nat)),
                    pairs_within(pairs_nat(inner@), input@.len()),
                    forall|x: int| 0 <= x < ev.len() ==> (#[trigger] ev[x]).start <= ev[x].end <= input@.len(),
                decreases element_ranges@.len() - e,
            {
                assert(ev.take(e + 1).drop_last() =~= ev.take(e as int));
                assert(ev[e as int] == element_ranges@[e as int]@);
                let es = element_ranges[e].start;
                let ee = element_ranges[e].end;
                let ghost prev_within = ranges_within(ev.take(e as int), rs as nat, re as nat);
                if es >= rs && ee <= re {
                    insert_sorted(&mut inner, (es, ee), Ghost(input@.len()));
                    assert(prev_within.push((es as nat, ee as nat)).drop_last() =~= prev_within);
                } else {
                }
                e = e + 1;
            }
            assert(ev.take(element_ranges@.len() as int) =~= ev);
            let ghost iv = pairs_nat(inner@);
            let n = input.len();
            let ghost before = out@;
            if inner.len() == 0 {
                append_range(&mut out, input, rs as usize, re as usize);
                append_str(&mut out, "\n");
                assert(out@ =~= before + input@.subrange(rs as int, re as int) + utf8("\n"@));
            } else {
                append_spliced(&mut out, input, rs, re, &inner);
                append_str(&mut out, "\n");
                any_removed = true;
                assert(out@ =~= before + spliced(input@, rs as nat, re as nat, iv) + utf8("\n"@));
            }
        }
        t = t + 1;
    }
    write_arxml_footer(&mut out);
    Some(RmPlan { bytes: out, any_removed })
}

/// Every one of the first `k` top-level packages, each followed by a
/// newline.
pub open spec fn all_blocks(raw: Seq<u8>, toplevel: Seq<RangeV>, k: int) -> Seq<u8>
    decreases k,
{
    if k <= 0 {
        Seq::empty()
    } else {
        all_blocks(raw, toplevel, k - 1) + raw.subrange(
            toplevel[k - 1].start as int,
            toplevel[k - 1].end as int,
        ) + utf8("\n"@)
    }
}

/// When `rm` finds nothing to remove, it keeps every top-level package byte
/// for byte.
pub proof fn lemma_rm_nothing_found_keeps_all(
    raw: Seq<u8>,
    to_remove: Seq<Seq<char>>,
    toplevel: Seq<RangeV>,
    elements: Seq<RangeV>,
    k: int,
)
    requires
        !rm_body(raw, to_remove, toplevel, elements, k).1,
    ensures
        rm_body(raw, to_remove, toplevel, elements, k).0 == all_blocks(raw, toplevel, k),
    decreases k,
{
    if k > 0 {
        lemma_rm_nothing_found_keeps_all(raw, to_remove, toplevel, elements, k - 1);
    }
}

/// Whether one of the `[start, end)` pairs holds position `p`.
pub open spec fn covered_by_pairs(p: nat, inner: Seq<(nat, nat)>) -> bool {
    exists|i: int| 0 <= i < inner.len() && #[trigger] inner[i].0 <= p && p < inner[i].1
}

/// The bytes of `raw` at the positions from `s` up to `j` that none of the
/// pairs holds, in order.
pub open spec fn uncovered_bytes(raw: Seq<u8>, s: nat, j: nat, inner: Seq<(nat, nat)>) -> Seq<u8>
    decreases j,
{
    if j <= s {
        Seq::empty()
    } else {
        uncovered_bytes(raw, s, (j - 1) as nat, inner) + if covered_by_pairs((j - 1) as nat, inner) {
            Seq::empty()
        } else {
            seq![raw[j - 1]]
        }
    }
}

/// Positions all held by some pair add nothing.
proof fn lemma_uncovered_skip(raw: Seq<u8>, s: nat, j1: nat, j2: nat, inner: Seq<(nat, nat)>)
    requires
        s <= j1 <= j2,
        forall|p: nat| j1 <= p < j2 ==> covered_by_pairs(p, inner),
    ensures
        uncovered_bytes(raw, s, j2, inner) == uncovered_bytes(raw, s, j1, inner),
    decreases j2,
{
    if j2 > j1 {
        lemma_uncovered_skip(raw, s, j1, (j2 - 1) as nat, inner);
        assert(covered_by_pairs((j2 - 1) as nat, inner));
    }
}

/// Positions held by no pair are copied.
proof fn lemma_uncovered_copy(raw: Seq<u8>, s: nat, j1: nat, j2: nat, inner: Seq<(nat, nat)>)
    requires
        s <= j1 <= j2 <= raw.len(),
        forall|p: nat| j1 <= p < j2 ==> !covered_by_pairs(p, inner),
    ensures
        uncovered_bytes(raw, s, j2, inner) == uncovered_bytes(raw, s, j1, inner) + raw.subrange(
            j1 as int,
            j2 as int,
        ),
    decreases j2,
{
    if j2 > j1 {
        lemma_uncovered_copy(raw, s, j1, (j2 - 1) as nat, inner);
        assert(!covered_by_pairs((j2 - 1) as nat, inner));
        assert(raw.subrange(j1 as int, j2 as int) =~= raw.subrange(j1 as int, j2 - 1).push(
            raw[j2 - 1],
        ));
    } else {
        assert(raw.subrange(j1 as int, j2 as int) =~= Seq::<u8>::empty());
    }
}

/// Pairs in ascending order of start.
pub open spec fn sorted_by_start(v: Seq<(nat, nat)>) -> bool {
    forall|i: int, j: int| 0 <= i < j < v.len() ==> (#[trigger] v[i]).0 <= (#[trigger] v[j]).0
}

/// Every pair is ordered and lies within `[s, e]`.
pub open spec fn pairs_inside(v: Seq<(nat, nat)>, s: nat, e: nat) -> bool {
    forall|i: int| 0 <= i < v.len() ==> s <= (#[trigger] v[i]).0 <= v[i].1 <= e
}

/// The cursor after `k` pairs lies in `[s, e]` and past every end so far.
proof fn lemma_cursor_bounds(s: nat, e: nat, inner: Seq<(nat, nat)>, k: int)
    requires
        s <= e,
        pairs_inside(inner, s, e),
        0 <= k <= inner.len(),
    ensures
        s <= cursor_after(s, inner, k) <= e,
        forall|j: int| 0 <= j < k ==> (#[trigger] inner[j]).1 <= cursor_after(s, inner, k),
    decreases k,
{
    if k > 0 {
        lemma_cursor_bounds(s, e, inner, k - 1);
        assert(s <= inner[k - 1].0 <= inner[k - 1].1 <= e);
    }
}

/// Splicing a package cuts out exactly the positions that the pairs hold:
/// what is written is the bytes at every other position, in order.
proof fn lemma_spliced_is_uncovered(raw: Seq<u8>, s: nat, e: nat, inner: Seq<(nat, nat)>)
    requires
        s <= e <= raw.len(),
        pairs_inside(inner, s, e),
        sorted_by_start(inner),
    ensures
        spliced(raw, s, e, inner) == uncovered_bytes(raw, s, e, inner),
{
    lemma_kept_prefix_uncovered(raw, s, e, inner, inner.len() as int);
    let c = cursor_after(s, inner, inner.len() as int);
    lemma_cursor_bounds(s, e, inner, inner.len() as int);
    assert forall|p: nat| c <= p < e implies !covered_by_pairs(p, inner) by {
        if covered_by_pairs(p, inner) {
            let i = choose|i: int| 0 <= i < inner.len() && #[trigger] inner[i].0 <= p && p < inner[i].1;
            assert(inner[i].1 <= c);
        }
    }
    lemma_uncovered_copy(raw, s, c, e, inner);
    if c >= e {
        assert(raw.subrange(c as int, e as int) =~= Seq::<u8>::empty());
    }
}

/// The bytes kept before the first `k` pairs are the uncovered bytes up to
/// the cursor.
proof fn lemma_kept_prefix_uncovered(raw: Seq<u8>, s: nat, e: nat, inner: Seq<(nat, nat)>, k: int)
    requires
        s <= e <= raw.len(),
        pairs_inside(inner, s, e),
        sorted_by_start(inner),
        0 <= k <= inner.len(),
    ensures
        kept_prefix(raw, s, inner, k) == uncovered_bytes(raw, s, cursor_after(s, inner, k), inner),
    decreases k,
{
    if k > 0 {
        lemma_kept_prefix_uncovered(raw, s, e, inner, k - 1);
        lemma_cursor_bounds(s, e, inner, k - 1);
        let c = cursor_after(s, inner, k - 1);
        let (a, b) = inner[k - 1];
        assert(s <= a <= b <= e);
        if c < a {
            assert forall|p: nat| c <= p < a implies !covered_by_pairs(p, inner) by {
                if covered_by_pairs(p, inner) {
                    let i = choose|i: int| 0 <= i < inner.len() && #[trigger] inner[i].0 <= p && p < inner[i].1;
                    if i < k - 1 {
                        assert(inner[i].1 <= c);
                    } else {
                        assert(inner[k - 1].0 <= inner[i].0);
                    }
                }
            }
            lemma_uncovered_copy(raw, s, c, a, inner);
            assert forall|p: nat| a <= p < b implies covered_by_pairs(p, inner) by {
                assert(inner[k - 1].0 <= p && p < inner[k - 1].1);
            }
            lemma_uncovered_skip(raw, s, a, b, inner);
        } else {
            let c2 = cursor_after(s, inner, k);
            assert forall|p: nat| c <= p < c2 implies covered_by_pairs(p, inner) by {
                assert(inner[k - 1].0 <= p && p < inner[k - 1].1);
            }
            lemma_uncovered_skip(raw, s, c, c2, inner);
        }
    }
}

/// Inserting by start keeps the order and adds exactly the new pair.
proof fn lemma_insert_by_start(sorted: Seq<(nat, nat)>, x: (nat, nat))
    requires
        sorted_by_start(sorted),
    ensures
        sorted_by_start(insert_by_start(sorted, x)),
        forall|y: (nat, nat)| #[trigger] insert_by_start(sorted, x).contains(y) <==> (sorted.contains(y) || y == x),
    decreases sorted.len(),
{
    let r = insert_by_start(sorted, x);
    if sorted.len() == 0 {
        assert(r =~= seq![x]);
        assert forall|y: (nat, nat)| r.contains(y) <==> (sorted.contains(y) || y == x) by {
            if r.contains(y) {
                assert(r[0] == x);
            } else {
                assert(r[0] == x);
            }
        }
    } else if sorted.last().0 <= x.0 {
        assert forall|i: int, j: int| 0 <= i < j < r.len() implies (#[trigger] r[i]).0 <= (#[trigger] r[j]).0 by {
            if j == sorted.len() {
                assert(r[i] == sorted[i]);
                if i < sorted.len() - 1 {
                    assert(sorted[i].0 <= sorted[sorted.len() - 1].0);
                }
            } else {
                assert(r[i] == sorted[i] && r[j] == sorted[j]);
            }
        }
        assert forall|y: (nat, nat)| r.contains(y) <==> (sorted.contains(y) || y == x) by {
            if r.contains(y) {
                let k = choose|k: int| 0 <= k < r.len() && r[k] == y;
                if k < sorted.len() {
                    assert(sorted[k] == y);
                }
            }
            if sorted.contains(y) {
                let k = choose|k: int| 0 <= k < sorted.len() && sorted[k] == y;
                assert(r[k] == y);
            }
            if y == x {
                assert(r[r.len() - 1] == x);
            }
        }
    } else {
        let p = sorted.drop_last();
        let l = sorted.last();
        assert(sorted_by_start(p)) by {
            assert forall|i: int, j: int| 0 <= i < j < p.len() implies (#[trigger] p[i]).0 <= (#[trigger] p[j]).0 by {
                assert(p[i] == sorted[i] && p[j] == sorted[j]);
            }
        }
        lemma_insert_by_start(p, x);
        let m = insert_by_start(p, x);
        assert(m.contains(x));
        assert(r == m.push(l));
        assert forall|y: (nat, nat)| m.contains(y) implies y.0 <= l.0 by {
            if y != x {
                assert(p.contains(y));
                let k = choose|k: int| 0 <= k < p.len() && p[k] == y;
                assert(sorted[k] == y);
                assert(sorted[k].0 <= sorted[sorted.len() - 1].0);
            }
        }
        assert forall|i: int, j: int| 0 <= i < j < r.len() implies (#[trigger] r[i]).0 <= (#[trigger] r[j]).0 by {
            if j == m.len() {
                assert(r[i] == m[i]);
                assert(m.contains(m[i]));
            } else {
                assert(r[i] == m[i] && r[j] == m[j]);
            }
        }
        assert forall|y: (nat, nat)| r.contains(y) <==> (sorted.contains(y) || y == x) by {
            if r.contains(y) {
                let k = choose|k: int| 0 <= k < r.len() && r[k] == y;
                if k < m.len() {
                    assert(m[k] == y);
                    assert(m.contains(y));
                    if y != x {
                        assert(p.contains(y));
                        let q = choose|q: int| 0 <= q < p.len() && p[q] == y;
                        assert(sorted[q] == y);
                    }
                } else {
                    assert(sorted[sorted.len() - 1] == y);
                }
            }
            if sorted.contains(y) {
                let k = choose|k: int| 0 <= k < sorted.len() && sorted[k] == y;
                if k < sorted.len() - 1 {
                    assert(p[k] == y);
                    assert(p.contains(y));
                    assert(insert_by_start(p, x).contains(y));
                    let q = choose|q: int| 0 <= q < m.len() && m[q] == y;
                    assert(r[q] == y);
                } else {
                    assert(r[r.len() - 1] == y);
                }
            }
            if y == x {
                assert(m.contains(x));
                let q = choose|q: int| 0 <= q < m.len() && m[q] == x;
                assert(r[q] == x);
            }
        }
    }
}

/// Sorting by start orders the pairs and keeps exactly the same pairs.
proof fn lemma_sort_by_start(v: Seq<(nat, nat)>)
    ensures
        sorted_by_start(sort_by_start(v)),
        forall|y: (nat, nat)| #[trigger] sort_by_start(v).contains(y) <==> v.contains(y),
    decreases v.len(),
{
    if v.len() > 0 {
        lemma_sort_by_start(v.drop_last());
        lemma_insert_by_start(sort_by_start(v.drop_last()), v.last());
        assert forall|y: (nat, nat)| sort_by_start(v).contains(y) <==> v.contains(y) by {
            if v.drop_last().contains(y) {
                let k = choose|k: int| 0 <= k < v.drop_last().len() && v.drop_last()[k] == y;
                assert(v[k] == y);
            }
            if v.contains(y) && y != v.last() {
                let k = choose|k: int| 0 <= k < v.len() && v[k] == y;
                assert(k < v.len() - 1);
                assert(v.drop_last()[k] == y);
            }
            if y == v.last() {
                assert(v[v.len() - 1] == y);
            }
        }
    } else {
        assert(sort_by_start(v) =~= Seq::<(nat, nat)>::empty());
    }
}

/// The ranges found within `[s, e]` are exactly those of `ers` that lie
/// there.
proof fn lemma_ranges_within_contains(ers: Seq<RangeV>, s: nat, e: nat)
    ensures
        forall|y: (nat, nat)| #[trigger] ranges_within(ers, s, e).contains(y) <==> exists|i: int|
            0 <= i < ers.len() && s <= ers[i].start && ers[i].end <= e && y == (
            #[trigger] ers[i].start, ers[i].end),
    decreases ers.len(),
{
    if ers.len() > 0 {
        let p = ers.drop_last();
        lemma_ranges_within_contains(p, s, e);
        let prev = ranges_within(p, s, e);
        let cur = ranges_within(ers, s, e);
        assert forall|y: (nat, nat)| cur.contains(y) <==> exists|i: int|
            0 <= i < ers.len() && s <= ers[i].start && ers[i].end <= e && y == (
            #[trigger] ers[i].start, ers[i].end) by {
            if cur.contains(y) {
                let k = choose|k: int| 0 <= k < cur.len() && cur[k] == y;
                if k < prev.len() {
                    assert(prev[k] == y);
                    assert(prev.contains(y));
                    let i = choose|i: int|
                        0 <= i < p.len() && s <= p[i].start && p[i].end <= e && y == (
                        #[trigger] p[i].start, p[i].end);
                    assert(ers[i] == p[i]);
                } else {
                    assert(ers[ers.len() - 1] == ers.last());
                }
            }
            if exists|i: int|
                0 <= i < ers.len() && s <= ers[i].start && ers[i].end <= e && y == (
                #[trigger] ers[i].start, ers[i].end) {
                let i = choose|i: int|
                    0 <= i < ers.len() && s <= ers[i].start && ers[i].end <= e && y == (
                    #[trigger] ers[i].start, ers[i].end);
                if i < ers.len() - 1 {
                    assert(p[i] == ers[i]);
                    assert(prev.contains(y));
                    let k = choose|k: int| 0 <= k < prev.len() && prev[k] == y;
                    assert(cur[k] == y);
                } else {
                    assert(cur[cur.len() - 1] == y);
                }
            }
        }
    }
}

/// Whether position `p` lies in one of the ranges of `ers` that are inside
/// `[s, e]`.
pub open spec fn covered_by_ranges(p: nat, ers: Seq<RangeV>, s: nat, e: nat) -> bool {
    exists|i: int|
        0 <= i < ers.len() && s <= ers[i].start && ers[i].end <= e && #[trigger] ers[i].start <= p
            && p < ers[i].end
}

/// The bytes of the package `t` that no range of `ers` inside it covers, up
/// to position `j`.
pub open spec fn package_kept(raw: Seq<u8>, t: RangeV, ers: Seq<RangeV>, j: nat) -> Seq<u8>
    decreases j,
{
    if j <= t.start {
        Seq::empty()
    } else {
        package_kept(raw, t, ers, (j - 1) as nat) + if covered_by_ranges(
            (j - 1) as nat,
            ers,
            t.start,
            t.end,
        ) {
            Seq::empty()
        } else {
            seq![raw[j - 1]]
        }
    }
}

/// What `rm` writes for the first `k` top-level packages, stated directly:
/// nothing for a listed package; for every other package, its bytes at the
/// positions that no removed range inside it covers, then a newline.
pub open spec fn rm_kept(
    raw: Seq<u8>,
    to_remove: Seq<Seq<char>>,
    toplevel: Seq<RangeV>,
    ers: Seq<RangeV>,
    k: int,
) -> Seq<u8>
    decreases k,
{
    if k <= 0 {
        Seq::empty()
    } else {
        let t = toplevel[k - 1];
        rm_kept(raw, to_remove, toplevel, ers, k - 1) + if to_remove.contains(normalise(t.path)) {
            Seq::empty()
        } else {
            package_kept(raw, t, ers, t.end) + utf8("\n"@)
        }
    }
}

proof fn lemma_package_kept_is_uncovered(raw: Seq<u8>, t: RangeV, ers: Seq<RangeV>, j: nat, inner: Seq<(nat, nat)>)
    requires
        forall|p: nat| covered_by_pairs(p, inner) <==> covered_by_ranges(p, ers, t.start, t.end),
    ensures
        package_kept(raw, t, ers, j) == uncovered_bytes(raw, t.start, j, inner),
    decreases j,
{
    if j > t.start {
        lemma_package_kept_is_uncovered(raw, t, ers, (j - 1) as nat, inner);
        assert(covered_by_pairs((j - 1) as nat, inner) == covered_by_ranges((j - 1) as nat, ers, t.start, t.end));
    }
}

/// `rm` cuts out of each kept top-level package exactly the bytes of the
/// removed packages and elements inside it, every one of them, and keeps
/// every other byte in order.
pub proof fn lemma_rm_cuts_every_target(
    raw: Seq<u8>,
    to_remove: Seq<Seq<char>>,
    toplevel: Seq<RangeV>,
    ers: Seq<RangeV>,
    k: int,
)
    requires
        0 <= k <= toplevel.len(),
        forall|i: int| 0 <= i < toplevel.len() ==> (#[trigger] toplevel[i]).start <= toplevel[i].end
            <= raw.len(),
        forall|i: int| 0 <= i < ers.len() ==> (#[trigger] ers[i]).start <= ers[i].end,
    ensures
        rm_body(raw, to_remove, toplevel, ers, k).0 == rm_kept(raw, to_remove, toplevel, ers, k),
    decreases k,
{
    if k > 0 {
        lemma_rm_cuts_every_target(raw, to_remove, toplevel, ers, k - 1);
        let t = toplevel[k - 1];
        assert(t.start <= t.end <= raw.len());
        let w = ranges_within(ers, t.start, t.end);
        let inner = sort_by_start(w);
        lemma_ranges_within_contains(ers, t.start, t.end);
        lemma_sort_by_start(w);
        assert forall|p: nat| covered_by_pairs(p, inner) <==> covered_by_ranges(p, ers, t.start, t.end) by {
            if covered_by_pairs(p, inner) {
                let i = choose|i: int| 0 <= i < inner.len() && #[trigger] inner[i].0 <= p && p < inner[i].1;
                assert(inner.contains(inner[i]));
                assert(w.contains(inner[i]));
                let j = choose|j: int|
                    0 <= j < ers.len() && t.start <= ers[j].start && ers[j].end <= t.end && inner[i] == (
                    #[trigger] ers[j].start, ers[j].end);
                assert(ers[j].start <= p && p < ers[j].end);
            }
            if covered_by_ranges(p, ers, t.start, t.end) {
                let j = choose|j: int|
                    0 <= j < ers.len() && t.start <= ers[j].start && ers[j].end <= t.end
                        && #[trigger] ers[j].start <= p && p < ers[j].end;
                let y = (ers[j].start, ers[j].end);
                assert(w.contains(y));
                assert(inner.contains(y));
                let i = choose|i: int| 0 <= i < inner.len() && inner[i] == y;
                assert(inner[i].0 <= p && p < inner[i].1);
            }
        }
        assert(pairs_inside(inner, t.start, t.end)) by {
            assert forall|i: int| 0 <= i < inner.len() implies t.start <= (#[trigger] inner[i]).0 <= inner[i].1 <= t.end by {
                assert(inner.contains(inner[i]));
                assert(w.contains(inner[i]));
                let j = choose|j: int|
                    0 <= j < ers.len() && t.start <= ers[j].start && ers[j].end <= t.end && inner[i] == (
                    #[trigger] ers[j].start, ers[j].end);
                assert(ers[j].start <= ers[j].end);
            }
        }
        lemma_package_kept_is_uncovered(raw, t, ers, t.end, inner);
        if inner.len() == 0 {
            assert forall|p: nat| t.start <= p < t.end implies !covered_by_pairs(p, inner) by {}
            lemma_uncovered_copy(raw, t.start, t.start, t.end, inner);
            assert(raw.subrange(t.start as int, t.end as int) =~= Seq::<u8>::empty() + raw.subrange(
                t.start as int,
                t.end as int,
            ));
        } else {
            lemma_spliced_is_uncovered(raw, t.start, t.end, inner);
        }
    }
}

} // verus!
