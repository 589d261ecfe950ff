//! `arx ls`: list `AR-PACKAGE`s and elements in an ARXML file, with optional
//! path filter, max-depth, exclude patterns, and type filter.
use vstd::prelude::*;

use crate::path_match::{
    lemma_literal_pattern, path_under_pattern, under_pattern, wildcard, wildcard_match,
};
use crate::text::{
    chars_eq, chars_of, join_chars, join_path, normalise, normalise_path, push_str, seqs_of,
    split_chars,
    split_path, string_of, strings_of, strip_leading_slashes, strip_slashes, lemma_join_split,
    lemma_segment_chars, lemma_split_append, lemma_strip_append,
};
use crate::order::{is_subsequence, lemma_picks_push, picks};
use crate::tree::{build_tree, full_path_of, nodes_wf, parents_before, spec_tree, NodeV, Tree};

verus! {

/// Whether `full` passes the filter pattern (if any) and lies within
/// `max_depth` levels below it (or below the implicit root): the number of
/// its segments, less `filter_depth`, at most `max_depth`.
pub open spec fn within_depth(
    full: Seq<char>,
    filter: Option<Seq<char>>,
    filter_depth: nat,
    max_depth: Option<usize>,
) -> bool {
    &&& (filter matches Some(f) ==> under_pattern(full, f))
    &&& match max_depth {
        None => true,
        Some(max) => {
            let path_depth = split_path(strip_slashes(full)).len();
            let rel = if path_depth >= filter_depth {
                path_depth - filter_depth
            } else {
                0
            };
            rel <= max
        },
    }
}

/// Whether some exclude pattern matches `full` or one of its ancestor paths
/// (the first `i` of its segments joined with `/`, for `i >= 1`).
pub open spec fn excluded(full: Seq<char>, excludes: Seq<Seq<char>>) -> bool {
    let segs = split_path(strip_slashes(full));
    exists|j: int, i: int|
        0 <= j < excludes.len() && 1 <= i <= segs.len() && #[trigger] wildcard(
            excludes[j],
            join_path(segs.take(i)),
        )
}

/// The number of `/`-separated segments of the (normalised) filter, or 0.
pub open spec fn filter_depth_of(filter: Option<Seq<char>>) -> nat {
    match filter {
        Some(f) => split_path(f).len(),
        None => 0,
    }
}

/// Whether node `i` is listed: its tag is one of `types` (when any are
/// given), its path is within depth of the filter, and it is not excluded.
pub open spec fn ls_selects(
    nodes: Seq<NodeV>,
    i: int,
    filter: Option<Seq<char>>,
    max_depth: Option<usize>,
    excludes: Seq<Seq<char>>,
    types: Seq<Seq<char>>,
) -> bool {
    let full = full_path_of(nodes, i);
    &&& (types.len() == 0 || types.contains(nodes[i].tag))
    &&& within_depth(full, filter, filter_depth_of(filter), max_depth)
    &&& !excluded(full, excludes)
}

/// The full paths of the listed nodes among the first `k`, in order.
pub open spec fn ls_paths(
    nodes: Seq<NodeV>,
    k: nat,
    filter: Option<Seq<char>>,
    max_depth: Option<usize>,
    excludes: Seq<Seq<char>>,
    types: Seq<Seq<char>>,
) -> Seq<Seq<char>>
    decreases k,
{
    if k == 0 {
        Seq::empty()
    } else {
        let prev = ls_paths(nodes, (k - 1) as nat, filter, max_depth, excludes, types);
        if ls_selects(nodes, k - 1, filter, max_depth, excludes, types) {
            prev.push(full_path_of(nodes, k - 1))
        } else {
            prev
        }
    }
}

/// The normalised filter, if any.
pub open spec fn normalised_filter(filter: Option<&str>) -> Option<Seq<char>> {
    match filter {
        Some(f) => Some(normalise(f@)),
        None => None,
    }
}

/// Every string normalised.
pub open spec fn normalised_all(v: Seq<String>) -> Seq<Seq<char>> {
    v.map_values(|s: String| normalise(s@))
}

/// Returns true if `full_path` should be printed, given an optional `filter`
/// pattern (see [`path_under_pattern`]) and an optional `max_depth` relative
/// to that filter (or to the implicit root, if there's no filter):
/// - `None`: unlimited depth.
/// - `Some(0)`: only the filter match itself.
/// - `Some(n)`: the filter match plus up to `n` levels of descendants.
///
/// Mirrors `find`'s `-maxdepth`: the starting point counts as depth 0.
fn is_within_depth(
    full_path: &Vec<char>,
    filter: &Option<Vec<char>>,
    filter_depth: usize,
    max_depth: Option<usize>,
) -> (r: bool)
    ensures
        r == within_depth(
            full_path@,
            match filter {
                Some(f) => Some(f@),
                None => None,
            },
            filter_depth as nat,
            max_depth,
        ),
{
    if let Some(f) = filter {
        if !path_under_pattern(full_path, f) {
            return false;
        }
    }
    match max_depth {
        None => true,
        Some(max) => {
            let path_depth = split_chars(&strip_leading_slashes(full_path)).len();
            let rel_depth = if path_depth >= filter_depth {
                path_depth - filter_depth
            } else {
                0
            };
            rel_depth <= max
        },
    }
}

/// Returns true if `full_path` is excluded by one of the (normalised)
/// `excludes` patterns. A pattern excludes a path if it matches the path
/// itself, or any of its ancestor package paths (so excluding a package
/// also excludes everything nested underneath it). Patterns may contain
/// `*` as a wildcard matching any sequence of characters (including `/`).
fn is_excluded(full_path: &Vec<char>, excludes: &Vec<Vec<char>>) -> (r: bool)
    ensures
        r == excluded(full_path@, seqs_of(excludes@)),
{
    let segments = split_chars(&strip_leading_slashes(full_path));
    let ghost segs = seqs_of(segments@);
    let ghost ex = seqs_of(excludes@);
    let mut j: usize = 0;
    while j < excludes.len()
        invariant
            segs == seqs_of(segments@),
            segs == split_path(strip_slashes(full_path@)),
            ex == seqs_of(excludes@),
            0 <= j <= excludes@.len(),
            forall|jj: int, i: int|
                0 <= jj < j && 1 <= i <= segs.len() ==> !#[trigger] wildcard(
                    ex[jj],
                    join_path(segs.take(i)),
                ),
        decreases excludes@.len() - j,
    {
        let mut i: usize = 0;
        while i < segments.len()
            invariant
                segs == seqs_of(segments@),
                segs == split_path(strip_slashes(full_path@)),
                ex == seqs_of(excludes@),
                0 <= j < excludes@.len(),
                0 <= i <= segments@.len(),
                forall|jj: int, ii: int|
                    0 <= jj < j && 1 <= ii <= segs.len() ==> !#[trigger] wildcard(
                        ex[jj],
                        join_path(segs.take(ii)),
                    ),
                forall|ii: int|
                    1 <= ii <= i ==> !#[trigger] wildcard(ex[j as int], join_path(segs.take(ii))),
            decreases segments@.len() - i,
        {
            let prefix = join_chars(&segments, i + 1);
            if wildcard_match(&excludes[j], &prefix) {
                assert(wildcard(ex[j as int], join_path(segs.take(i + 1))));
                return true;
            }
            i = i + 1;
        }
        j = j + 1;
    }
    false
}

/// Whether some entry of `types` equals `tag`.
fn contains_chars(types: &Vec<Vec<char>>, tag: &Vec<char>) -> (r: bool)
    ensures
        r == seqs_of(types@).contains(tag@),
{
    let mut k: usize = 0;
    while k < types.len()
        invariant
            0 <= k <= types@.len(),
            forall|x: int| 0 <= x < k ==> seqs_of(types@)[x] != tag@,
        decreases types@.len() - k,
    {
        if chars_eq(&types[k], tag) {
            assert(seqs_of(types@)[k as int] == tag@);
            return true;
        }
        k = k + 1;
    }
    false
}

/// The characters of every string in `v`.
pub fn chars_of_all(v: &[String]) -> (r: Vec<Vec<char>>)
    ensures
        seqs_of(r@) == strings_of(v@),
{
    let mut out: Vec<Vec<char>> = Vec::new();
    let mut i: usize = 0;
    while i < v.len()
        invariant
            0 <= i <= v@.len(),
            seqs_of(out@) == strings_of(v@).take(i as int),
        decreases v@.len() - i,
    {
        let c = chars_of(v[i].as_str());
        assert(c@ == v@[i as int]@);
        let ghost prev = seqs_of(out@);
        out.push(c);
        assert(seqs_of(out@) =~= prev.push(c@));
        assert(strings_of(v@).take(i + 1) =~= strings_of(v@).take(i as int).push(v@[i as int]@));
        i = i + 1;
    }
    assert(strings_of(v@).take(v@.len() as int) =~= strings_of(v@));
    out
}

/// Every string in `v`, normalised.
fn normalise_all(v: &[String]) -> (r: Vec<Vec<char>>)
    ensures
        seqs_of(r@) == normalised_all(v@),
{
    let mut out: Vec<Vec<char>> = Vec::new();
    let mut i: usize = 0;
    while i < v.len()
        invariant
            0 <= i <= v@.len(),
            seqs_of(out@) == normalised_all(v@).take(i as int),
        decreases v@.len() - i,
    {
        let n = normalise_path(v[i].as_str());
        let c = chars_of(n.as_str());
        assert(c@ == normalise(v@[i as int]@));
        let ghost prev = seqs_of(out@);
        out.push(c);
        assert(seqs_of(out@) =~= prev.push(c@));
        assert(normalised_all(v@).take(i + 1) =~= normalised_all(v@).take(i as int).push(
            normalise(v@[i as int]@),
        ));
        i = i + 1;
    }
    assert(normalised_all(v@).take(v@.len() as int) =~= normalised_all(v@));
    out
}

/// Applies all `ls` filtering options to a [`Tree`], returning the paths
/// that should be printed, in document order.
///
/// - `max_depth`: `None` means unlimited (the default — every matching node,
///   however deep). `Some(0)` means only the exact `filter` match itself (or
///   nothing, if there's no filter — there's no real node for the implicit
///   root). `Some(n)` means the filter match plus up to `n` levels of
///   descendants. Without a filter, depth is counted from the implicit root,
///   so `Some(1)` yields exactly the top-level AR-PACKAGEs.
/// - `type_filter`: if non-empty, only include nodes whose own XML tag
///   matches one of the given names.
pub fn query_tree(
    tree: &Tree,
    filter: Option<&str>,
    max_depth: Option<usize>,
    excludes: &[String],
    type_filter: &[String],
) -> (r: Vec<String>)
    requires
        parents_before(tree@),
    ensures
        strings_of(r@) == ls_paths(
            tree@,
            tree@.len(),
            normalised_filter(filter),
            max_depth,
            normalised_all(excludes@),
            strings_of(type_filter@),
        ),
{
    let filter_chars: Option<Vec<char>> = match filter {
        Some(f) => {
            let n = normalise_path(f);
            Some(chars_of(n.as_str()))
        },
        None => None,
    };
    let ghost nf = normalised_filter(filter);
    assert(match filter_chars {
        Some(f) => Some(f@),
        None => None::<Seq<char>>,
    } == nf);
    let excludes_chars = normalise_all(excludes);
    let types = chars_of_all(type_filter);
    let filter_depth: usize = match &filter_chars {
        Some(f) => split_chars(f).len(),
        None => 0,
    };
    let ghost ex = normalised_all(excludes@);
    let ghost ty = strings_of(type_filter@);
    let mut results: Vec<String> = Vec::new();
    let mut idx: usize = 0;
    while idx < tree.nodes.len()
        invariant
            parents_before(tree@),
            0 <= idx <= tree@.len(),
            seqs_of(excludes_chars@) == ex,
            seqs_of(types@) == ty,
            filter_depth == filter_depth_of(nf),
            match filter_chars {
                Some(f) => Some(f@),
                None => None::<Seq<char>>,
            } == nf,
            strings_of(results@) == ls_paths(tree@, idx as nat, nf, max_depth, ex, ty),
        decreases tree@.len() - idx,
    {
        let ghost prev = strings_of(results@);
        assert(tree@[idx as int] == tree.nodes@[idx as int]@);
        let tag_ok = types.len() == 0 || contains_chars(&types, &tree.nodes[idx].tag);
        if tag_ok {
            let full = tree.full_path(idx);
            if is_within_depth(&full, &filter_chars, filter_depth, max_depth) && !is_excluded(
                &full,
                &excludes_chars,
            ) {
                results.push(string_of(full.as_slice()));
                assert(strings_of(results@) =~= prev.push(full@));
            }
        }
        idx = idx + 1;
    }
    results
}

/// Core logic of `ls`: the list of paths that would be printed for the
/// document `input`, or `None` when reading it fails. Builds the [`Tree`]
/// of the whole document once, then filters it (see [`query_tree`]).
pub fn ls_collect(
    input: &[u8],
    filter: Option<&str>,
    max_depth: Option<usize>,
    excludes: &[String],
    type_filter: &[String],
) -> (r: Option<Vec<String>>)
    ensures
        match r {
            Some(v) => spec_tree(input@) matches Some(nodes) && strings_of(v@) == ls_paths(
                nodes,
                nodes.len(),
                normalised_filter(filter),
                max_depth,
                normalised_all(excludes@),
                strings_of(type_filter@),
            ),
            None => spec_tree(input@) is None,
        },
{
    match build_tree(input) {
        Some(tree) => Some(
            query_tree(&tree, filter, max_depth, excludes, type_filter),
        ),
        None => None,
    }
}

/// The paths one per line, each followed by a newline.
pub open spec fn lines_of(paths: Seq<Seq<char>>) -> Seq<char>
    decreases paths.len(),
{
    if paths.len() == 0 {
        Seq::empty()
    } else {
        lines_of(paths.drop_last()) + paths.last() + "\n"@
    }
}

/// `arx ls`: the text to print for the document `input`, one path per line
/// (see [`ls_collect`]), or `None` when reading it fails.
pub fn cmd_ls(
    input: &[u8],
    filter: Option<&str>,
    max_depth: Option<usize>,
    excludes: &[String],
    type_filter: &[String],
) -> (r: Option<String>)
    ensures
        match r {
            Some(s) => spec_tree(input@) matches Some(nodes) && s@ == lines_of(
                ls_paths(
                    nodes,
                    nodes.len(),
                    normalised_filter(filter),
                    max_depth,
                    normalised_all(excludes@),
                    strings_of(type_filter@),
                ),
            ),
            None => spec_tree(input@) is None,
        },
{
    let paths = match ls_collect(input, filter, max_depth, excludes, type_filter) {
        Some(v) => v,
        None => {
            return None;
        },
    };
    let ghost ps = strings_of(paths@);
    let mut out = String::new();
    let mut k: usize = 0;
    assert(ps.take(0) =~= Seq::<Seq<char>>::empty());
    assert(out@ =~= lines_of(ps.take(0)));
    while k < paths.len()
        invariant
            ps == strings_of(paths@),
            0 <= k <= paths@.len(),
            out@ == lines_of(ps.take(k as int)),
        decreases paths@.len() - k,
    {
        assert(ps.take(k + 1).drop_last() =~= ps.take(k as int));
        assert(ps.take(k + 1).last() == paths@[k as int]@);
        push_str(&mut out, paths[k].as_str());
        push_str(&mut out, "\n");
        assert(out@ =~= lines_of(ps.take(k + 1)));
        k = k + 1;
    }
    assert(ps.take(paths@.len() as int) =~= ps);
    Some(out)
}

/// Excluding a path also excludes everything nested underneath it: if
/// `full` is excluded, so is `full/name` for any segment `name`.
pub proof fn lemma_exclusion_covers_descendants(
    full: Seq<char>,
    name: Seq<char>,
    excludes: Seq<Seq<char>>,
)
    requires
        strip_slashes(full).len() > 0,
        forall|k: int| 0 <= k < name.len() ==> name[k] != '/',
        excluded(full, excludes),
    ensures
        excluded(full + seq!['/'] + name, excludes),
{
    let segs = split_path(strip_slashes(full));
    let child = full + seq!['/'] + name;
    lemma_strip_append(full, seq!['/'] + name);
    assert(child =~= full + (seq!['/'] + name));
    assert(strip_slashes(full) + (seq!['/'] + name) =~= strip_slashes(full) + seq!['/'] + name);
    lemma_split_append(strip_slashes(full), name);
    let csegs = split_path(strip_slashes(child));
    assert(csegs == segs.push(name));
    let (j, i) = choose|j: int, i: int|
        0 <= j < excludes.len() && 1 <= i <= segs.len() && #[trigger] wildcard(
            excludes[j],
            join_path(segs.take(i)),
        );
    assert(csegs.take(i) =~= segs.take(i));
    assert(wildcard(excludes[j], join_path(csegs.take(i))));
}

/// With `max_depth` 0, a filter without `*` lists only the path it names:
/// every path within depth 0 of the (normalised) filter `f` is `f` itself,
/// up to leading `/`.
pub proof fn lemma_depth_zero_is_exact(full: Seq<char>, f: Seq<char>)
    requires
        strip_slashes(f) == f,
        forall|k: int| 0 <= k < f.len() ==> f[k] != '*',
        within_depth(full, Some(f), filter_depth_of(Some(f)), Some(0)),
    ensures
        strip_slashes(full) == f,
{
    let ps = split_path(strip_slashes(full));
    let qs = split_path(f);
    assert(ps.len() == qs.len());
    assert forall|i: int| 0 <= i < qs.len() implies ps[i] == qs[i] by {
        assert(wildcard(qs[i], ps[i]));
        assert forall|k: int| 0 <= k < qs[i].len() implies qs[i][k] != '*' by {
            lemma_segment_chars(f, i, k);
        }
        lemma_literal_pattern(qs[i], ps[i]);
    }
    assert(ps =~= qs);
    lemma_join_split(strip_slashes(full));
    lemma_join_split(f);
}

/// Every node's full path, in document order: the listing with no option
/// given.
proof fn lemma_unfiltered_listing(nodes: Seq<NodeV>, k: nat)
    ensures
        ls_paths(nodes, k, None, None, Seq::empty(), Seq::empty()).len() == k,
        forall|i: int|
            0 <= i < k ==> #[trigger] ls_paths(nodes, k, None, None, Seq::empty(), Seq::empty())[i]
                == full_path_of(nodes, i),
    decreases k,
{
    if k > 0 {
        lemma_unfiltered_listing(nodes, (k - 1) as nat);
        let full = full_path_of(nodes, k - 1);
        assert(!excluded(full, Seq::<Seq<char>>::empty()));
        assert(ls_selects(nodes, k - 1, None, None, Seq::empty(), Seq::empty()));
    }
}

/// The options of `ls` only leave paths out: whatever it lists is the
/// unfiltered listing (every node, in document order) with some paths
/// dropped, the rest in the same order.
pub proof fn lemma_listing_is_subsequence(
    nodes: Seq<NodeV>,
    filter: Option<Seq<char>>,
    max_depth: Option<usize>,
    excludes: Seq<Seq<char>>,
    types: Seq<Seq<char>>,
)
    ensures
        is_subsequence(
            ls_paths(nodes, nodes.len(), filter, max_depth, excludes, types),
            ls_paths(nodes, nodes.len(), None, None, Seq::empty(), Seq::empty()),
        ),
{
    let f = listing_picks(nodes, nodes.len(), filter, max_depth, excludes, types);
}

/// The positions in the unfiltered listing of what `ls` lists.
proof fn listing_picks(
    nodes: Seq<NodeV>,
    k: nat,
    filter: Option<Seq<char>>,
    max_depth: Option<usize>,
    excludes: Seq<Seq<char>>,
    types: Seq<Seq<char>>,
) -> (f: Seq<int>)
    ensures
        picks(
            f,
            ls_paths(nodes, k, filter, max_depth, excludes, types),
            ls_paths(nodes, k, None, None, Seq::empty(), Seq::empty()),
        ),
    decreases k,
{
    lemma_unfiltered_listing(nodes, k);
    if k == 0 {
        Seq::empty()
    } else {
        let g = listing_picks(nodes, (k - 1) as nat, filter, max_depth, excludes, types);
        lemma_unfiltered_listing(nodes, (k - 1) as nat);
        let all_prev = ls_paths(nodes, (k - 1) as nat, None, None, Seq::empty(), Seq::empty());
        let all = ls_paths(nodes, k, None, None, Seq::empty(), Seq::empty());
        assert(ls_selects(nodes, k - 1, None, None, Seq::empty(), Seq::empty())) by {
            assert(!excluded(full_path_of(nodes, k - 1), Seq::<Seq<char>>::empty()));
        }
        assert(all == all_prev.push(full_path_of(nodes, k - 1)));
        lemma_picks_push(g, ls_paths(nodes, (k - 1) as nat, filter, max_depth, excludes, types), all_prev, full_path_of(nodes, k - 1));
        if ls_selects(nodes, k - 1, filter, max_depth, excludes, types) {
            g.push(all_prev.len() as int)
        } else {
            g
        }
    }
}

} // verus!
