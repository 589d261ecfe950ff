//! `arx diff`: structural (and optionally field-level) comparison of the
//! `AR-PACKAGE`/`ELEMENTS` structure of two ARXML files.
use vstd::prelude::*;

use crate::ls::normalised_filter;
use crate::fields::{
    all_element_fields, assoc_map, entries_view, entries_wf, entry_index, field_value, fields_finite,
    field_value_of, fields_at, fields_map, keys_distinct, pairs_view, push_keys, spec_all_fields,
    ElementEntry,
};
use crate::order::{
    is_sorted, is_strictly_sorted, is_subsequence, lemma_is_sorted_of, lemma_picks_push,
    lemma_sorted_of, lemma_sorted_sub_multiset_is_subsequence, picks, lemma_strictly_sorted_unique, sort_chars,
    sorted_of, sorted_select,
};
use crate::path_match::{path_under_pattern, under_pattern};
use crate::text::{
    chars_eq, chars_eq_str, chars_of, normalise, normalise_chars, normalise_path, push_chars,
    push_str, seqs_of, string_of, strings_of,
};
use crate::tree::{build_tree, full_path_of, nodes_wf, parents_before, spec_tree, NodeV, Tree};

verus! {

/// The escape sequences used to colour the report.
pub struct Colors {
    pub red: &'static str,
    pub green: &'static str,
    pub yellow: &'static str,
    pub reset: &'static str,
}

/// ANSI colours.
pub fn colors_on() -> (c: Colors)
    ensures
        c.red@ == "\x1b[31m"@,
        c.green@ == "\x1b[32m"@,
        c.yellow@ == "\x1b[33m"@,
        c.reset@ == "\x1b[0m"@,
{
    Colors { red: "\x1b[31m", green: "\x1b[32m", yellow: "\x1b[33m", reset: "\x1b[0m" }
}

/// No colours: every escape sequence is empty.
pub fn colors_off() -> (c: Colors)
    ensures
        c.red@ == ""@,
        c.green@ == ""@,
        c.yellow@ == ""@,
        c.reset@ == ""@,
{
    Colors { red: "", green: "", yellow: "", reset: "" }
}

/// Whether `diff` compares node `i`: an `AR-PACKAGE`, or a direct element
/// of one.
pub open spec fn diff_selects(nodes: Seq<NodeV>, i: int) -> bool {
    nodes[i].tag == "AR-PACKAGE"@ || (nodes[i].parent matches Some(p) && nodes[p as int].tag
        == "AR-PACKAGE"@)
}

/// The full paths of the compared nodes among the first `k` that lie under
/// the filter pattern (if any), in document order.
pub open spec fn structure_paths(nodes: Seq<NodeV>, k: nat, filter: Option<Seq<char>>) -> Seq<
    Seq<char>,
>
    decreases k,
{
    if k == 0 {
        Seq::empty()
    } else {
        let prev = structure_paths(nodes, (k - 1) as nat, filter);
        let full = full_path_of(nodes, k - 1);
        if diff_selects(nodes, k - 1) && (filter matches Some(f) ==> under_pattern(full, f)) {
            prev.push(full)
        } else {
            prev
        }
    }
}

/// The compared paths of a document's tree, in document order.
pub open spec fn all_structure_paths(nodes: Seq<NodeV>, filter: Option<Seq<char>>) -> Seq<
    Seq<char>,
> {
    structure_paths(nodes, nodes.len(), filter)
}

/// The compared paths of `tree` under the (normalised) filter, sorted.
fn sorted_structure_paths(tree: &Tree, filter: &Option<Vec<char>>) -> (r:
    Vec<Vec<char>>)
    requires
        parents_before(tree@),
    ensures
        is_sorted(seqs_of(r@)),
        seqs_of(r@).to_multiset() == all_structure_paths(
            tree@,
            match filter {
                Some(f) => Some(f@),
                None => None,
            },
        ).to_multiset(),
{
    let ghost fv = match filter {
        Some(f) => Some(f@),
        None => None::<Seq<char>>,
    };
    let mut paths: Vec<Vec<char>> = Vec::new();
    let mut idx: usize = 0;
    while idx < tree.nodes.len()
        invariant
            parents_before(tree@),
            0 <= idx <= tree@.len(),
            fv == match filter {
                Some(f) => Some(f@),
                None => None::<Seq<char>>,
            },
            seqs_of(paths@) == structure_paths(tree@, idx as nat, fv),
        decreases tree@.len() - idx,
    {
        let ghost prev = seqs_of(paths@);
        let node = &tree.nodes[idx];
        assert(tree@[idx as int] == node@);
        let selected = chars_eq_str(&node.tag, "AR-PACKAGE") || match node.parent {
            Some(p) => {
                assert(tree@[p as int] == tree.nodes@[p as int]@);
                chars_eq_str(&tree.nodes[p].tag, "AR-PACKAGE")
            },
            None => false,
        };
        if selected {
            let full = tree.full_path(idx);
            let passes = match filter {
                Some(f) => path_under_pattern(&full, f),
                None => true,
            };
            if passes {
                let ghost fp = full@;
                paths.push(full);
                assert(seqs_of(paths@) =~= prev.push(fp));
            }
        }
        idx = idx + 1;
    }
    sort_chars(paths)
}

/// The normalised filter as characters.
fn filter_chars(filter: Option<&str>) -> (r: Option<Vec<char>>)
    ensures
        match r {
            Some(f) => Some(f@),
            None => None::<Seq<char>>,
        } == normalised_filter(filter),
{
    match filter {
        Some(f) => {
            let n = normalise_path(f);
            Some(chars_of(n.as_str()))
        },
        None => None,
    }
}

/// Strings holding the characters of each vector.
pub fn strings_from(v: &Vec<Vec<char>>) -> (r: Vec<String>)
    ensures
        strings_of(r@) == seqs_of(v@),
{
    let mut out: Vec<String> = Vec::new();
    let mut i: usize = 0;
    while i < v.len()
        invariant
            0 <= i <= v@.len(),
            strings_of(out@) == seqs_of(v@).take(i as int),
        decreases v@.len() - i,
    {
        let ghost prev = strings_of(out@);
        let s = string_of(v[i].as_slice());
        out.push(s);
        assert(strings_of(out@) =~= prev.push(v@[i as int]@));
        assert(seqs_of(v@).take(i + 1) =~= seqs_of(v@).take(i as int).push(v@[i as int]@));
        i = i + 1;
    }
    assert(seqs_of(v@).take(v@.len() as int) =~= seqs_of(v@));
    out
}

/// Collect all AR-PACKAGE paths (any depth) and each package's direct
/// elements from the document `input`, sorted, for `arx diff`'s structural
/// comparison; `None` when reading it fails. If `filter` is given, only
/// paths under that pattern are returned.
pub fn collect_all_paths(input: &[u8], filter: Option<&str>) -> (r: Option<Vec<String>>)
    ensures
        match r {
            Some(v) => spec_tree(input@) matches Some(nodes) && is_sorted(strings_of(v@))
                && strings_of(v@).to_multiset() == all_structure_paths(
                nodes,
                normalised_filter(filter),
            ).to_multiset(),
            None => spec_tree(input@) is None,
        },
{
    let f = filter_chars(filter);
    match build_tree(input) {
        Some(tree) => {
            let paths = sorted_structure_paths(&tree, &f);
            Some(strings_from(&paths))
        },
        None => None,
    }
}

/// Same multiset, same elements.
pub proof fn lemma_multiset_same_elements(a: Seq<Seq<char>>, b: Seq<Seq<char>>)
    requires
        a.to_multiset() == b.to_multiset(),
    ensures
        forall|x: Seq<char>| a.contains(x) == b.contains(x),
        a.to_set() == b.to_set(),
{
    broadcast use vstd::seq_lib::group_to_multiset_ensures;

    assert forall|x: Seq<char>| a.contains(x) == b.contains(x) by {
        assert(a.contains(x) <==> a.to_multiset().count(x) > 0);
        assert(b.contains(x) <==> b.to_multiset().count(x) > 0);
    }
    assert(a.to_set() =~= b.to_set());
}

/// The first two lines of a report and the blank line after them.
pub open spec fn report_head(c: Colors, name_a: Seq<char>, name_b: Seq<char>) -> Seq<char> {
    c.red@ + "--- "@ + name_a + c.reset@ + "\n"@ + c.green@ + "+++ "@ + name_b + c.reset@ + "\n"@
        + "\n"@
}

/// One line per path: `{color}{sign}{reset} {color}{path}`, a newline, and
/// the reset sequence.
pub open spec fn path_lines(
    color: Seq<char>,
    reset: Seq<char>,
    sign: Seq<char>,
    paths: Seq<Seq<char>>,
) -> Seq<char>
    decreases paths.len(),
{
    if paths.len() == 0 {
        Seq::empty()
    } else {
        path_lines(color, reset, sign, paths.drop_last()) + color + sign + reset + " "@ + color
            + paths.last() + "\n"@ + reset
    }
}

/// Appends one line per path (see [`path_lines`]).
fn write_path_lines(out: &mut String, color: &str, reset: &str, sign: &str, paths: &Vec<Vec<char>>)
    ensures
        final(out)@ == old(out)@ + path_lines(color@, reset@, sign@, seqs_of(paths@)),
{
    let ghost start = out@;
    let ghost ps = seqs_of(paths@);
    let mut k: usize = 0;
    assert(ps.take(0) =~= Seq::<Seq<char>>::empty());
    assert(out@ =~= start + path_lines(color@, reset@, sign@, ps.take(0)));
    while k < paths.len()
        invariant
            ps == seqs_of(paths@),
            0 <= k <= paths@.len(),
            out@ == start + path_lines(color@, reset@, sign@, ps.take(k as int)),
        decreases paths@.len() - k,
    {
        assert(ps.take(k + 1).drop_last() =~= ps.take(k as int));
        assert(ps.take(k + 1).last() == paths@[k as int]@);
        push_str(out, color);
        push_str(out, sign);
        push_str(out, reset);
        push_str(out, " ");
        push_str(out, color);
        push_chars(out, &paths[k]);
        push_str(out, "\n");
        push_str(out, reset);
        assert(out@ =~= start + path_lines(color@, reset@, sign@, ps.take(k + 1)));
        k = k + 1;
    }
    assert(ps.take(paths@.len() as int) =~= ps);
}

/// The outcome of a structural comparison: whether the two documents have
/// the same compared paths, the paths only in the first (`removed`) and
/// only in the second (`added`), each in ascending order, and the report
/// to print.
pub struct DiffOutcome {
    pub identical: bool,
    pub removed: Vec<String>,
    pub added: Vec<String>,
    pub report: String,
}

/// `r` lists, in strictly ascending order, exactly the paths of `a` that
/// are not paths of `b`.
pub open spec fn is_sorted_difference(r: Seq<Seq<char>>, a: Seq<Seq<char>>, b: Seq<Seq<char>>) -> bool {
    &&& is_strictly_sorted(r)
    &&& r.to_set() == a.to_set().filter(|x: Seq<char>| !b.contains(x))
}

/// The paths only in `a` and those only in `b`, sorted, from the sorted
/// path lists of the two documents.
fn sorted_differences(pa: &Vec<Vec<char>>, pb: &Vec<Vec<char>>, Ghost(a): Ghost<Seq<Seq<char>>>, Ghost(b): Ghost<Seq<Seq<char>>>) -> (r: (Vec<Vec<char>>, Vec<Vec<char>>))
    requires
        is_sorted(seqs_of(pa@)),
        is_sorted(seqs_of(pb@)),
        seqs_of(pa@).to_multiset() == a.to_multiset(),
        seqs_of(pb@).to_multiset() == b.to_multiset(),
    ensures
        is_sorted_difference(seqs_of(r.0@), a, b),
        is_sorted_difference(seqs_of(r.1@), b, a),
{
    proof {
        lemma_multiset_same_elements(seqs_of(pa@), a);
        lemma_multiset_same_elements(seqs_of(pb@), b);
    }
    let removed = sorted_select(pa, pb, false);
    let added = sorted_select(pb, pa, false);
    assert(seqs_of(pa@).to_set().filter(|x: Seq<char>| seqs_of(pb@).contains(x) == false) =~= a.to_set().filter(|x: Seq<char>| !b.contains(x)));
    assert(seqs_of(pb@).to_set().filter(|x: Seq<char>| seqs_of(pa@).contains(x) == false) =~= b.to_set().filter(|x: Seq<char>| !a.contains(x)));
    (removed, added)
}

/// `o` is the comparison of the path lists `pa` (first document) and `pb`
/// (second): the sorted differences each way, whether both are empty, and
/// the report with colours `c` and file names `name_a`, `name_b`.
pub open spec fn is_diff_outcome(
    o: DiffOutcome,
    pa: Seq<Seq<char>>,
    pb: Seq<Seq<char>>,
    c: Colors,
    name_a: Seq<char>,
    name_b: Seq<char>,
) -> bool {
    &&& is_sorted_difference(strings_of(o.removed@), pa, pb)
    &&& is_sorted_difference(strings_of(o.added@), pb, pa)
    &&& o.identical == (o.removed@.len() == 0 && o.added@.len() == 0)
    &&& o.report@ == if o.identical {
        Seq::empty()
    } else {
        report_head(c, name_a, name_b) + path_lines(c.red@, c.reset@, "-"@, strings_of(o.removed@))
            + path_lines(c.green@, c.reset@, "+"@, strings_of(o.added@))
    }
}

/// Compare the AR-PACKAGE / ELEMENTS structure of two documents (read from
/// files named `file_a` and `file_b`). The comparison is order-independent:
/// only the sets of paths matter. If `filter` is given, only paths under
/// that pattern are compared. `None` when either document cannot be read.
///
/// The report is empty when the structures are identical; otherwise it
/// starts with `--- file_a` and `+++ file_b` and lists each removed path
/// with `-` and each added path with `+`.
pub fn cmd_diff(
    input_a: &[u8],
    input_b: &[u8],
    file_a: &str,
    file_b: &str,
    filter: Option<&str>,
    c: &Colors,
) -> (r: Option<DiffOutcome>)
    ensures
        match r {
            None => spec_tree(input_a@) is None || spec_tree(input_b@) is None,
            Some(o) => spec_tree(input_a@) is Some && spec_tree(input_b@) is Some
                && is_diff_outcome(
                o,
                all_structure_paths(spec_tree(input_a@).unwrap(), normalised_filter(filter)),
                all_structure_paths(spec_tree(input_b@).unwrap(), normalised_filter(filter)),
                *c,
                file_a@,
                file_b@,
            ),
        },
{
    let f = filter_chars(filter);
    let tree_a = match build_tree(input_a) {
        Some(t) => t,
        None => {
            return None;
        },
    };
    let tree_b = match build_tree(input_b) {
        Some(t) => t,
        None => {
            return None;
        },
    };
    let pa = sorted_structure_paths(&tree_a, &f);
    let pb = sorted_structure_paths(&tree_b, &f);
    let (removed, added) = sorted_differences(
        &pa,
        &pb,
        Ghost(all_structure_paths(tree_a@, normalised_filter(filter))),
        Ghost(all_structure_paths(tree_b@, normalised_filter(filter))),
    );
    let identical = removed.len() == 0 && added.len() == 0;
    let mut report = String::new();
    if !identical {
        push_str(&mut report, c.red);
        push_str(&mut report, "--- ");
        push_str(&mut report, file_a);
        push_str(&mut report, c.reset);
        push_str(&mut report, "\n");
        push_str(&mut report, c.green);
        push_str(&mut report, "+++ ");
        push_str(&mut report, file_b);
        push_str(&mut report, c.reset);
        push_str(&mut report, "\n");
        push_str(&mut report, "\n");
        assert(report@ =~= report_head(*c, file_a@, file_b@));
        write_path_lines(&mut report, c.red, c.reset, "-", &removed);
        write_path_lines(&mut report, c.green, c.reset, "+", &added);
    }
    let removed_s = strings_from(&removed);
    let added_s = strings_from(&added);
    assert(strings_of(removed_s@) == seqs_of(removed@));
    assert(strings_of(added_s@) == seqs_of(added@));
    assert(report@ == if identical {
        Seq::empty()
    } else {
        report_head(*c, file_a@, file_b@) + path_lines(c.red@, c.reset@, "-"@, strings_of(removed_s@))
            + path_lines(c.green@, c.reset@, "+"@, strings_of(added_s@))
    });
    let ghost ga = all_structure_paths(tree_a@, normalised_filter(filter));
    let ghost gb = all_structure_paths(tree_b@, normalised_filter(filter));
    assert(is_sorted_difference(strings_of(removed_s@), ga, gb));
    assert(is_sorted_difference(strings_of(added_s@), gb, ga));
    assert(removed_s@.len() == strings_of(removed_s@).len() && removed@.len() == seqs_of(removed@).len());
    assert(added_s@.len() == strings_of(added_s@).len() && added@.len() == seqs_of(added@).len());
    assert(identical == (removed_s@.len() == 0 && added_s@.len() == 0));
    let o = DiffOutcome { identical, removed: removed_s, added: added_s, report };
    assert(is_diff_outcome(
        o,
        all_structure_paths(tree_a@, normalised_filter(filter)),
        all_structure_paths(tree_b@, normalised_filter(filter)),
        *c,
        file_a@,
        file_b@,
    ));
    Some(o)
}

/// One changed field of an element present in both documents: its tag and
/// its value in the first and in the second document (empty where absent).
pub struct FieldChange {
    pub tag: String,
    pub old: String,
    pub new: String,
}

/// An element present in both documents whose fields differ, with the
/// changed fields in ascending tag order.
pub struct ElementChange {
    pub path: String,
    pub changes: Vec<FieldChange>,
}

/// The views of a list of field changes.
pub open spec fn field_changes_view(v: Seq<FieldChange>) -> Seq<(Seq<char>, Seq<char>, Seq<char>)> {
    v.map_values(|f: FieldChange| (f.tag@, f.old@, f.new@))
}

/// The views of a list of element changes.
pub open spec fn element_changes_view(v: Seq<ElementChange>) -> Seq<
    (Seq<char>, Seq<(Seq<char>, Seq<char>, Seq<char>)>),
> {
    v.map_values(|e: ElementChange| (e.path@, field_changes_view(e.changes@)))
}

/// The tags among `tags` whose values differ between `fa` and `fb`, each
/// with both values, in the order of `tags`.
pub open spec fn changes_over(
    fa: Map<Seq<char>, Seq<char>>,
    fb: Map<Seq<char>, Seq<char>>,
    tags: Seq<Seq<char>>,
) -> Seq<(Seq<char>, Seq<char>, Seq<char>)>
    decreases tags.len(),
{
    if tags.len() == 0 {
        Seq::empty()
    } else {
        let prev = changes_over(fa, fb, tags.drop_last());
        let t = tags.last();
        if field_value(fa, t) != field_value(fb, t) {
            prev.push((t, field_value(fa, t), field_value(fb, t)))
        } else {
            prev
        }
    }
}

/// The changed fields between two field maps, in ascending tag order over
/// the tags of either.
pub open spec fn element_changes(fa: Map<Seq<char>, Seq<char>>, fb: Map<Seq<char>, Seq<char>>) -> Seq<
    (Seq<char>, Seq<char>, Seq<char>),
> {
    changes_over(fa, fb, sorted_of(fa.dom().union(fb.dom())))
}

/// For each path of `common` in turn, its changed fields between the field
/// maps `all_a` and `all_b` (looked up under the normalised path), where
/// there are any.
pub open spec fn field_diffs(
    common: Seq<Seq<char>>,
    all_a: Map<Seq<char>, Map<Seq<char>, Seq<char>>>,
    all_b: Map<Seq<char>, Map<Seq<char>, Seq<char>>>,
) -> Seq<(Seq<char>, Seq<(Seq<char>, Seq<char>, Seq<char>)>)>
    decreases common.len(),
{
    if common.len() == 0 {
        Seq::empty()
    } else {
        let prev = field_diffs(common.drop_last(), all_a, all_b);
        let p = common.last();
        let ch = element_changes(
            fields_at(all_a, normalise(p)),
            fields_at(all_b, normalise(p)),
        );
        if ch.len() > 0 {
            prev.push((p, ch))
        } else {
            prev
        }
    }
}

/// The report lines of changed fields: `  + tag: new` where the first
/// document has no value, `  - tag: old` where the second has none, and
/// both lines otherwise.
pub open spec fn change_lines(c: Colors, changes: Seq<(Seq<char>, Seq<char>, Seq<char>)>) -> Seq<
    char,
>
    decreases changes.len(),
{
    if changes.len() == 0 {
        Seq::empty()
    } else {
        let (tag, old, new) = changes.last();
        let minus = c.red@ + "  - "@ + tag + ": "@ + old + c.reset@ + "\n"@;
        let plus = c.green@ + "  + "@ + tag + ": "@ + new + c.reset@ + "\n"@;
        change_lines(c, changes.drop_last()) + if old.len() == 0 {
            plus
        } else if new.len() == 0 {
            minus
        } else {
            minus + plus
        }
    }
}

/// The report lines of changed elements: a `~ path` line for each, then its
/// changed fields.
pub open spec fn changed_lines(
    c: Colors,
    diffs: Seq<(Seq<char>, Seq<(Seq<char>, Seq<char>, Seq<char>)>)>,
) -> Seq<char>
    decreases diffs.len(),
{
    if diffs.len() == 0 {
        Seq::empty()
    } else {
        let (p, changes) = diffs.last();
        changed_lines(c, diffs.drop_last()) + path_lines(c.yellow@, c.reset@, "~"@, seq![p])
            + change_lines(c, changes)
    }
}

/// The changed fields of two field lists with distinct keys.
fn changes_between(fa: &Vec<(Vec<char>, Vec<char>)>, fb: &Vec<(Vec<char>, Vec<char>)>) -> (r: Vec<
    FieldChange,
>)
    requires
        keys_distinct(pairs_view(fa@)),
        keys_distinct(pairs_view(fb@)),
    ensures
        field_changes_view(r@) == element_changes(fields_map(fa@), fields_map(fb@)),
{
    let ghost ma = fields_map(fa@);
    let ghost mb = fields_map(fb@);
    let mut keys: Vec<Vec<char>> = Vec::new();
    assert(seqs_of(keys@).to_set() =~= Set::<Seq<char>>::empty());
    push_keys(&mut keys, fa);
    push_keys(&mut keys, fb);
    assert(seqs_of(keys@).to_set() =~= ma.dom().union(mb.dom()));
    let sorted = sort_chars(keys);
    proof {
        lemma_multiset_same_elements(seqs_of(sorted@), seqs_of(keys@));
    }
    let none: Vec<Vec<char>> = Vec::new();
    let tags = sorted_select(&sorted, &none, false);
    assert(seqs_of(none@) =~= Seq::<Seq<char>>::empty());
    assert(seqs_of(tags@).to_set() =~= ma.dom().union(mb.dom()));
    proof {
        lemma_is_sorted_of(seqs_of(tags@));
    }
    let ghost ts = seqs_of(tags@);
    let mut out: Vec<FieldChange> = Vec::new();
    let mut k: usize = 0;
    assert(ts.take(0) =~= Seq::<Seq<char>>::empty());
    assert(field_changes_view(out@) =~= Seq::<(Seq<char>, Seq<char>, Seq<char>)>::empty());
    while k < tags.len()
        invariant
            0 <= k <= tags@.len(),
            ts == seqs_of(tags@),
            ma == fields_map(fa@),
            mb == fields_map(fb@),
            keys_distinct(pairs_view(fa@)),
            keys_distinct(pairs_view(fb@)),
            field_changes_view(out@) == changes_over(ma, mb, ts.take(k as int)),
        decreases tags@.len() - k,
    {
        let ghost prev = field_changes_view(out@);
        let tag = &tags[k];
        assert(ts.take(k + 1).drop_last() =~= ts.take(k as int));
        assert(ts.take(k + 1).last() == tag@);
        let va = field_value_of(fa, tag);
        let vb = field_value_of(fb, tag);
        if !chars_eq(&va, &vb) {
            let change = FieldChange {
                tag: string_of(tag.as_slice()),
                old: string_of(va.as_slice()),
                new: string_of(vb.as_slice()),
            };
            out.push(change);
            assert(field_changes_view(out@) =~= prev.push((tag@, va@, vb@)));
        }
        k = k + 1;
    }
    assert(ts.take(tags@.len() as int) =~= ts);
    out
}

/// Appends `{color}{sign}{tag}: {value}{reset}` and a newline.
fn write_field_line(out: &mut String, color: &str, sign: &str, tag: &str, value: &str, reset: &str)
    ensures
        final(out)@ == old(out)@ + (color@ + sign@ + tag@ + ": "@ + value@ + reset@ + "\n"@),
{
    let ghost start = out@;
    push_str(out, color);
    push_str(out, sign);
    push_str(out, tag);
    push_str(out, ": ");
    push_str(out, value);
    push_str(out, reset);
    push_str(out, "\n");
    assert(out@ =~= start + (color@ + sign@ + tag@ + ": "@ + value@ + reset@ + "\n"@));
}

/// Appends the report lines of changed fields (see [`change_lines`]).
fn write_change_lines(out: &mut String, c: &Colors, changes: &Vec<FieldChange>)
    ensures
        final(out)@ == old(out)@ + change_lines(*c, field_changes_view(changes@)),
{
    let ghost start = out@;
    let ghost cs = field_changes_view(changes@);
    let mut k: usize = 0;
    assert(cs.take(0) =~= Seq::<(Seq<char>, Seq<char>, Seq<char>)>::empty());
    assert(out@ =~= start + change_lines(*c, cs.take(0)));
    while k < changes.len()
        invariant
            cs == field_changes_view(changes@),
            0 <= k <= changes@.len(),
            out@ == start + change_lines(*c, cs.take(k as int)),
        decreases changes@.len() - k,
    {
        let ghost before = out@;
        assert(cs.take(k + 1).drop_last() =~= cs.take(k as int));
        let f = &changes[k];
        assert(cs.take(k + 1).last() == (f.tag@, f.old@, f.new@));
        let old_empty = f.old.as_str().unicode_len() == 0;
        let new_empty = f.new.as_str().unicode_len() == 0;
        let ghost before = out@;
        if !old_empty {
            write_field_line(out, c.red, "  - ", f.tag.as_str(), f.old.as_str(), c.reset);
        }
        let ghost mid = out@;
        if old_empty || !new_empty {
            write_field_line(out, c.green, "  + ", f.tag.as_str(), f.new.as_str(), c.reset);
        }
        proof {
            let minus = c.red@ + "  - "@ + f.tag@ + ": "@ + f.old@ + c.reset@ + "\n"@;
            let plus = c.green@ + "  + "@ + f.tag@ + ": "@ + f.new@ + c.reset@ + "\n"@;
            assert(mid == if !old_empty { before + minus } else { before });
            assert(out@ == if old_empty || !new_empty { mid + plus } else { mid });
            assert(change_lines(*c, cs.take(k + 1)) == change_lines(*c, cs.take(k as int)) + if f.old@.len() == 0 {
                plus
            } else if f.new@.len() == 0 {
                minus
            } else {
                minus + plus
            });
        }
        assert(out@ =~= start + change_lines(*c, cs.take(k + 1)));
        k = k + 1;
    }
    assert(cs.take(changes@.len() as int) =~= cs);
}

/// Appends the report lines of changed elements (see [`changed_lines`]).
fn write_changed_lines(out: &mut String, c: &Colors, changed: &Vec<ElementChange>)
    ensures
        final(out)@ == old(out)@ + changed_lines(*c, element_changes_view(changed@)),
{
    let ghost start = out@;
    let ghost ds = element_changes_view(changed@);
    let mut k: usize = 0;
    assert(ds.take(0) =~= Seq::<(Seq<char>, Seq<(Seq<char>, Seq<char>, Seq<char>)>)>::empty());
    assert(out@ =~= start + changed_lines(*c, ds.take(0)));
    while k < changed.len()
        invariant
            ds == element_changes_view(changed@),
            0 <= k <= changed@.len(),
            out@ == start + changed_lines(*c, ds.take(k as int)),
        decreases changed@.len() - k,
    {
        assert(ds.take(k + 1).drop_last() =~= ds.take(k as int));
        let e = &changed[k];
        assert(ds.take(k + 1).last() == (e.path@, field_changes_view(e.changes@)));
        let one = vec![chars_of(e.path.as_str())];
        assert(seqs_of(one@) =~= seq![e.path@]);
        write_path_lines(out, c.yellow, c.reset, "~", &one);
        write_change_lines(out, c, &e.changes);
        assert(out@ =~= start + changed_lines(*c, ds.take(k + 1)));
        k = k + 1;
    }
    assert(ds.take(changed@.len() as int) =~= ds);
}

/// The outcome of an extended comparison: whether the documents have the
/// same compared paths and no changed fields, the paths only in the first
/// (`removed`) and only in the second (`added`), the changed elements among
/// the paths of both, in ascending order, and the report to print.
pub struct ExtendedDiffOutcome {
    pub identical: bool,
    pub removed: Vec<String>,
    pub added: Vec<String>,
    pub changed: Vec<ElementChange>,
    pub report: String,
}

/// `o` is the extended comparison of the path lists `pa` and `pb` and the
/// field maps `all_a` and `all_b` of the two documents, with colours `c`
/// and file names `name_a`, `name_b`.
pub open spec fn is_extended_outcome(
    o: ExtendedDiffOutcome,
    pa: Seq<Seq<char>>,
    pb: Seq<Seq<char>>,
    all_a: Map<Seq<char>, Map<Seq<char>, Seq<char>>>,
    all_b: Map<Seq<char>, Map<Seq<char>, Seq<char>>>,
    c: Colors,
    name_a: Seq<char>,
    name_b: Seq<char>,
) -> bool {
    &&& is_sorted_difference(strings_of(o.removed@), pa, pb)
    &&& is_sorted_difference(strings_of(o.added@), pb, pa)
    &&& element_changes_view(o.changed@) == field_diffs(
        sorted_of(pa.to_set().filter(|x: Seq<char>| pb.contains(x))),
        all_a,
        all_b,
    )
    &&& o.identical == (o.removed@.len() == 0 && o.added@.len() == 0 && o.changed@.len() == 0)
    &&& o.report@ == if o.identical {
        Seq::empty()
    } else {
        report_head(c, name_a, name_b) + path_lines(c.red@, c.reset@, "-"@, strings_of(o.removed@))
            + path_lines(c.green@, c.reset@, "+"@, strings_of(o.added@)) + changed_lines(
            c,
            element_changes_view(o.changed@),
        )
    }
}

/// The changed elements among the paths `common` (strictly ascending),
/// between the element fields `all_a` and `all_b`.
fn changed_elements(
    common: &Vec<Vec<char>>,
    all_a: &Vec<ElementEntry>,
    all_b: &Vec<ElementEntry>,
) -> (r: Vec<ElementChange>)
    requires
        entries_wf(all_a@),
        entries_wf(all_b@),
    ensures
        element_changes_view(r@) == field_diffs(
            seqs_of(common@),
            assoc_map(entries_view(all_a@)),
            assoc_map(entries_view(all_b@)),
        ),
{
    let ghost ma = assoc_map(entries_view(all_a@));
    let ghost mb = assoc_map(entries_view(all_b@));
    let ghost cs = seqs_of(common@);
    let mut out: Vec<ElementChange> = Vec::new();
    let no_fields: Vec<(Vec<char>, Vec<char>)> = Vec::new();
    assert(pairs_view(no_fields@) =~= Seq::<(Seq<char>, Seq<char>)>::empty());
    assert(fields_map(no_fields@) =~= Map::<Seq<char>, Seq<char>>::empty());
    let mut k: usize = 0;
    assert(cs.take(0) =~= Seq::<Seq<char>>::empty());
    assert(element_changes_view(out@) =~= Seq::<
        (Seq<char>, Seq<(Seq<char>, Seq<char>, Seq<char>)>),
    >::empty());
    while k < common.len()
        invariant
            0 <= k <= common@.len(),
            cs == seqs_of(common@),
            entries_wf(all_a@),
            entries_wf(all_b@),
            ma == assoc_map(entries_view(all_a@)),
            mb == assoc_map(entries_view(all_b@)),
            fields_map(no_fields@) == Map::<Seq<char>, Seq<char>>::empty(),
            keys_distinct(pairs_view(no_fields@)),
            element_changes_view(out@) == field_diffs(cs.take(k as int), ma, mb),
        decreases common@.len() - k,
    {
        let ghost prev = element_changes_view(out@);
        let p = &common[k];
        assert(cs.take(k + 1).drop_last() =~= cs.take(k as int));
        assert(cs.take(k + 1).last() == p@);
        let norm = normalise_chars(p);
        let fa: &Vec<(Vec<char>, Vec<char>)> = match entry_index(all_a, &norm) {
            Some(i) => &all_a[i].1,
            None => &no_fields,
        };
        let fb: &Vec<(Vec<char>, Vec<char>)> = match entry_index(all_b, &norm) {
            Some(i) => &all_b[i].1,
            None => &no_fields,
        };
        let changes = changes_between(fa, fb);
        if changes.len() > 0 {
            let ghost ch = field_changes_view(changes@);
            out.push(ElementChange { path: string_of(p.as_slice()), changes });
            assert(element_changes_view(out@) =~= prev.push((p@, ch)));
        }
        k = k + 1;
    }
    assert(cs.take(common@.len() as int) =~= cs);
    out
}

/// Extended diff: in addition to added and removed paths, compare the
/// direct child tags of the elements present in both documents and report
/// changed values. `None` when either document cannot be read.
///
/// The report is empty when nothing differs; otherwise it is the report of
/// [`cmd_diff`] followed, for each changed element in ascending path order,
/// by a `~ path` line and its changed fields in ascending tag order.
pub fn cmd_diff_extended(
    input_a: &[u8],
    input_b: &[u8],
    file_a: &str,
    file_b: &str,
    filter: Option<&str>,
    c: &Colors,
) -> (r: Option<ExtendedDiffOutcome>)
    ensures
        match r {
            None => spec_tree(input_a@) is None || spec_tree(input_b@) is None,
            Some(o) => spec_tree(input_a@) is Some && spec_tree(input_b@) is Some
                && spec_all_fields(input_a@) is Some && spec_all_fields(input_b@) is Some
                && is_extended_outcome(
                o,
                all_structure_paths(spec_tree(input_a@).unwrap(), normalised_filter(filter)),
                all_structure_paths(spec_tree(input_b@).unwrap(), normalised_filter(filter)),
                spec_all_fields(input_a@).unwrap(),
                spec_all_fields(input_b@).unwrap(),
                *c,
                file_a@,
                file_b@,
            ),
        },
{
    let f = filter_chars(filter);
    let tree_a = match build_tree(input_a) {
        Some(t) => t,
        None => {
            return None;
        },
    };
    let tree_b = match build_tree(input_b) {
        Some(t) => t,
        None => {
            return None;
        },
    };
    let all_a = match all_element_fields(input_a) {
        Some(v) => v,
        None => {
            return None;
        },
    };
    let all_b = match all_element_fields(input_b) {
        Some(v) => v,
        None => {
            return None;
        },
    };
    let ghost ga = all_structure_paths(tree_a@, normalised_filter(filter));
    let ghost gb = all_structure_paths(tree_b@, normalised_filter(filter));
    let pa = sorted_structure_paths(&tree_a, &f);
    let pb = sorted_structure_paths(&tree_b, &f);
    let (removed, added) = sorted_differences(&pa, &pb, Ghost(ga), Ghost(gb));
    let common = sorted_select(&pa, &pb, true);
    proof {
        lemma_multiset_same_elements(seqs_of(pa@), ga);
        lemma_multiset_same_elements(seqs_of(pb@), gb);
        assert(seqs_of(common@).to_set() =~= ga.to_set().filter(|x: Seq<char>| gb.contains(x)));
        lemma_is_sorted_of(seqs_of(common@));
    }
    let changed = changed_elements(&common, &all_a, &all_b);
    let identical = removed.len() == 0 && added.len() == 0 && changed.len() == 0;
    let mut report = String::new();
    if !identical {
        push_str(&mut report, c.red);
        push_str(&mut report, "--- ");
        push_str(&mut report, file_a);
        push_str(&mut report, c.reset);
        push_str(&mut report, "\n");
        push_str(&mut report, c.green);
        push_str(&mut report, "+++ ");
        push_str(&mut report, file_b);
        push_str(&mut report, c.reset);
        push_str(&mut report, "\n");
        push_str(&mut report, "\n");
        assert(report@ =~= report_head(*c, file_a@, file_b@));
        write_path_lines(&mut report, c.red, c.reset, "-", &removed);
        write_path_lines(&mut report, c.green, c.reset, "+", &added);
        write_changed_lines(&mut report, c, &changed);
    }
    let removed_s = strings_from(&removed);
    let added_s = strings_from(&added);
    assert(is_sorted_difference(strings_of(removed_s@), ga, gb));
    assert(is_sorted_difference(strings_of(added_s@), gb, ga));
    assert(strings_of(removed_s@) == seqs_of(removed@));
    assert(strings_of(added_s@) == seqs_of(added@));
    assert(element_changes_view(changed@) == field_diffs(
        sorted_of(ga.to_set().filter(|x: Seq<char>| gb.contains(x))),
        spec_all_fields(input_a@).unwrap(),
        spec_all_fields(input_b@).unwrap(),
    ));
    assert(removed_s@.len() == strings_of(removed_s@).len() && removed@.len() == seqs_of(removed@).len());
    assert(added_s@.len() == strings_of(added_s@).len() && added@.len() == seqs_of(added@).len());
    assert(identical == (removed_s@.len() == 0 && added_s@.len() == 0 && changed@.len() == 0));
    assert(report@ == if identical {
        Seq::empty()
    } else {
        report_head(*c, file_a@, file_b@) + path_lines(c.red@, c.reset@, "-"@, strings_of(removed_s@))
            + path_lines(c.green@, c.reset@, "+"@, strings_of(added_s@)) + changed_lines(
            *c,
            element_changes_view(changed@),
        )
    });
    let o = ExtendedDiffOutcome { identical, removed: removed_s, added: added_s, changed, report };
    assert(is_extended_outcome(
        o,
        ga,
        gb,
        spec_all_fields(input_a@).unwrap(),
        spec_all_fields(input_b@).unwrap(),
        *c,
        file_a@,
        file_b@,
    ));
    Some(o)
}

/// A sorted difference is empty exactly when every element of `a` is one of
/// `b`.
proof fn lemma_difference_empty(r: Seq<Seq<char>>, a: Seq<Seq<char>>, b: Seq<Seq<char>>)
    requires
        is_sorted_difference(r, a, b),
    ensures
        r.len() == 0 <==> a.to_set().subset_of(b.to_set()),
{
    if r.len() == 0 {
        assert forall|x: Seq<char>| a.to_set().contains(x) implies b.to_set().contains(x) by {
            if !b.contains(x) {
                assert(a.to_set().filter(|y: Seq<char>| !b.contains(y)).contains(x));
                assert(r.to_set().contains(x));
            }
        }
    } else {
        assert(r.to_set().contains(r[0]));
        assert(a.to_set().contains(r[0]) && !b.contains(r[0]));
        assert(!b.to_set().contains(r[0]));
    }
}

/// The structural comparison reports the documents identical exactly when
/// they have the same set of compared paths.
pub proof fn lemma_diff_identical_iff_same_paths(
    o: DiffOutcome,
    pa: Seq<Seq<char>>,
    pb: Seq<Seq<char>>,
    c: Colors,
    name_a: Seq<char>,
    name_b: Seq<char>,
)
    requires
        is_diff_outcome(o, pa, pb, c, name_a, name_b),
    ensures
        o.identical <==> pa.to_set() == pb.to_set(),
        o.identical ==> o.report@.len() == 0,
{
    lemma_difference_empty(strings_of(o.removed@), pa, pb);
    lemma_difference_empty(strings_of(o.added@), pb, pa);
    if pa.to_set() == pb.to_set() {
        assert(pa.to_set().subset_of(pb.to_set()));
        assert(pb.to_set().subset_of(pa.to_set()));
    }
    if o.identical {
        assert(pa.to_set() =~= pb.to_set());
    }
}

/// The structural comparison is order-independent: only the sets of paths
/// matter, not their order or how often they occur.
pub proof fn lemma_diff_order_independent(
    o: DiffOutcome,
    pa: Seq<Seq<char>>,
    pb: Seq<Seq<char>>,
    pa2: Seq<Seq<char>>,
    pb2: Seq<Seq<char>>,
    c: Colors,
    name_a: Seq<char>,
    name_b: Seq<char>,
)
    requires
        is_diff_outcome(o, pa, pb, c, name_a, name_b),
        pa.to_set() == pa2.to_set(),
        pb.to_set() == pb2.to_set(),
    ensures
        is_diff_outcome(o, pa2, pb2, c, name_a, name_b),
{
    assert forall|x: Seq<char>| pa.contains(x) == pa2.contains(x) && pb.contains(x) == pb2.contains(x) by {
        assert(pa.contains(x) == pa.to_set().contains(x));
        assert(pa2.contains(x) == pa2.to_set().contains(x));
        assert(pb.contains(x) == pb.to_set().contains(x));
        assert(pb2.contains(x) == pb2.to_set().contains(x));
    }
    assert(pa.to_set().filter(|x: Seq<char>| !pb.contains(x)) =~= pa2.to_set().filter(
        |x: Seq<char>| !pb2.contains(x),
    ));
    assert(pb.to_set().filter(|x: Seq<char>| !pa.contains(x)) =~= pb2.to_set().filter(
        |x: Seq<char>| !pa2.contains(x),
    ));
}

/// Swapping the two documents swaps the removed and the added paths.
pub proof fn lemma_diff_swap(
    o1: DiffOutcome,
    o2: DiffOutcome,
    pa: Seq<Seq<char>>,
    pb: Seq<Seq<char>>,
    c: Colors,
    name_a: Seq<char>,
    name_b: Seq<char>,
)
    requires
        is_diff_outcome(o1, pa, pb, c, name_a, name_b),
        is_diff_outcome(o2, pb, pa, c, name_b, name_a),
    ensures
        strings_of(o1.removed@) == strings_of(o2.added@),
        strings_of(o1.added@) == strings_of(o2.removed@),
        o1.identical == o2.identical,
{
    lemma_strictly_sorted_unique(strings_of(o1.removed@), strings_of(o2.added@));
    lemma_strictly_sorted_unique(strings_of(o1.added@), strings_of(o2.removed@));
    assert(o1.removed@.len() == strings_of(o1.removed@).len());
    assert(o2.added@.len() == strings_of(o2.added@).len());
    assert(o1.added@.len() == strings_of(o1.added@).len());
    assert(o2.removed@.len() == strings_of(o2.removed@).len());
}

/// Comparing field maps with themselves finds no change.
proof fn lemma_no_changes_with_itself(f: Map<Seq<char>, Seq<char>>, tags: Seq<Seq<char>>)
    ensures
        changes_over(f, f, tags).len() == 0,
    decreases tags.len(),
{
    if tags.len() > 0 {
        lemma_no_changes_with_itself(f, tags.drop_last());
    }
}

/// Comparing the fields of a document with themselves finds no changed
/// element.
proof fn lemma_no_field_diffs_with_itself(
    common: Seq<Seq<char>>,
    all: Map<Seq<char>, Map<Seq<char>, Seq<char>>>,
)
    ensures
        field_diffs(common, all, all).len() == 0,
    decreases common.len(),
{
    if common.len() > 0 {
        lemma_no_field_diffs_with_itself(common.drop_last(), all);
        let p = common.last();
        let f = fields_at(all, normalise(p));
        lemma_no_changes_with_itself(f, sorted_of(f.dom().union(f.dom())));
    }
}

/// The extended comparison of a document with itself reports it identical,
/// with an empty report.
pub proof fn lemma_extended_diff_with_itself(
    o: ExtendedDiffOutcome,
    pa: Seq<Seq<char>>,
    all: Map<Seq<char>, Map<Seq<char>, Seq<char>>>,
    c: Colors,
    name_a: Seq<char>,
    name_b: Seq<char>,
)
    requires
        is_extended_outcome(o, pa, pa, all, all, c, name_a, name_b),
    ensures
        o.identical,
        o.report@.len() == 0,
{
    lemma_difference_empty(strings_of(o.removed@), pa, pa);
    lemma_difference_empty(strings_of(o.added@), pa, pa);
    assert(pa.to_set().subset_of(pa.to_set()));
    lemma_no_field_diffs_with_itself(sorted_of(pa.to_set().filter(|x: Seq<char>| pa.contains(x))), all);
    assert(o.removed@.len() == strings_of(o.removed@).len());
    assert(o.added@.len() == strings_of(o.added@).len());
    assert(o.changed@.len() == element_changes_view(o.changed@).len());
}

/// The extended comparison reports the same removed and added paths as the
/// structural one, and finds the documents identical only where the
/// structural comparison does and no field changed.
pub proof fn lemma_extended_extends_structural(
    o1: DiffOutcome,
    o2: ExtendedDiffOutcome,
    pa: Seq<Seq<char>>,
    pb: Seq<Seq<char>>,
    all_a: Map<Seq<char>, Map<Seq<char>, Seq<char>>>,
    all_b: Map<Seq<char>, Map<Seq<char>, Seq<char>>>,
    c: Colors,
    name_a: Seq<char>,
    name_b: Seq<char>,
)
    requires
        is_diff_outcome(o1, pa, pb, c, name_a, name_b),
        is_extended_outcome(o2, pa, pb, all_a, all_b, c, name_a, name_b),
    ensures
        strings_of(o1.removed@) == strings_of(o2.removed@),
        strings_of(o1.added@) == strings_of(o2.added@),
        o2.identical <==> (o1.identical && o2.changed@.len() == 0),
{
    lemma_strictly_sorted_unique(strings_of(o1.removed@), strings_of(o2.removed@));
    lemma_strictly_sorted_unique(strings_of(o1.added@), strings_of(o2.added@));
    assert(o1.removed@.len() == strings_of(o1.removed@).len());
    assert(o2.removed@.len() == strings_of(o2.removed@).len());
    assert(o1.added@.len() == strings_of(o1.added@).len());
    assert(o2.added@.len() == strings_of(o2.added@).len());
}

/// Every reported field change names a field whose values differ.
pub proof fn lemma_reported_changes_differ(
    fa: Map<Seq<char>, Seq<char>>,
    fb: Map<Seq<char>, Seq<char>>,
    tags: Seq<Seq<char>>,
)
    ensures
        forall|i: int|
            0 <= i < changes_over(fa, fb, tags).len() ==> {
                let ch = #[trigger] changes_over(fa, fb, tags)[i];
                &&& ch.1 == field_value(fa, ch.0)
                &&& ch.2 == field_value(fb, ch.0)
                &&& ch.1 != ch.2
                &&& tags.contains(ch.0)
            },
    decreases tags.len(),
{
    if tags.len() > 0 {
        let prev = tags.drop_last();
        lemma_reported_changes_differ(fa, fb, prev);
        assert forall|i: int| 0 <= i < changes_over(fa, fb, tags).len() implies {
            let ch = #[trigger] changes_over(fa, fb, tags)[i];
            &&& ch.1 == field_value(fa, ch.0)
            &&& ch.2 == field_value(fb, ch.0)
            &&& ch.1 != ch.2
            &&& tags.contains(ch.0)
        } by {
            if i < changes_over(fa, fb, prev).len() {
                let ch = changes_over(fa, fb, prev)[i];
                assert(changes_over(fa, fb, tags)[i] == ch);
                let k = choose|k: int| 0 <= k < prev.len() && prev[k] == ch.0;
                assert(tags[k] == ch.0);
            } else {
                assert(tags[tags.len() - 1] == tags.last());
            }
        }
    }
}

/// The positions in the unfiltered path list of the paths under a filter.
proof fn filtered_picks(nodes: Seq<NodeV>, k: nat, filter: Option<Seq<char>>) -> (f: Seq<int>)
    ensures
        picks(f, structure_paths(nodes, k, filter), structure_paths(nodes, k, None)),
    decreases k,
{
    if k == 0 {
        Seq::empty()
    } else {
        let g = filtered_picks(nodes, (k - 1) as nat, filter);
        let prev = structure_paths(nodes, (k - 1) as nat, filter);
        let all_prev = structure_paths(nodes, (k - 1) as nat, None);
        let full = full_path_of(nodes, k - 1);
        if diff_selects(nodes, k - 1) {
            lemma_picks_push(g, prev, all_prev, full);
            if filter matches Some(p) ==> under_pattern(full, p) {
                g.push(all_prev.len() as int)
            } else {
                g
            }
        } else {
            g
        }
    }
}

/// A filter only leaves paths out: the compared paths under a filter are
/// the unfiltered ones with some dropped, the rest in the same order.
pub proof fn lemma_filtered_paths_are_subsequence(nodes: Seq<NodeV>, filter: Option<Seq<char>>)
    ensures
        is_subsequence(
            all_structure_paths(nodes, filter),
            all_structure_paths(nodes, None),
        ),
{
    let f = filtered_picks(nodes, nodes.len(), filter);
}

/// No change is found over `tags` exactly when every tag among them has the
/// same value on both sides.
proof fn lemma_changes_over_empty(
    fa: Map<Seq<char>, Seq<char>>,
    fb: Map<Seq<char>, Seq<char>>,
    tags: Seq<Seq<char>>,
)
    ensures
        changes_over(fa, fb, tags).len() == 0 <==> forall|i: int|
            0 <= i < tags.len() ==> field_value(fa, #[trigger] tags[i]) == field_value(fb, tags[i]),
    decreases tags.len(),
{
    if tags.len() > 0 {
        let p = tags.drop_last();
        lemma_changes_over_empty(fa, fb, p);
        assert forall|i: int| 0 <= i < p.len() implies #[trigger] p[i] == tags[i] by {}
        if changes_over(fa, fb, tags).len() == 0 {
            assert forall|i: int| 0 <= i < tags.len() implies field_value(fa, #[trigger] tags[i])
                == field_value(fb, tags[i]) by {
                if i < p.len() {
                    assert(p[i] == tags[i]);
                }
            }
        }
        if forall|i: int|
            0 <= i < tags.len() ==> field_value(fa, #[trigger] tags[i]) == field_value(fb, tags[i]) {
            assert(field_value(fa, tags[tags.len() - 1]) == field_value(fb, tags[tags.len() - 1]));
            assert forall|i: int| 0 <= i < p.len() implies field_value(fa, #[trigger] p[i])
                == field_value(fb, p[i]) by {
                assert(p[i] == tags[i]);
            }
        }
    }
}

/// Two finite field maps have no changed field exactly when every tag has
/// the same value in both (a missing field reading as empty).
pub proof fn lemma_element_changes_empty(fa: Map<Seq<char>, Seq<char>>, fb: Map<Seq<char>, Seq<char>>)
    requires
        fa.dom().finite(),
        fb.dom().finite(),
    ensures
        element_changes(fa, fb).len() == 0 <==> forall|t: Seq<char>| field_value(fa, t)
            == field_value(fb, t),
{
    let u = fa.dom().union(fb.dom());
    lemma_sorted_of(u);
    let tags = sorted_of(u);
    lemma_changes_over_empty(fa, fb, tags);
    if element_changes(fa, fb).len() == 0 {
        assert forall|t: Seq<char>| field_value(fa, t) == field_value(fb, t) by {
            if u.contains(t) {
                assert(tags.to_set().contains(t));
                let i = choose|i: int| 0 <= i < tags.len() && tags[i] == t;
                assert(field_value(fa, tags[i]) == field_value(fb, tags[i]));
            }
        }
    }
}

/// No element changed exactly when every path of `common` has no changed
/// field.
proof fn lemma_field_diffs_empty(
    common: Seq<Seq<char>>,
    all_a: Map<Seq<char>, Map<Seq<char>, Seq<char>>>,
    all_b: Map<Seq<char>, Map<Seq<char>, Seq<char>>>,
)
    ensures
        field_diffs(common, all_a, all_b).len() == 0 <==> forall|i: int|
            0 <= i < common.len() ==> element_changes(
                fields_at(all_a, normalise(#[trigger] common[i])),
                fields_at(all_b, normalise(common[i])),
            ).len() == 0,
    decreases common.len(),
{
    if common.len() > 0 {
        let p = common.drop_last();
        lemma_field_diffs_empty(p, all_a, all_b);
        assert forall|i: int| 0 <= i < p.len() implies #[trigger] p[i] == common[i] by {}
        if field_diffs(common, all_a, all_b).len() == 0 {
            assert forall|i: int| 0 <= i < common.len() implies element_changes(
                fields_at(all_a, normalise(#[trigger] common[i])),
                fields_at(all_b, normalise(common[i])),
            ).len() == 0 by {
                if i < p.len() {
                    assert(p[i] == common[i]);
                }
            }
        }
        if forall|i: int|
            0 <= i < common.len() ==> element_changes(
                fields_at(all_a, normalise(#[trigger] common[i])),
                fields_at(all_b, normalise(common[i])),
            ).len() == 0 {
            let l = common[common.len() - 1];
            assert(element_changes(fields_at(all_a, normalise(l)), fields_at(all_b, normalise(l))).len() == 0);
            assert forall|i: int| 0 <= i < p.len() implies element_changes(
                fields_at(all_a, normalise(#[trigger] p[i])),
                fields_at(all_b, normalise(p[i])),
            ).len() == 0 by {
                assert(p[i] == common[i]);
            }
        }
    }
}

/// The extended comparison reports the documents identical exactly when
/// they have the same compared paths and every path of both has, for every
/// tag, the same field value in both (a missing field reading as empty).
pub proof fn lemma_extended_identical_iff(
    o: ExtendedDiffOutcome,
    pa: Seq<Seq<char>>,
    pb: Seq<Seq<char>>,
    all_a: Map<Seq<char>, Map<Seq<char>, Seq<char>>>,
    all_b: Map<Seq<char>, Map<Seq<char>, Seq<char>>>,
    c: Colors,
    name_a: Seq<char>,
    name_b: Seq<char>,
)
    requires
        is_extended_outcome(o, pa, pb, all_a, all_b, c, name_a, name_b),
        fields_finite(all_a),
        fields_finite(all_b),
    ensures
        o.identical <==> (pa.to_set() == pb.to_set() && forall|p: Seq<char>, t: Seq<char>|
            pa.contains(p) && pb.contains(p) ==> field_value(
                fields_at(all_a, normalise(p)),
                t,
            ) == #[trigger] field_value(fields_at(all_b, normalise(p)), t)),
{
    let s = pa.to_set().filter(|x: Seq<char>| pb.contains(x));
    assert(s.subset_of(pa.to_set()));
    vstd::set_lib::lemma_len_subset(s, pa.to_set());
    lemma_sorted_of(s);
    let common = sorted_of(s);
    lemma_field_diffs_empty(common, all_a, all_b);
    lemma_difference_empty(strings_of(o.removed@), pa, pb);
    lemma_difference_empty(strings_of(o.added@), pb, pa);
    assert(o.removed@.len() == strings_of(o.removed@).len());
    assert(o.added@.len() == strings_of(o.added@).len());
    assert(o.changed@.len() == element_changes_view(o.changed@).len());
    let all_equal = forall|p: Seq<char>, t: Seq<char>|
        pa.contains(p) && pb.contains(p) ==> field_value(fields_at(all_a, normalise(p)), t)
            == #[trigger] field_value(fields_at(all_b, normalise(p)), t);
    assert forall|p: Seq<char>| #[trigger] s.contains(p) implies fields_at(
        all_a,
        normalise(p),
    ).dom().finite() && fields_at(all_b, normalise(p)).dom().finite() by {
        if all_a.dom().contains(normalise(p)) {
            assert(all_a[normalise(p)].dom().finite());
        }
        if all_b.dom().contains(normalise(p)) {
            assert(all_b[normalise(p)].dom().finite());
        }
    }
    if o.identical {
        assert(pa.to_set() =~= pb.to_set()) by {
            assert(pa.to_set().subset_of(pb.to_set()));
            assert(pb.to_set().subset_of(pa.to_set()));
        }
        assert forall|p: Seq<char>, t: Seq<char>| pa.contains(p) && pb.contains(p) implies field_value(
            fields_at(all_a, normalise(p)),
            t,
        ) == #[trigger] field_value(fields_at(all_b, normalise(p)), t) by {
            assert(pa.to_set().contains(p));
            assert(s.contains(p));
            assert(common.to_set().contains(p));
            let i = choose|i: int| 0 <= i < common.len() && common[i] == p;
            assert(element_changes(fields_at(all_a, normalise(common[i])), fields_at(all_b, normalise(common[i]))).len() == 0);
            lemma_element_changes_empty(fields_at(all_a, normalise(p)), fields_at(all_b, normalise(p)));
        }
    }
    if pa.to_set() == pb.to_set() && all_equal {
        assert(pa.to_set().subset_of(pb.to_set()));
        assert(pb.to_set().subset_of(pa.to_set()));
        assert forall|i: int| 0 <= i < common.len() implies element_changes(
            fields_at(all_a, normalise(#[trigger] common[i])),
            fields_at(all_b, normalise(common[i])),
        ).len() == 0 by {
            let p = common[i];
            assert(common.to_set().contains(p));
            assert(s.contains(p));
            lemma_element_changes_empty(fields_at(all_a, normalise(p)), fields_at(all_b, normalise(p)));
            assert forall|t: Seq<char>| field_value(fields_at(all_a, normalise(p)), t) == field_value(
                fields_at(all_b, normalise(p)),
                t,
            ) by {
                assert(pa.contains(p) && pb.contains(p));
            }
        }
    }
}

/// The paths under a filter occur no more often than the unfiltered ones.
proof fn lemma_filtered_sub_multiset(nodes: Seq<NodeV>, k: nat, filter: Option<Seq<char>>)
    ensures
        structure_paths(nodes, k, filter).to_multiset().subset_of(
            structure_paths(nodes, k, None).to_multiset(),
        ),
    decreases k,
{
    broadcast use vstd::seq_lib::group_to_multiset_ensures, vstd::multiset::group_multiset_axioms;

    if k > 0 {
        lemma_filtered_sub_multiset(nodes, (k - 1) as nat, filter);
        let prev = structure_paths(nodes, (k - 1) as nat, filter);
        let all_prev = structure_paths(nodes, (k - 1) as nat, None);
        let full = full_path_of(nodes, k - 1);
        if diff_selects(nodes, k - 1) {
            assert forall|v: Seq<char>| structure_paths(nodes, k, filter).to_multiset().count(v)
                <= structure_paths(nodes, k, None).to_multiset().count(v) by {
                assert(prev.to_multiset().count(v) <= all_prev.to_multiset().count(v));
            }
        }
    }
}

/// The sorted path list under a filter (as `collect_all_paths` returns it)
/// is the sorted unfiltered list with some paths left out.
pub proof fn lemma_sorted_filtered_paths_are_subsequence(
    nodes: Seq<NodeV>,
    filter: Option<Seq<char>>,
    x: Seq<Seq<char>>,
    y: Seq<Seq<char>>,
)
    requires
        is_sorted(x),
        x.to_multiset() == all_structure_paths(nodes, filter).to_multiset(),
        is_sorted(y),
        y.to_multiset() == all_structure_paths(nodes, None).to_multiset(),
    ensures
        is_subsequence(x, y),
{
    lemma_filtered_sub_multiset(nodes, nodes.len(), filter);
    lemma_sorted_sub_multiset_is_subsequence(x, y);
}

/// Without colours: one line `{sign} {path}` per path.
pub open spec fn plain_path_lines(sign: Seq<char>, paths: Seq<Seq<char>>) -> Seq<char>
    decreases paths.len(),
{
    if paths.len() == 0 {
        Seq::empty()
    } else {
        plain_path_lines(sign, paths.drop_last()) + sign + " "@ + paths.last() + "\n"@
    }
}

/// Without colours: the lines of changed fields, `  + tag: new`,
/// `  - tag: old`, or both.
pub open spec fn plain_change_lines(changes: Seq<(Seq<char>, Seq<char>, Seq<char>)>) -> Seq<char>
    decreases changes.len(),
{
    if changes.len() == 0 {
        Seq::empty()
    } else {
        let (tag, old, new) = changes.last();
        let minus = "  - "@ + tag + ": "@ + old + "\n"@;
        let plus = "  + "@ + tag + ": "@ + new + "\n"@;
        plain_change_lines(changes.drop_last()) + if old.len() == 0 {
            plus
        } else if new.len() == 0 {
            minus
        } else {
            minus + plus
        }
    }
}

/// Without colours: a `~ path` line per changed element, then its fields.
pub open spec fn plain_changed_lines(
    diffs: Seq<(Seq<char>, Seq<(Seq<char>, Seq<char>, Seq<char>)>)>,
) -> Seq<char>
    decreases diffs.len(),
{
    if diffs.len() == 0 {
        Seq::empty()
    } else {
        let (p, changes) = diffs.last();
        plain_changed_lines(diffs.drop_last()) + "~ "@ + p + "\n"@ + plain_change_lines(changes)
    }
}

/// All four escape sequences are empty.
pub open spec fn no_colours(c: Colors) -> bool {
    &&& c.red@ == Seq::<char>::empty()
    &&& c.green@ == Seq::<char>::empty()
    &&& c.yellow@ == Seq::<char>::empty()
    &&& c.reset@ == Seq::<char>::empty()
}

proof fn lemma_plain_path_lines(c: Colors, color: Seq<char>, sign: Seq<char>, paths: Seq<Seq<char>>)
    requires
        no_colours(c),
        color == Seq::<char>::empty(),
    ensures
        path_lines(color, c.reset@, sign, paths) == plain_path_lines(sign, paths),
    decreases paths.len(),
{
    if paths.len() > 0 {
        lemma_plain_path_lines(c, color, sign, paths.drop_last());
        let prev = plain_path_lines(sign, paths.drop_last());
        assert(path_lines(color, c.reset@, sign, paths) =~= prev + sign + " "@ + paths.last() + "\n"@);
    }
}

proof fn lemma_plain_change_lines(c: Colors, changes: Seq<(Seq<char>, Seq<char>, Seq<char>)>)
    requires
        no_colours(c),
    ensures
        change_lines(c, changes) == plain_change_lines(changes),
    decreases changes.len(),
{
    if changes.len() > 0 {
        lemma_plain_change_lines(c, changes.drop_last());
        let (tag, old, new) = changes.last();
        assert(c.red@ + "  - "@ + tag + ": "@ + old + c.reset@ + "\n"@ =~= "  - "@ + tag + ": "@ + old
            + "\n"@);
        assert(c.green@ + "  + "@ + tag + ": "@ + new + c.reset@ + "\n"@ =~= "  + "@ + tag + ": "@
            + new + "\n"@);
    }
}

proof fn lemma_plain_changed_lines(
    c: Colors,
    diffs: Seq<(Seq<char>, Seq<(Seq<char>, Seq<char>, Seq<char>)>)>,
)
    requires
        no_colours(c),
    ensures
        changed_lines(c, diffs) == plain_changed_lines(diffs),
    decreases diffs.len(),
{
    if diffs.len() > 0 {
        lemma_plain_changed_lines(c, diffs.drop_last());
        let (p, changes) = diffs.last();
        lemma_plain_change_lines(c, changes);
        lemma_plain_path_lines(c, c.yellow@, "~"@, seq![p]);
        reveal_strlit("~");
        reveal_strlit(" ");
        reveal_strlit("~ ");
        assert(seq![p].drop_last() =~= Seq::<Seq<char>>::empty());
        assert(plain_path_lines("~"@, seq![p]) == plain_path_lines("~"@, Seq::<Seq<char>>::empty())
            + "~"@ + " "@ + p + "\n"@);
        assert(("~"@ + " "@) =~= "~ "@);
        assert(plain_path_lines("~"@, seq![p]) =~= "~ "@ + p + "\n"@);
    }
}

/// Without colours, the extended report is empty for identical documents;
/// otherwise it is `--- a`, `+++ b`, a blank line, `- path` for each removed
/// path, `+ path` for each added one, then `~ path` for each changed element
/// followed by its changed fields (`  + tag: new` where the first document
/// has no value, `  - tag: old` where the second has none, both otherwise).
pub proof fn lemma_extended_report_without_colours(
    o: ExtendedDiffOutcome,
    pa: Seq<Seq<char>>,
    pb: Seq<Seq<char>>,
    all_a: Map<Seq<char>, Map<Seq<char>, Seq<char>>>,
    all_b: Map<Seq<char>, Map<Seq<char>, Seq<char>>>,
    c: Colors,
    name_a: Seq<char>,
    name_b: Seq<char>,
)
    requires
        is_extended_outcome(o, pa, pb, all_a, all_b, c, name_a, name_b),
        no_colours(c),
    ensures
        o.report@ == if o.identical {
            Seq::empty()
        } else {
            "--- "@ + name_a + "\n"@ + "+++ "@ + name_b + "\n"@ + "\n"@ + plain_path_lines(
                "-"@,
                strings_of(o.removed@),
            ) + plain_path_lines("+"@, strings_of(o.added@)) + plain_changed_lines(
                element_changes_view(o.changed@),
            )
        },
{
    lemma_plain_path_lines(c, c.red@, "-"@, strings_of(o.removed@));
    lemma_plain_path_lines(c, c.green@, "+"@, strings_of(o.added@));
    lemma_plain_changed_lines(c, element_changes_view(o.changed@));
    assert(report_head(c, name_a, name_b) =~= "--- "@ + name_a + "\n"@ + "+++ "@ + name_b + "\n"@
        + "\n"@);
}

/// `diff` compares packages at any depth and the direct elements of
/// packages, nothing deeper: a path is compared exactly when it is the full
/// path of a node that is an `AR-PACKAGE` or whose parent is one, and that
/// lies under the filter (if any).
pub proof fn lemma_compared_paths(nodes: Seq<NodeV>, filter: Option<Seq<char>>, x: Seq<char>)
    ensures
        all_structure_paths(nodes, filter).contains(x) <==> exists|i: int|
            0 <= i < nodes.len() && #[trigger] full_path_of(nodes, i) == x && (nodes[i].tag
                == "AR-PACKAGE"@ || (nodes[i].parent matches Some(p) && nodes[p as int].tag
                == "AR-PACKAGE"@)) && (filter matches Some(f) ==> under_pattern(x, f)),
{
    lemma_compared_paths_upto(nodes, nodes.len(), filter, x);
}

proof fn lemma_compared_paths_upto(nodes: Seq<NodeV>, k: nat, filter: Option<Seq<char>>, x: Seq<char>)
    requires
        k <= nodes.len(),
    ensures
        structure_paths(nodes, k, filter).contains(x) <==> exists|i: int|
            0 <= i < k && #[trigger] full_path_of(nodes, i) == x && (nodes[i].tag == "AR-PACKAGE"@
                || (nodes[i].parent matches Some(p) && nodes[p as int].tag == "AR-PACKAGE"@)) && (
            filter matches Some(f) ==> under_pattern(x, f)),
    decreases k,
{
    if k > 0 {
        lemma_compared_paths_upto(nodes, (k - 1) as nat, filter, x);
        let prev = structure_paths(nodes, (k - 1) as nat, filter);
        let cur = structure_paths(nodes, k, filter);
        let full = full_path_of(nodes, k - 1);
        if cur.contains(x) {
            let j = choose|j: int| 0 <= j < cur.len() && cur[j] == x;
            if j < prev.len() {
                assert(prev[j] == x);
            }
        }
        if exists|i: int|
            0 <= i < k && #[trigger] full_path_of(nodes, i) == x && (nodes[i].tag == "AR-PACKAGE"@
                || (nodes[i].parent matches Some(p) && nodes[p as int].tag == "AR-PACKAGE"@)) && (
            filter matches Some(f) ==> under_pattern(x, f)) {
            let i = choose|i: int|
                0 <= i < k && #[trigger] full_path_of(nodes, i) == x && (nodes[i].tag
                    == "AR-PACKAGE"@ || (nodes[i].parent matches Some(p) && nodes[p as int].tag
                    == "AR-PACKAGE"@)) && (filter matches Some(f) ==> under_pattern(x, f));
            if i < k - 1 {
                let j = choose|j: int| 0 <= j < prev.len() && prev[j] == x;
                assert(cur[j] == x);
            } else {
                assert(cur[cur.len() - 1] == x);
            }
        }
    }
}

} // verus!
