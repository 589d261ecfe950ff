//! `arx cp`: copy one or more `AR-PACKAGE`s out of an ARXML file into new
//! output file(s), optionally writing everything else to a `--rest` file.
use vstd::prelude::*;

use crate::range::{
    collect_ranges, collect_root_attrs, kind_selects, lemma_range_found, lemma_range_origin,
    lemma_ranges_within, pairs_view, ranges_of, ranges_view, root_attrs_from, PackageRange,
    RangeKind, RangeV,
};
use crate::text::{
    chars_eq, chars_eq_str, chars_of, normalise, normalise_path, strings_of, strip_slashes,
};
use crate::tree::{build_tree, full_path_of, nodes_wf, spec_tree, tagged_starts_distinct, NodeV};
use crate::util::{
    append_range, append_str, footer_bytes, header_bytes, utf8, write_arxml_footer,
    write_arxml_header,
};
use crate::xml::input_tokens;

verus! {

/// One output group for cp: a list of package paths and the target file.
pub struct CpGroup {
    pub packages: Vec<String>,
    pub output: String,
}

/// The view of a [`CpGroup`].
pub ghost struct CpGroupV {
    pub packages: Seq<Seq<char>>,
    pub output: Seq<char>,
}

impl View for CpGroup {
    type V = CpGroupV;

    open spec fn view(&self) -> CpGroupV {
        CpGroupV { packages: strings_of(self.packages@), output: self.output@ }
    }
}

/// The views of a list of groups.
pub open spec fn groups_view(v: Seq<CpGroup>) -> Seq<CpGroupV> {
    v.map_values(|g: CpGroup| g@)
}

/// Why the arguments of `cp` were refused.
pub enum CpArgsError {
    /// `--into` was the last argument.
    IntoWithoutFile,
    /// `--rest` was the last argument.
    RestWithoutFile,
    /// These packages were not followed by an `--into`.
    PackagesWithoutTarget(Vec<String>),
}

/// The view of a [`CpArgsError`].
pub ghost enum CpArgsErrorV {
    IntoWithoutFile,
    RestWithoutFile,
    PackagesWithoutTarget(Seq<Seq<char>>),
}

impl View for CpArgsError {
    type V = CpArgsErrorV;

    open spec fn view(&self) -> CpArgsErrorV {
        match self {
            CpArgsError::IntoWithoutFile => CpArgsErrorV::IntoWithoutFile,
            CpArgsError::RestWithoutFile => CpArgsErrorV::RestWithoutFile,
            CpArgsError::PackagesWithoutTarget(p) => CpArgsErrorV::PackagesWithoutTarget(
                strings_of(p@),
            ),
        }
    }
}

/// Every path normalised.
pub open spec fn normalise_each(v: Seq<Seq<char>>) -> Seq<Seq<char>> {
    v.map_values(|s: Seq<char>| normalise(s))
}

/// The meaning of `args[i..]` for `cp`, given the groups and `--rest` file
/// so far and the packages still waiting for an `--into`: each package
/// argument waits; `--into <file>` makes a group of the waiting packages
/// (normalised) and that file; `--rest <file>` sets the rest file (the last
/// one counts); packages left waiting at the end are an error.
pub open spec fn cp_args_from(
    args: Seq<Seq<char>>,
    i: int,
    groups: Seq<CpGroupV>,
    rest: Option<Seq<char>>,
    pending: Seq<Seq<char>>,
) -> Result<(Seq<CpGroupV>, Option<Seq<char>>), CpArgsErrorV>
    decreases args.len() - i,
{
    if i < 0 || i >= args.len() {
        if pending.len() > 0 {
            Err(CpArgsErrorV::PackagesWithoutTarget(pending))
        } else {
            Ok((groups, rest))
        }
    } else if args[i] == "--into"@ {
        if i + 1 >= args.len() {
            Err(CpArgsErrorV::IntoWithoutFile)
        } else {
            cp_args_from(
                args,
                i + 2,
                groups.push(CpGroupV { packages: normalise_each(pending), output: args[i + 1] }),
                rest,
                Seq::empty(),
            )
        }
    } else if args[i] == "--rest"@ {
        if i + 1 >= args.len() {
            Err(CpArgsErrorV::RestWithoutFile)
        } else {
            cp_args_from(args, i + 2, groups, Some(args[i + 1]), pending)
        }
    } else {
        cp_args_from(args, i + 1, groups, rest, pending.push(args[i]))
    }
}

/// Parse arguments after `cp <input>`:
/// `<pkg1> [<pkg2>...] --into <out1> [<pkg3>...] --into <out2> [--rest <rest>]`
pub fn parse_cp_args(args: &[String]) -> (r: Result<(Vec<CpGroup>, Option<String>), CpArgsError>)
    ensures
        match r {
            Ok((groups, rest)) => cp_args_from(strings_of(args@), 0, Seq::empty(), None, Seq::empty())
                == Ok::<_, CpArgsErrorV>(
                (
                    groups_view(groups@),
                    match rest {
                        Some(s) => Some(s@),
                        None => None,
                    },
                ),
            ),
            Err(e) => cp_args_from(strings_of(args@), 0, Seq::empty(), None, Seq::empty()) == Err::<
                (Seq<CpGroupV>, Option<Seq<char>>),
                _,
            >(e@),
        },
{
    let ghost a = strings_of(args@);
    let mut groups: Vec<CpGroup> = Vec::new();
    let mut rest_file: Option<String> = None;
    let mut pending_pkgs: Vec<String> = Vec::new();
    let mut i: usize = 0;
    assert(groups_view(groups@) =~= Seq::<CpGroupV>::empty());
    assert(strings_of(pending_pkgs@) =~= Seq::<Seq<char>>::empty());

    while i < args.len()
        invariant
            a == strings_of(args@),
            0 <= i <= args@.len(),
            cp_args_from(a, 0, Seq::empty(), None, Seq::empty()) == cp_args_from(
                a,
                i as int,
                groups_view(groups@),
                match rest_file {
                    Some(s) => Some(s@),
                    None => None,
                },
                strings_of(pending_pkgs@),
            ),
        decreases args@.len() - i,
    {
        let arg = chars_of(args[i].as_str());
        assert(arg@ == a[i as int]);
        if chars_eq_str(&arg, "--into") {
            if i + 1 >= args.len() {
                return Err(CpArgsError::IntoWithoutFile);
            }
            let mut packages: Vec<String> = Vec::new();
            let mut k: usize = 0;
            while k < pending_pkgs.len()
                invariant
                    0 <= k <= pending_pkgs@.len(),
                    strings_of(packages@) == normalise_each(strings_of(pending_pkgs@)).take(
                        k as int,
                    ),
                decreases pending_pkgs@.len() - k,
            {
                let ghost prev = strings_of(packages@);
                packages.push(normalise_path(pending_pkgs[k].as_str()));
                assert(strings_of(packages@) =~= prev.push(normalise(pending_pkgs@[k as int]@)));
                assert(normalise_each(strings_of(pending_pkgs@)).take(k + 1) =~= normalise_each(
                    strings_of(pending_pkgs@),
                ).take(k as int).push(normalise(pending_pkgs@[k as int]@)));
                k = k + 1;
            }
            assert(normalise_each(strings_of(pending_pkgs@)).take(pending_pkgs@.len() as int)
                =~= normalise_each(strings_of(pending_pkgs@)));
            let ghost prev_groups = groups_view(groups@);
            let group = CpGroup { packages, output: args[i + 1].clone() };
            groups.push(group);
            assert(groups_view(groups@) =~= prev_groups.push(
                CpGroupV {
                    packages: normalise_each(strings_of(pending_pkgs@)),
                    output: a[i + 1],
                },
            ));
            pending_pkgs = Vec::new();
            assert(strings_of(pending_pkgs@) =~= Seq::<Seq<char>>::empty());
            i = i + 2;
        } else if chars_eq_str(&arg, "--rest") {
            if i + 1 >= args.len() {
                return Err(CpArgsError::RestWithoutFile);
            }
            rest_file = Some(args[i + 1].clone());
            i = i + 2;
        } else {
            let ghost prev = strings_of(pending_pkgs@);
            pending_pkgs.push(args[i].clone());
            assert(strings_of(pending_pkgs@) =~= prev.push(a[i as int]));
            i = i + 1;
        }
    }

    if pending_pkgs.len() > 0 {
        return Err(CpArgsError::PackagesWithoutTarget(pending_pkgs));
    }
    Ok((groups, rest_file))
}

/// The package paths of all groups, in order.
pub open spec fn all_targets(groups: Seq<CpGroupV>) -> Seq<Seq<char>>
    decreases groups.len(),
{
    if groups.len() == 0 {
        Seq::empty()
    } else {
        all_targets(groups.drop_last()) + groups.last().packages
    }
}

/// The range found for `path`; where several have that path, the last one.
pub open spec fn lookup_range(ranges: Seq<RangeV>, path: Seq<char>) -> Option<RangeV>
    decreases ranges.len(),
{
    if ranges.len() == 0 {
        None
    } else if ranges.last().path == path {
        Some(ranges.last())
    } else {
        lookup_range(ranges.drop_last(), path)
    }
}

/// The copied blocks of a group: for each of its packages that was found,
/// its bytes followed by a newline.
pub open spec fn group_body(raw: Seq<u8>, ranges: Seq<RangeV>, pkgs: Seq<Seq<char>>) -> Seq<u8>
    decreases pkgs.len(),
{
    if pkgs.len() == 0 {
        Seq::empty()
    } else {
        group_body(raw, ranges, pkgs.drop_last()) + match lookup_range(ranges, pkgs.last()) {
            Some(r) => raw.subrange(r.start as int, r.end as int) + utf8("\n"@),
            None => Seq::empty(),
        }
    }
}

/// The packages of a group that were not found, in order.
pub open spec fn group_missing(ranges: Seq<RangeV>, pkgs: Seq<Seq<char>>) -> Seq<Seq<char>>
    decreases pkgs.len(),
{
    if pkgs.len() == 0 {
        Seq::empty()
    } else if lookup_range(ranges, pkgs.last()) is None {
        group_missing(ranges, pkgs.drop_last()).push(pkgs.last())
    } else {
        group_missing(ranges, pkgs.drop_last())
    }
}

/// The blocks of the rest file: every top-level package whose start is not
/// the start of a copied package, with a newline after each.
pub open spec fn rest_body(raw: Seq<u8>, matched: Seq<RangeV>, toplevel: Seq<RangeV>) -> Seq<u8>
    decreases toplevel.len(),
{
    if toplevel.len() == 0 {
        Seq::empty()
    } else {
        let t = toplevel.last();
        rest_body(raw, matched, toplevel.drop_last()) + if exists|i: int|
            0 <= i < matched.len() && #[trigger] matched[i].start == t.start {
            Seq::empty()
        } else {
            raw.subrange(t.start as int, t.end as int) + utf8("\n"@)
        }
    }
}

/// One output file of `cp`: its name, its bytes, and the packages of its
/// group that were not found in the input.
pub struct CpOutput {
    pub output: String,
    pub bytes: Vec<u8>,
    pub missing: Vec<String>,
}

/// Everything `cp` writes: one output per group, and the rest file if one
/// was asked for.
pub struct CpPlan {
    pub outputs: Vec<CpOutput>,
    pub rest: Option<Vec<u8>>,
}

/// Why `cp` stops without writing.
pub enum CpError {
    /// The input is not well-formed XML.
    Xml,
    /// None of the packages named in the groups exists in the input.
    NoMatchingPackages,
}

/// Whether `ranges` holds a range starting at `start`.
fn has_start(ranges: &Vec<PackageRange>, start: u64) -> (r: bool)
    ensures
        r == exists|i: int| 0 <= i < ranges@.len() && #[trigger] ranges_view(ranges@)[i].start == start,
{
    let mut k: usize = 0;
    while k < ranges.len()
        invariant
            0 <= k <= ranges@.len(),
            forall|x: int| 0 <= x < k ==> ranges_view(ranges@)[x].start != start,
        decreases ranges@.len() - k,
    {
        assert(ranges_view(ranges@)[k as int] == ranges@[k as int]@);
        if ranges[k].start == start {
            assert(ranges_view(ranges@)[k as int].start == start);
            return true;
        }
        k = k + 1;
    }
    false
}

/// The range found for `path` (the last one with that path).
fn find_range(ranges: &Vec<PackageRange>, path: &Vec<char>) -> (r: Option<usize>)
    ensures
        match r {
            Some(i) => i < ranges@.len() && lookup_range(ranges_view(ranges@), path@) == Some(
                ranges_view(ranges@)[i as int],
            ),
            None => lookup_range(ranges_view(ranges@), path@) is None,
        },
{
    let ghost rv = ranges_view(ranges@);
    let mut k = ranges.len();
    assert(rv.take(k as int) =~= rv);
    while k > 0
        invariant
            rv == ranges_view(ranges@),
            0 <= k <= ranges@.len(),
            lookup_range(rv, path@) == lookup_range(rv.take(k as int), path@),
        decreases k,
    {
        assert(rv.take(k as int).drop_last() =~= rv.take(k - 1));
        assert(rv.take(k as int).last() == ranges@[k - 1]@);
        let p = chars_of(ranges[k - 1].path.as_str());
        if chars_eq(&p, path) {
            return Some(k - 1);
        }
        k = k - 1;
    }
    None
}

/// The package paths of all groups, in order.
fn collect_targets(groups: &[CpGroup]) -> (r: Vec<String>)
    ensures
        strings_of(r@) == all_targets(groups_view(groups@)),
{
    let ghost gv = groups_view(groups@);
    let mut out: Vec<String> = Vec::new();
    let mut g: usize = 0;
    assert(gv.take(0) =~= Seq::<CpGroupV>::empty());
    while g < groups.len()
        invariant
            gv == groups_view(groups@),
            0 <= g <= groups@.len(),
            strings_of(out@) == all_targets(gv.take(g as int)),
        decreases groups@.len() - g,
    {
        let ghost before = strings_of(out@);
        let pkgs = &groups[g].packages;
        let mut k: usize = 0;
        while k < pkgs.len()
            invariant
                0 <= k <= pkgs@.len(),
                strings_of(out@) == before + strings_of(pkgs@).take(k as int),
            decreases pkgs@.len() - k,
        {
            let ghost prev = strings_of(out@);
            out.push(pkgs[k].clone());
            assert(strings_of(out@) =~= prev.push(pkgs@[k as int]@));
            assert(strings_of(pkgs@).take(k + 1) =~= strings_of(pkgs@).take(k as int).push(
                pkgs@[k as int]@,
            ));
            k = k + 1;
        }
        assert(strings_of(pkgs@).take(pkgs@.len() as int) =~= strings_of(pkgs@));
        assert(gv.take(g + 1).drop_last() =~= gv.take(g as int));
        assert(gv.take(g + 1).last() == groups@[g as int]@);
        proof {
            lemma_targets_step(gv, g as int);
        }
        g = g + 1;
    }
    assert(gv.take(groups@.len() as int) =~= gv);
    out
}

/// Unfolds [`all_targets`] by one group.
proof fn lemma_targets_step(gv: Seq<CpGroupV>, g: int)
    requires
        0 <= g < gv.len(),
    ensures
        all_targets(gv.take(g + 1)) == all_targets(gv.take(g)) + gv[g].packages,
{
    assert(gv.take(g + 1).drop_last() =~= gv.take(g));
}

/// Writes one group's file: the header, each found package's block and a
/// newline, and the footer; also reports the packages not found.
fn write_group(
    raw: &[u8],
    attrs: &Vec<(String, String)>,
    ranges: &Vec<PackageRange>,
    group: &CpGroup,
) -> (r: CpOutput)
    requires
        forall|i: int|
            0 <= i < ranges@.len() ==> #[trigger] ranges_view(ranges@)[i].start <= ranges_view(
                ranges@,
            )[i].end <= raw@.len(),
    ensures
        r.output@ == group.output@,
        r.bytes@ == header_bytes(pairs_view(attrs@)) + group_body(
            raw@,
            ranges_view(ranges@),
            group@.packages,
        ) + footer_bytes(),
        strings_of(r.missing@) == group_missing(ranges_view(ranges@), group@.packages),
{
    let ghost rv = ranges_view(ranges@);
    let ghost pk = group@.packages;
    let mut out: Vec<u8> = Vec::new();
    write_arxml_header(&mut out, attrs.as_slice());
    let ghost head = out@;
    let mut missing: Vec<String> = Vec::new();
    let mut k: usize = 0;
    assert(pk.take(0) =~= Seq::<Seq<char>>::empty());
    assert(head =~= Seq::<u8>::empty() + head);
    assert(strings_of(missing@) =~= group_missing(rv, pk.take(0)));
    while k < group.packages.len()
        invariant
            rv == ranges_view(ranges@),
            pk == group@.packages,
            pk.len() == group.packages@.len(),
            forall|i: int| 0 <= i < rv.len() ==> (#[trigger] rv[i]).start <= rv[i].end <= raw@.len(),
            0 <= k <= group.packages@.len(),
            head == header_bytes(pairs_view(attrs@)),
            out@ == head + group_body(raw@, rv, pk.take(k as int)),
            strings_of(missing@) == group_missing(rv, pk.take(k as int)),
        decreases group.packages@.len() - k,
    {
        let pkg = chars_of(group.packages[k].as_str());
        assert(pkg@ == pk[k as int]);
        assert(pk.take(k + 1).drop_last() =~= pk.take(k as int));
        let ghost prev_missing = strings_of(missing@);
        match find_range(ranges, &pkg) {
            Some(i) => {
                let ghost before = out@;
                assert(rv[i as int] == ranges@[i as int]@);
                let n = raw.len();
                let rs = ranges[i].start;
                let re = ranges[i].end;
                assert(rv[i as int].start <= rv[i as int].end <= raw@.len());
                assert(rs <= re <= n);
                let rsu = rs as usize;
                let reu = re as usize;
                assert(rsu == rs && reu == re);
                let ghost before = out@;
                append_range(&mut out, raw, rsu, reu);
                append_str(&mut out, "\n");
                assert(lookup_range(rv, pk[k as int]) == Some(rv[i as int]));
                assert(out@ =~= before + raw@.subrange(rs as int, re as int) + utf8("\n"@));
                assert(out@ =~= head + group_body(raw@, rv, pk.take(k + 1)));
            },
            None => {
                missing.push(group.packages[k].clone());
                assert(out@ =~= head + group_body(raw@, rv, pk.take(k + 1)));
                assert(strings_of(missing@) =~= prev_missing.push(pk[k as int]));
            },
        }
        k = k + 1;
    }
    assert(pk.take(pk.len() as int) =~= pk);
    write_arxml_footer(&mut out);
    CpOutput { output: group.output.clone(), bytes: out, missing }
}

/// The ranges of the packages that `groups` name, in document order.
pub open spec fn cp_ranges(nodes: Seq<NodeV>, groups: Seq<CpGroupV>) -> Seq<RangeV> {
    ranges_of(nodes, nodes.len(), RangeKind::Package, false, all_targets(groups))
}

/// The ranges of every top-level package, in document order.
pub open spec fn toplevel_ranges(nodes: Seq<NodeV>) -> Seq<RangeV> {
    ranges_of(nodes, nodes.len(), RangeKind::TopLevel, true, Seq::empty())
}

/// A top-level package is copied (some copied range starts where it does)
/// exactly when its path is one of the targets: it is then left out of the
/// rest file, and otherwise written to it.
proof fn lemma_rest_partition(nodes: Seq<NodeV>, targets: Seq<Seq<char>>)
    requires
        tagged_starts_distinct(nodes),
    ensures
        forall|k: int|
            0 <= k < toplevel_ranges(nodes).len() ==> ((exists|i: int|
                0 <= i < ranges_of(nodes, nodes.len(), RangeKind::Package, false, targets).len()
                    && ranges_of(nodes, nodes.len(), RangeKind::Package, false, targets)[i].start
                    == (#[trigger] toplevel_ranges(nodes)[k]).start) <==> targets.contains(
                toplevel_ranges(nodes)[k].path,
            )),
{
    let tl = toplevel_ranges(nodes);
    let cr = ranges_of(nodes, nodes.len(), RangeKind::Package, false, targets);
    assert forall|k: int| 0 <= k < tl.len() implies ((exists|i: int|
        0 <= i < cr.len() && cr[i].start == (#[trigger] tl[k]).start) <==> targets.contains(
        tl[k].path,
    )) by {
        lemma_range_origin(nodes, nodes.len(), RangeKind::TopLevel, true, Seq::empty(), k);
        let a = choose|a: int|
            0 <= a < nodes.len() && kind_selects(nodes, a, RangeKind::TopLevel) && (true
                || Seq::<Seq<char>>::empty().contains(strip_slashes(full_path_of(nodes, a))))
                && #[trigger] ranges_of(nodes, nodes.len(), RangeKind::TopLevel, true, Seq::empty())[k]
                == (RangeV {
                start: nodes[a].start,
                end: nodes[a].end,
                path: strip_slashes(full_path_of(nodes, a)),
            });
        reveal_strlit("AR-PACKAGE");
        assert(nodes[a].tag == "AR-PACKAGE"@ && nodes[a].tag.len() > 0);
        assert(tl[k].start == nodes[a].start && tl[k].path == strip_slashes(full_path_of(nodes, a)));
        if targets.contains(tl[k].path) {
            lemma_range_found(nodes, nodes.len(), RangeKind::Package, false, targets, a);
            let x = choose|x: int|
                0 <= x < cr.len() && #[trigger] ranges_of(nodes, nodes.len(), RangeKind::Package, false, targets)[x]
                    == (RangeV {
                    start: nodes[a].start,
                    end: nodes[a].end,
                    path: strip_slashes(full_path_of(nodes, a)),
                });
            assert(cr[x].start == tl[k].start);
        }
        if exists|i: int| 0 <= i < cr.len() && cr[i].start == tl[k].start {
            let i = choose|i: int| 0 <= i < cr.len() && cr[i].start == tl[k].start;
            lemma_range_origin(nodes, nodes.len(), RangeKind::Package, false, targets, i);
            let b = choose|b: int|
                0 <= b < nodes.len() && kind_selects(nodes, b, RangeKind::Package) && (false
                    || targets.contains(strip_slashes(full_path_of(nodes, b))))
                    && #[trigger] ranges_of(nodes, nodes.len(), RangeKind::Package, false, targets)[i]
                    == (RangeV {
                    start: nodes[b].start,
                    end: nodes[b].end,
                    path: strip_slashes(full_path_of(nodes, b)),
                });
            assert(nodes[b].tag == "AR-PACKAGE"@);
            if a < b {
                assert(nodes[a].start == nodes[b].start);
                assert(nodes[b].tag.len() == 0);
            } else if b < a {
                assert(nodes[b].start == nodes[a].start);
                assert(nodes[a].tag.len() == 0);
            }
            assert(a == b);
            assert(targets.contains(tl[k].path));
        }
    }
}

/// What `cp` writes for the document `input`: one file per group (the
/// header with the input's root attributes, the block of each found
/// package followed by a newline, the footer) and, when `with_rest`, a rest
/// file holding every top-level package that was not copied. Fails when the
/// input cannot be read as XML, or when none of the named packages exists.
pub fn cmd_cp(input: &[u8], groups: &[CpGroup], with_rest: bool) -> (r: Result<CpPlan, CpError>)
    ensures
        match r {
            Err(CpError::Xml) => spec_tree(input@) is None,
            Err(CpError::NoMatchingPackages) => spec_tree(input@) matches Some(nodes) && cp_ranges(
                nodes,
                groups_view(groups@),
            ).len() == 0,
            Ok(plan) => spec_tree(input@) matches Some(nodes) && {
                let ranges = cp_ranges(nodes, groups_view(groups@));
                let attrs = root_attrs_from(input_tokens(input@), 0);
                &&& ranges.len() > 0
                &&& plan.outputs@.len() == groups@.len()
                &&& forall|g: int|
                    0 <= g < groups@.len() ==> {
                        let out = #[trigger] plan.outputs@[g];
                        &&& out.output@ == groups@[g].output@
                        &&& out.bytes@ == header_bytes(attrs) + group_body(
                            input@,
                            ranges,
                            groups@[g]@.packages,
                        ) + footer_bytes()
                        &&& strings_of(out.missing@) == group_missing(
                            ranges,
                            groups@[g]@.packages,
                        )
                    }
                &&& match plan.rest {
                    Some(b) => with_rest && b@ == header_bytes(attrs) + rest_body(
                        input@,
                        ranges,
                        toplevel_ranges(nodes),
                    ) + footer_bytes(),
                    None => !with_rest,
                }
                &&& forall|k: int|
                    0 <= k < toplevel_ranges(nodes).len() ==> ((exists|i: int|
                        0 <= i < ranges.len() && ranges[i].start == (
                        #[trigger] toplevel_ranges(nodes)[k]).start) <==> all_targets(
                        groups_view(groups@),
                    ).contains(toplevel_ranges(nodes)[k].path))
            },
        },
{
    let targets = collect_targets(groups);
    let root_attrs = collect_root_attrs(input);
    let tree = match build_tree(input) {
        Some(t) => t,
        None => {
            return Err(CpError::Xml);
        },
    };
    let ghost nodes = tree@;
    let ghost len = input@.len();
    proof {
        lemma_rest_partition(nodes, strings_of(targets@));
    }
    let all_ranges = collect_ranges(&tree, RangeKind::Package, false, targets.as_slice());
    if all_ranges.len() == 0 {
        return Err(CpError::NoMatchingPackages);
    }
    let ghost rv = ranges_view(all_ranges@);
    proof {
        lemma_ranges_within(nodes, nodes.len(), RangeKind::Package, false, strings_of(targets@), len);
    }
    let mut outputs: Vec<CpOutput> = Vec::new();
    let mut g: usize = 0;
    while g < groups.len()
        invariant
            rv == ranges_view(all_ranges@),
            forall|i: int| 0 <= i < rv.len() ==> (#[trigger] rv[i]).start <= rv[i].end <= input@.len(),
            pairs_view(root_attrs@) == root_attrs_from(input_tokens(input@), 0),
            0 <= g <= groups@.len(),
            outputs@.len() == g,
            forall|x: int|
                0 <= x < g ==> {
                    let out = #[trigger] outputs@[x];
                    &&& out.output@ == groups@[x].output@
                    &&& out.bytes@ == header_bytes(pairs_view(root_attrs@)) + group_body(
                        input@,
                        rv,
                        groups@[x]@.packages,
                    ) + footer_bytes()
                    &&& strings_of(out.missing@) == group_missing(rv, groups@[x]@.packages)
                },
        decreases groups@.len() - g,
    {
        let out = write_group(input, &root_attrs, &all_ranges, &groups[g]);
        outputs.push(out);
        g = g + 1;
    }
    let rest = if with_rest {
        let toplevel = collect_ranges(&tree, RangeKind::TopLevel, true, Vec::<String>::new().as_slice());
        proof {
            assert(strings_of(Seq::<String>::empty()) =~= Seq::<Seq<char>>::empty());
            lemma_ranges_within(nodes, nodes.len(), RangeKind::TopLevel, true, Seq::empty(), len);
        }
        let ghost tv = ranges_view(toplevel@);
        let mut out: Vec<u8> = Vec::new();
        write_arxml_header(&mut out, root_attrs.as_slice());
        let ghost head = out@;
        let mut k: usize = 0;
        assert(tv.take(0) =~= Seq::<RangeV>::empty());
        assert(head =~= head + rest_body(input@, rv, tv.take(0)));
        while k < toplevel.len()
            invariant
                rv == ranges_view(all_ranges@),
                tv == ranges_view(toplevel@),
                forall|i: int| 0 <= i < tv.len() ==> (#[trigger] tv[i]).start <= tv[i].end <= input@.len(),
                0 <= k <= toplevel@.len(),
                out@ == head + rest_body(input@, rv, tv.take(k as int)),
            decreases toplevel@.len() - k,
        {
            assert(tv.take(k + 1).drop_last() =~= tv.take(k as int));
            assert(tv[k as int] == toplevel@[k as int]@);
            let ts = toplevel[k].start;
            let te = toplevel[k].end;
            if !has_start(&all_ranges, ts) {
                let n = input.len();
                assert(ts <= te <= n);
                let tsu = ts as usize;
                let teu = te as usize;
                let ghost before = out@;
                append_range(&mut out, input, tsu, teu);
                append_str(&mut out, "\n");
                assert(out@ =~= before + input@.subrange(ts as int, te as int) + utf8("\n"@));
            }
            assert(out@ =~= head + rest_body(input@, rv, tv.take(k + 1)));
            k = k + 1;
        }
        assert(tv.take(toplevel@.len() as int) =~= tv);
        write_arxml_footer(&mut out);
        Some(out)
    } else {
        None
    };
    Ok(CpPlan { outputs, rest })
}

} // verus!
