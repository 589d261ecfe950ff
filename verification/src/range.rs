//! Byte-range finding for `AR-PACKAGE`s and `ELEMENTS`-block elements,
//! used by `cp` and `rm` to copy/splice raw XML bytes without re-serialising.
//!
//! The three lookups below are simple filters over the same [`Tree`] built
//! by [`build_tree`].
use vstd::prelude::*;

use crate::ls::chars_of_all;
use crate::text::{
    chars_eq, chars_eq_str, seqs_of, string_of, strings_of, strip_leading_slashes, strip_slashes,
};
use crate::tree::{build_tree, full_path_of, nodes_wf, parents_before, spec_tree, NodeV, Tree};
use crate::xml::{
    input_tokens, is_terminal, local_name_str, tokenize, tokens_view, unescape_text,
    utf8_or_empty, text_value, RawAttribute, Token, TokenKind, TokenKindV, TokenV,
};

verus! {

/// The byte range `[start, end)` of a package or element, and its path
/// without the leading `/`.
pub struct PackageRange {
    pub start: u64,
    pub end: u64,
    pub path: String,
}

/// The view of a [`PackageRange`].
pub ghost struct RangeV {
    pub start: nat,
    pub end: nat,
    pub path: Seq<char>,
}

impl View for PackageRange {
    type V = RangeV;

    open spec fn view(&self) -> RangeV {
        RangeV { start: self.start as nat, end: self.end as nat, path: self.path@ }
    }
}

/// The views of a list of ranges.
pub open spec fn ranges_view(v: Seq<PackageRange>) -> Seq<RangeV> {
    v.map_values(|r: PackageRange| r@)
}

/// Which nodes a lookup considers.
pub enum RangeKind {
    /// Nodes other than `AR-PACKAGE` whose parent is an `AR-PACKAGE`.
    Element,
    /// `AR-PACKAGE` nodes at any depth.
    Package,
    /// `AR-PACKAGE` nodes without a parent.
    TopLevel,
    /// Nodes of any tag whose parent is an `AR-PACKAGE`: nested packages and
    /// the elements of packages.
    Child,
}

/// Whether node `i` is of the given kind.
pub open spec fn kind_selects(nodes: Seq<NodeV>, i: int, kind: RangeKind) -> bool {
    match kind {
        RangeKind::Element => nodes[i].tag != "AR-PACKAGE"@ && (nodes[i].parent matches Some(
            p,
        ) && nodes[p as int].tag == "AR-PACKAGE"@),
        RangeKind::Package => nodes[i].tag == "AR-PACKAGE"@,
        RangeKind::TopLevel => nodes[i].tag == "AR-PACKAGE"@ && nodes[i].parent is None,
        RangeKind::Child => nodes[i].parent matches Some(p) && nodes[p as int].tag == "AR-PACKAGE"@,
    }
}

/// The ranges of the nodes among the first `k` that are of the given kind
/// and, unless `all`, whose path (without leading `/`) is one of `targets`.
pub open spec fn ranges_of(
    nodes: Seq<NodeV>,
    k: nat,
    kind: RangeKind,
    all: bool,
    targets: Seq<Seq<char>>,
) -> Seq<RangeV>
    decreases k,
{
    if k == 0 {
        Seq::empty()
    } else {
        let prev = ranges_of(nodes, (k - 1) as nat, kind, all, targets);
        let path = strip_slashes(full_path_of(nodes, k - 1));
        if kind_selects(nodes, k - 1, kind) && (all || targets.contains(path)) {
            prev.push(RangeV { start: nodes[k - 1].start, end: nodes[k - 1].end, path })
        } else {
            prev
        }
    }
}

/// Every range found lies within a document of `len` bytes.
pub proof fn lemma_ranges_within(
    nodes: Seq<NodeV>,
    k: nat,
    kind: RangeKind,
    all: bool,
    targets: Seq<Seq<char>>,
    len: nat,
)
    requires
        nodes_wf(nodes, len),
        k <= nodes.len(),
    ensures
        forall|i: int|
            0 <= i < ranges_of(nodes, k, kind, all, targets).len() ==> #[trigger] ranges_of(
                nodes,
                k,
                kind,
                all,
                targets,
            )[i].start <= ranges_of(nodes, k, kind, all, targets)[i].end <= len,
    decreases k,
{
    if k > 0 {
        lemma_ranges_within(nodes, (k - 1) as nat, kind, all, targets, len);
        assert(nodes[k - 1].start <= nodes[k - 1].end <= len);
        let prev = ranges_of(nodes, (k - 1) as nat, kind, all, targets);
        let cur = ranges_of(nodes, k, kind, all, targets);
        let path = strip_slashes(full_path_of(nodes, k - 1));
        if kind_selects(nodes, k - 1, kind) && (all || targets.contains(path)) {
            assert(cur == prev.push(
                RangeV { start: nodes[k - 1].start, end: nodes[k - 1].end, path },
            ));
        } else {
            assert(cur == prev);
        }
        assert forall|i: int| 0 <= i < cur.len() implies (#[trigger] cur[i]).start <= cur[i].end
            <= len by {
            if i < prev.len() {
                assert(cur[i] == prev[i]);
                assert(prev[i].start <= prev[i].end <= len);
            }
        }
    }
}

/// Whether `targets` holds `path`.
fn contains_path(targets: &Vec<Vec<char>>, path: &Vec<char>) -> (r: bool)
    ensures
        r == seqs_of(targets@).contains(path@),
{
    let mut k: usize = 0;
    while k < targets.len()
        invariant
            0 <= k <= targets@.len(),
            forall|x: int| 0 <= x < k ==> seqs_of(targets@)[x] != path@,
        decreases targets@.len() - k,
    {
        if chars_eq(&targets[k], path) {
            assert(seqs_of(targets@)[k as int] == path@);
            return true;
        }
        k = k + 1;
    }
    false
}

/// The ranges of the nodes of `tree` of the given kind and, unless `all`,
/// whose path is one of `targets`, in document order.
pub fn collect_ranges(
    tree: &Tree,
    kind: RangeKind,
    all: bool,
    targets: &[String],
) -> (r: Vec<PackageRange>)
    requires
        parents_before(tree@),
    ensures
        ranges_view(r@) == ranges_of(tree@, tree@.len(), kind, all, strings_of(targets@)),
{
    let target_chars = chars_of_all(targets);
    let ghost ts = strings_of(targets@);
    let mut out: Vec<PackageRange> = Vec::new();
    let mut idx: usize = 0;
    while idx < tree.nodes.len()
        invariant
            parents_before(tree@),
            0 <= idx <= tree@.len(),
            seqs_of(target_chars@) == ts,
            ranges_view(out@) == ranges_of(tree@, idx as nat, kind, all, ts),
        decreases tree@.len() - idx,
    {
        let ghost prev = ranges_view(out@);
        let node = &tree.nodes[idx];
        assert(tree@[idx as int] == node@);
        let is_package = chars_eq_str(&node.tag, "AR-PACKAGE");
        let selected = match kind {
            RangeKind::Element => !is_package && match node.parent {
                Some(p) => {
                    assert(tree@[p as int] == tree.nodes@[p as int]@);
                    chars_eq_str(&tree.nodes[p].tag, "AR-PACKAGE")
                },
                None => false,
            },
            RangeKind::Package => is_package,
            RangeKind::TopLevel => is_package && node.parent.is_none(),
            RangeKind::Child => match node.parent {
                Some(p) => {
                    assert(tree@[p as int] == tree.nodes@[p as int]@);
                    chars_eq_str(&tree.nodes[p].tag, "AR-PACKAGE")
                },
                None => false,
            },
        };
        if selected {
            let full = tree.full_path(idx);
            let trimmed = strip_leading_slashes(&full);
            if all || contains_path(&target_chars, &trimmed) {
                out.push(
                    PackageRange { start: node.start, end: node.end, path: string_of(trimmed.as_slice()) },
                );
                assert(ranges_view(out@) =~= prev.push(
                    RangeV { start: node@.start, end: node@.end, path: trimmed@ },
                ));
            }
        }
        idx = idx + 1;
    }
    out
}

/// Find byte ranges of top-level elements inside `<ELEMENTS>` blocks (direct
/// children of a package, e.g. `Root/Components/MyComponent`) whose full path
/// matches one of the `targets`; `None` when reading `input` fails.
pub fn find_element_ranges(input: &[u8], targets: &[String]) -> (r: Option<Vec<PackageRange>>)
    ensures
        match r {
            Some(v) => spec_tree(input@) matches Some(nodes) && ranges_view(v@) == ranges_of(
                nodes,
                nodes.len(),
                RangeKind::Element,
                false,
                strings_of(targets@),
            ),
            None => spec_tree(input@) is None,
        },
{
    match build_tree(input) {
        Some(tree) => Some(
            collect_ranges(&tree, RangeKind::Element, false, targets),
        ),
        None => None,
    }
}

/// Find byte ranges of `AR-PACKAGE`s (at any nesting depth) whose full path
/// matches one of the `targets`; `None` when reading `input` fails.
pub fn find_package_ranges(input: &[u8], targets: &[String]) -> (r: Option<Vec<PackageRange>>)
    ensures
        match r {
            Some(v) => spec_tree(input@) matches Some(nodes) && ranges_view(v@) == ranges_of(
                nodes,
                nodes.len(),
                RangeKind::Package,
                false,
                strings_of(targets@),
            ),
            None => spec_tree(input@) is None,
        },
{
    match build_tree(input) {
        Some(tree) => Some(
            collect_ranges(&tree, RangeKind::Package, false, targets),
        ),
        None => None,
    }
}

/// Find byte ranges of every top-level (root) `AR-PACKAGE`, regardless of
/// name; `None` when reading `input` fails.
pub fn find_all_toplevel_package_ranges(input: &[u8]) -> (r: Option<Vec<PackageRange>>)
    ensures
        match r {
            Some(v) => spec_tree(input@) matches Some(nodes) && ranges_view(v@) == ranges_of(
                nodes,
                nodes.len(),
                RangeKind::TopLevel,
                true,
                Seq::empty(),
            ),
            None => spec_tree(input@) is None,
        },
{
    match build_tree(input) {
        Some(tree) => {
            let none: Vec<String> = Vec::new();
            assert(strings_of(none@) =~= Seq::<Seq<char>>::empty());
            Some(collect_ranges(&tree, RangeKind::TopLevel, true, none.as_slice()))
        },
        None => None,
    }
}

/// An attribute with its key decoded and its value decoded and unescaped
/// (`Attribute::unescape_value().unwrap_or_default()`).
pub open spec fn attribute_value(a: (Seq<u8>, Seq<u8>)) -> (Seq<char>, Seq<char>) {
    (utf8_or_empty(a.0), text_value(a.1))
}

/// The attributes that the iterator reported without an error, decoded.
pub open spec fn decoded_attributes(attrs: Seq<Option<(Seq<u8>, Seq<u8>)>>) -> Seq<
    (Seq<char>, Seq<char>),
>
    decreases attrs.len(),
{
    if attrs.len() == 0 {
        Seq::empty()
    } else {
        let prev = decoded_attributes(attrs.drop_last());
        match attrs.last() {
            Some(a) => prev.push(attribute_value(a)),
            None => prev,
        }
    }
}

/// The attributes of the first `AUTOSAR` start tag among the tokens from
/// index `k` on, or none if the stream ends first.
pub open spec fn root_attrs_from(toks: Seq<TokenV>, k: int) -> Seq<(Seq<char>, Seq<char>)>
    decreases toks.len() - k,
{
    if k < 0 || k >= toks.len() {
        Seq::empty()
    } else {
        match toks[k].kind {
            TokenKindV::Start { name, attributes } => if name == "AUTOSAR"@ {
                decoded_attributes(attributes)
            } else {
                root_attrs_from(toks, k + 1)
            },
            TokenKindV::Eof => Seq::empty(),
            TokenKindV::Error => Seq::empty(),
            _ => root_attrs_from(toks, k + 1),
        }
    }
}

/// The views of a list of string pairs.
pub open spec fn pairs_view(v: Seq<(String, String)>) -> Seq<(Seq<char>, Seq<char>)> {
    v.map_values(|p: (String, String)| (p.0@, p.1@))
}

/// Decodes the attributes that the iterator reported without an error.
fn decode_attributes(attrs: &Vec<Option<RawAttribute>>) -> (r: Vec<(String, String)>)
    ensures
        pairs_view(r@) == decoded_attributes(crate::xml::raw_attributes_view(attrs@)),
{
    let ghost av = crate::xml::raw_attributes_view(attrs@);
    let mut out: Vec<(String, String)> = Vec::new();
    let mut i: usize = 0;
    assert(av.take(0) =~= Seq::<Option<(Seq<u8>, Seq<u8>)>>::empty());
    while i < attrs.len()
        invariant
            av == crate::xml::raw_attributes_view(attrs@),
            0 <= i <= attrs@.len(),
            pairs_view(out@) == decoded_attributes(av.take(i as int)),
        decreases attrs@.len() - i,
    {
        assert(av.take(i + 1).drop_last() =~= av.take(i as int));
        let ghost prev = pairs_view(out@);
        match &attrs[i] {
            Some(a) => {
                let key = local_name_str(a.key.as_slice());
                let value = unescape_text(a.value.as_slice());
                out.push((string_of(key.as_slice()), string_of(value.as_slice())));
                assert(pairs_view(out@) =~= prev.push((key@, value@)));
            },
            None => {},
        }
        i = i + 1;
    }
    assert(av.take(attrs@.len() as int) =~= av);
    out
}

/// The attributes of the first `<AUTOSAR>` start tag of a token stream,
/// decoded and unescaped, in order; empty when the stream ends or fails
/// before it.
pub fn root_attrs_of_tokens(toks: &Vec<Token>) -> (r: Vec<(String, String)>)
    ensures
        pairs_view(r@) == root_attrs_from(tokens_view(toks@), 0),
{
    let ghost tv = tokens_view(toks@);
    let mut k: usize = 0;
    while k < toks.len()
        invariant
            tv == tokens_view(toks@),
            0 <= k <= toks@.len(),
            root_attrs_from(tv, 0) == root_attrs_from(tv, k as int),
        decreases toks@.len() - k,
    {
        assert(tv[k as int] == toks@[k as int]@);
        match &toks[k].kind {
            TokenKind::Start { name, attributes } => {
                if chars_eq_str(name, "AUTOSAR") {
                    return decode_attributes(attributes);
                }
            },
            TokenKind::Eof => {
                let none: Vec<(String, String)> = Vec::new();
                assert(pairs_view(none@) =~= Seq::<(Seq<char>, Seq<char>)>::empty());
                return none;
            },
            TokenKind::Error => {
                let none: Vec<(String, String)> = Vec::new();
                assert(pairs_view(none@) =~= Seq::<(Seq<char>, Seq<char>)>::empty());
                return none;
            },
            _ => {},
        }
        k = k + 1;
    }
    let none: Vec<(String, String)> = Vec::new();
    assert(pairs_view(none@) =~= Seq::<(Seq<char>, Seq<char>)>::empty());
    none
}

/// Every range found comes from a node of the given kind whose path is a
/// target (unless `all`).
pub proof fn lemma_range_origin(
    nodes: Seq<NodeV>,
    k: nat,
    kind: RangeKind,
    all: bool,
    targets: Seq<Seq<char>>,
    x: int,
)
    requires
        k <= nodes.len(),
        0 <= x < ranges_of(nodes, k, kind, all, targets).len(),
    ensures
        exists|i: int|
            0 <= i < k && kind_selects(nodes, i, kind) && (all || targets.contains(
                strip_slashes(full_path_of(nodes, i)),
            )) && #[trigger] ranges_of(nodes, k, kind, all, targets)[x] == (RangeV {
                start: nodes[i].start,
                end: nodes[i].end,
                path: strip_slashes(full_path_of(nodes, i)),
            }),
    decreases k,
{
    let prev = ranges_of(nodes, (k - 1) as nat, kind, all, targets);
    let cur = ranges_of(nodes, k, kind, all, targets);
    if x < prev.len() {
        lemma_range_origin(nodes, (k - 1) as nat, kind, all, targets, x);
        let i = choose|i: int|
            0 <= i < k - 1 && kind_selects(nodes, i, kind) && (all || targets.contains(
                strip_slashes(full_path_of(nodes, i)),
            )) && #[trigger] ranges_of(nodes, (k - 1) as nat, kind, all, targets)[x] == (RangeV {
                start: nodes[i].start,
                end: nodes[i].end,
                path: strip_slashes(full_path_of(nodes, i)),
            });
        assert(cur[x] == prev[x]);
    } else {
        assert(cur[x] == cur.last());
        assert(kind_selects(nodes, k - 1, kind));
    }
}

/// Every node of the given kind whose path is a target (unless `all`) has
/// its range found.
pub proof fn lemma_range_found(
    nodes: Seq<NodeV>,
    k: nat,
    kind: RangeKind,
    all: bool,
    targets: Seq<Seq<char>>,
    i: int,
)
    requires
        0 <= i < k <= nodes.len(),
        kind_selects(nodes, i, kind),
        all || targets.contains(strip_slashes(full_path_of(nodes, i))),
    ensures
        exists|x: int|
            0 <= x < ranges_of(nodes, k, kind, all, targets).len() && #[trigger] ranges_of(
                nodes,
                k,
                kind,
                all,
                targets,
            )[x] == (RangeV {
                start: nodes[i].start,
                end: nodes[i].end,
                path: strip_slashes(full_path_of(nodes, i)),
            }),
    decreases k,
{
    let prev = ranges_of(nodes, (k - 1) as nat, kind, all, targets);
    let cur = ranges_of(nodes, k, kind, all, targets);
    if i < k - 1 {
        lemma_range_found(nodes, (k - 1) as nat, kind, all, targets, i);
        let x = choose|x: int|
            0 <= x < prev.len() && #[trigger] ranges_of(nodes, (k - 1) as nat, kind, all, targets)[x]
                == (RangeV {
                start: nodes[i].start,
                end: nodes[i].end,
                path: strip_slashes(full_path_of(nodes, i)),
            });
        assert(cur[x] == prev[x]);
    } else {
        assert(cur[prev.len() as int] == cur.last());
    }
}

/// The attributes of the document's `<AUTOSAR>` root element (namespaces,
/// schema locations, ...), decoded and unescaped, in document order; empty
/// when the reader ends or fails before it.
pub fn collect_root_attrs(input: &[u8]) -> (r: Vec<(String, String)>)
    ensures
        pairs_view(r@) == root_attrs_from(input_tokens(input@), 0),
{
    let toks = tokenize(input);
    root_attrs_of_tokens(&toks)
}

} // verus!
