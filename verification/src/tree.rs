//! Arena-based tree of every named `AR-PACKAGE` and every named element in an
//! ARXML file, built once from the document's tokens and shared by `ls`,
//! `cp`, `rm` and `diff`.
use vstd::prelude::*;

use crate::text::{chars_eq_str, join_chars, join_path, seqs_of};
use crate::xml::{
    input_tokens, is_terminal, is_token_stream, offsets_ok, tokenize, tokens_view, Token,
    TokenKind, TokenKindV, TokenV,
};

verus! {

/// One node of the [`Tree`]: its `SHORT-NAME`, its own XML tag, the index of
/// its nearest named ancestor (`None` for a top-level node), and the byte
/// range of its element, from the offset before its start tag to the offset
/// after its end tag.
///
/// There is no separate "package" vs. "element" distinction in the data
/// model — an `AR-PACKAGE` is simply a node whose own `tag` happens to be
/// `"AR-PACKAGE"`, exactly like `I-SIGNAL-TRIGGERING` or any other element
/// type.
pub struct Node {
    pub name: Vec<char>,
    pub tag: Vec<char>,
    pub parent: Option<usize>,
    pub start: u64,
    pub end: u64,
}

/// The view of a [`Node`].
pub ghost struct NodeV {
    pub name: Seq<char>,
    pub tag: Seq<char>,
    pub parent: Option<usize>,
    pub start: nat,
    pub end: nat,
}

impl View for Node {
    type V = NodeV;

    open spec fn view(&self) -> NodeV {
        NodeV {
            name: self.name@,
            tag: self.tag@,
            parent: self.parent,
            start: self.start as nat,
            end: self.end as nat,
        }
    }
}

/// The views of a list of nodes.
pub open spec fn nodes_view(v: Seq<Node>) -> Seq<NodeV> {
    v.map_values(|n: Node| n@)
}

/// Arena-based tree of every named `AR-PACKAGE` and every named element (at
/// any nesting depth) of an ARXML document, in document order.
pub struct Tree {
    pub nodes: Vec<Node>,
}

impl View for Tree {
    type V = Seq<NodeV>;

    open spec fn view(&self) -> Seq<NodeV> {
        nodes_view(self.nodes@)
    }
}

/// Every parent comes before its child, and every byte range lies within a
/// document of `len` bytes.
pub open spec fn nodes_wf(nodes: Seq<NodeV>, len: nat) -> bool {
    &&& parents_before(nodes)
    &&& forall|i: int| 0 <= i < nodes.len() ==> (#[trigger] nodes[i]).start <= nodes[i].end <= len
}

/// Every parent comes before its child.
pub open spec fn parents_before(nodes: Seq<NodeV>) -> bool {
    forall|i: int| 0 <= i < nodes.len() ==> ((#[trigger] nodes[i]).parent matches Some(p) ==> p < i)
}

/// The names on the way from the top-level ancestor of `idx` down to `idx`.
pub open spec fn path_names(nodes: Seq<NodeV>, idx: int) -> Seq<Seq<char>>
    decreases idx,
{
    if 0 <= idx < nodes.len() {
        match nodes[idx].parent {
            Some(p) => if p < idx {
                path_names(nodes, p as int).push(nodes[idx].name)
            } else {
                seq![nodes[idx].name]
            },
            None => seq![nodes[idx].name],
        }
    } else {
        Seq::empty()
    }
}

/// The full `/`-separated path of node `idx`, with a leading `/`.
pub open spec fn full_path_of(nodes: Seq<NodeV>, idx: int) -> Seq<char> {
    seq!['/'] + join_path(path_names(nodes, idx))
}

/// The names from the top-level ancestor of `idx` down to `idx`.
fn names_to(nodes: &Vec<Node>, idx: usize) -> (r: Vec<Vec<char>>)
    requires
        idx < nodes@.len(),
        parents_before(nodes_view(nodes@)),
    ensures
        seqs_of(r@) == path_names(nodes_view(nodes@), idx as int),
    decreases idx,
{
    let ghost nv = nodes_view(nodes@);
    assert(nv[idx as int] == nodes@[idx as int]@);
    let mut r = match nodes[idx].parent {
        Some(p) => names_to(nodes, p),
        None => Vec::new(),
    };
    let ghost prev = seqs_of(r@);
    let name = copy_chars(&nodes[idx].name);
    r.push(name);
    assert(seqs_of(r@) =~= prev.push(nv[idx as int].name));
    r
}

/// A copy of `v`.
pub fn copy_chars(v: &Vec<char>) -> (r: Vec<char>)
    ensures
        r@ == v@,
{
    let mut out: Vec<char> = Vec::new();
    let mut i: usize = 0;
    while i < v.len()
        invariant
            0 <= i <= v@.len(),
            out@ == v@.take(i as int),
        decreases v@.len() - i,
    {
        out.push(v[i]);
        assert(v@.take(i + 1) =~= v@.take(i as int).push(v@[i as int]));
        i = i + 1;
    }
    assert(v@.take(v@.len() as int) =~= v@);
    out
}

impl Tree {
    /// Reconstructs the full `/`-separated path of `idx` by walking up the
    /// `parent` chain.
    pub fn full_path(&self, idx: usize) -> (r: Vec<char>)
        requires
            idx < self@.len(),
            parents_before(self@),
        ensures
            r@ == full_path_of(self@, idx as int),
    {
        let segments = names_to(&self.nodes, idx);
        let joined = join_chars(&segments, segments.len());
        assert(seqs_of(segments@).take(segments@.len() as int) =~= seqs_of(segments@));
        let mut out: Vec<char> = Vec::new();
        out.push('/');
        let mut k: usize = 0;
        while k < joined.len()
            invariant
                0 <= k <= joined@.len(),
                out@ == seq!['/'] + joined@.take(k as int),
            decreases joined@.len() - k,
        {
            out.push(joined[k]);
            assert(joined@.take(k + 1) =~= joined@.take(k as int).push(joined@[k as int]));
            k = k + 1;
        }
        assert(joined@.take(joined@.len() as int) =~= joined@);
        out
    }
}

/// One currently open tag, during tree building: its depth, its tag name
/// (taken over by its node once named), the node it became once a direct
/// `SHORT-NAME` child was seen, and the offset before its start tag.
struct Frame {
    depth: usize,
    tag_name: Vec<char>,
    node: Option<usize>,
    start: u64,
}

/// The view of a [`Frame`].
pub ghost struct FrameV {
    pub depth: nat,
    pub tag: Seq<char>,
    pub node: Option<usize>,
    pub start: nat,
}

impl View for Frame {
    type V = FrameV;

    closed spec fn view(&self) -> FrameV {
        FrameV {
            depth: self.depth as nat,
            tag: self.tag_name@,
            node: self.node,
            start: self.start as nat,
        }
    }
}

/// The views of a list of frames.
spec fn frames_view(v: Seq<Frame>) -> Seq<FrameV> {
    v.map_values(|f: Frame| f@)
}

/// The state of tree building: the nodes so far, every open tag, the nodes
/// of the open named tags, whether the next text is a `SHORT-NAME`, and the
/// nesting depth.
pub ghost struct BuildState {
    pub nodes: Seq<NodeV>,
    pub open: Seq<FrameV>,
    pub named: Seq<usize>,
    pub capturing: bool,
    pub depth: nat,
}

/// The state before any token.
pub open spec fn initial_state() -> BuildState {
    BuildState {
        nodes: Seq::empty(),
        open: Seq::empty(),
        named: Seq::empty(),
        capturing: false,
        depth: 0,
    }
}

/// How one token changes the building state. Every start tag other than
/// `SHORT-NAME` opens a frame; a `SHORT-NAME` that is a direct child of the
/// innermost, still unnamed open tag makes the next text that tag's name,
/// and the tag becomes a node whose parent is the innermost open named tag;
/// an end tag other than `SHORT-NAME` closes the innermost frame and, if it
/// was named, records where its node ends.
pub open spec fn step(st: BuildState, t: TokenV) -> BuildState {
    match t.kind {
        TokenKindV::Start { name, .. } => {
            let d = st.depth + 1;
            if name == "SHORT-NAME"@ {
                if st.open.len() > 0 && st.open.last().node is None && d == st.open.last().depth
                    + 1 {
                    BuildState { capturing: true, depth: d, ..st }
                } else {
                    BuildState { depth: d, ..st }
                }
            } else {
                BuildState {
                    open: st.open.push(FrameV { depth: d, tag: name, node: None, start: t.before }),
                    depth: d,
                    ..st
                }
            }
        },
        TokenKindV::Text { text } => {
            if st.capturing {
                if st.open.len() > 0 {
                    let top = st.open.last();
                    let idx = st.nodes.len();
                    let parent = if st.named.len() > 0 {
                        Some(st.named.last())
                    } else {
                        None
                    };
                    BuildState {
                        nodes: st.nodes.push(
                            NodeV {
                                name: text,
                                tag: top.tag,
                                parent,
                                start: top.start,
                                end: top.start,
                            },
                        ),
                        open: st.open.update(
                            st.open.len() - 1,
                            FrameV { tag: Seq::empty(), node: Some(idx as usize), ..top },
                        ),
                        named: st.named.push(idx as usize),
                        capturing: false,
                        ..st
                    }
                } else {
                    BuildState { capturing: false, ..st }
                }
            } else {
                st
            }
        },
        TokenKindV::End { name } => {
            let d = if st.depth > 0 {
                (st.depth - 1) as nat
            } else {
                0
            };
            if name != "SHORT-NAME"@ && st.open.len() > 0 {
                match st.open.last().node {
                    Some(idx) => BuildState {
                        nodes: st.nodes.update(idx as int, NodeV { end: t.after, ..st.nodes[idx as int] }),
                        open: st.open.drop_last(),
                        named: if st.named.len() > 0 {
                            st.named.drop_last()
                        } else {
                            st.named
                        },
                        depth: d,
                        ..st
                    },
                    None => BuildState { open: st.open.drop_last(), depth: d, ..st },
                }
            } else {
                BuildState { depth: d, ..st }
            }
        },
        _ => st,
    }
}

/// The building state after the first `k` tokens.
pub open spec fn state_after(toks: Seq<TokenV>, k: nat) -> BuildState
    decreases k,
{
    if k == 0 {
        initial_state()
    } else {
        step(state_after(toks, (k - 1) as nat), toks[k - 1])
    }
}

/// The nodes that a token stream builds, or `None` when it ends in an error.
pub open spec fn tree_of(toks: Seq<TokenV>) -> Option<Seq<NodeV>> {
    if toks.last().kind is Error {
        None
    } else {
        Some(state_after(toks, (toks.len() - 1) as nat).nodes)
    }
}

/// The nodes of the document `input`, or `None` when reading it fails.
pub open spec fn spec_tree(input: Seq<u8>) -> Option<Seq<NodeV>> {
    tree_of(input_tokens(input))
}

/// Invariant of the building state: the stacks refer to existing nodes, a
/// named frame starts where its node does, and all offsets lie within what
/// was read so far.
pub open spec fn state_wf(st: BuildState, pos: nat) -> bool {
    &&& nodes_wf(st.nodes, pos)
    &&& forall|i: int| 0 <= i < st.named.len() ==> #[trigger] st.named[i] < st.nodes.len()
    &&& forall|i: int|
        0 <= i < st.open.len() ==> ((#[trigger] st.open[i]).node matches Some(n) ==> n
            < st.nodes.len() && st.nodes[n as int].start == st.open[i].start)
    &&& forall|i: int| 0 <= i < st.open.len() ==> #[trigger] st.open[i].start < pos
    &&& forall|i: int, j: int| 0 <= i < j < st.open.len() ==> #[trigger] st.open[i].start
        < #[trigger] st.open[j].start
    &&& forall|n: int| 0 <= n < st.nodes.len() ==> #[trigger] st.nodes[n].start < pos
    &&& tagged_starts_distinct(st.nodes)
    &&& forall|n: int, i: int|
        0 <= n < st.nodes.len() && 0 <= i < st.open.len() && #[trigger] st.nodes[n].start
            == #[trigger] st.open[i].start ==> st.open[i].node is Some && st.open[i].tag.len() == 0
}

/// Two nodes start at the same offset only when the later one has an empty
/// tag (its tag was already taken by the first): nodes with a tag start at
/// distinct offsets.
pub open spec fn tagged_starts_distinct(nodes: Seq<NodeV>) -> bool {
    forall|i: int, j: int|
        0 <= i < j < nodes.len() && #[trigger] nodes[i].start == #[trigger] nodes[j].start
            ==> nodes[j].tag.len() == 0
}

/// One token keeps the building state well-formed.
proof fn lemma_step_wf(st: BuildState, t: TokenV)
    requires
        state_wf(st, t.before),
        st.nodes.len() <= usize::MAX,
        t.before < t.after,
    ensures
        state_wf(step(st, t), t.after),
{
    let s2 = step(st, t);
    match t.kind {
        TokenKindV::Start { name, .. } => {
            if name != "SHORT-NAME"@ {
                let f = FrameV { depth: st.depth + 1, tag: name, node: None, start: t.before };
                assert(s2.open == st.open.push(f));
                assert forall|i: int, j: int| 0 <= i < j < s2.open.len() implies #[trigger] s2.open[i].start
                    < #[trigger] s2.open[j].start by {
                    if j < st.open.len() {
                        assert(s2.open[i] == st.open[i] && s2.open[j] == st.open[j]);
                    } else {
                        assert(s2.open[i] == st.open[i]);
                    }
                }
                assert forall|n: int, i: int|
                    0 <= n < s2.nodes.len() && 0 <= i < s2.open.len() && #[trigger] s2.nodes[n].start
                        == #[trigger] s2.open[i].start implies s2.open[i].node is Some && s2.open[i].tag.len() == 0 by {
                    if i < st.open.len() {
                        assert(s2.open[i] == st.open[i]);
                    }
                }
                assert forall|i: int| 0 <= i < s2.open.len() implies (#[trigger] s2.open[i]).node matches Some(n) ==> n
                    < s2.nodes.len() && s2.nodes[n as int].start == s2.open[i].start by {
                    if i < st.open.len() {
                        assert(s2.open[i] == st.open[i]);
                    }
                }
            }
        },
        TokenKindV::Text { text } => {
            if st.capturing && st.open.len() > 0 {
                let top = st.open.last();
                let idx = st.nodes.len();
                let last = st.open.len() - 1;
                assert(top == st.open[last]);
                assert(s2.nodes == st.nodes.push(s2.nodes[idx as int]));
                assert(s2.nodes[idx as int].start == top.start && s2.nodes[idx as int].tag == top.tag);
                assert forall|i: int, j: int|
                    0 <= i < j < s2.nodes.len() && #[trigger] s2.nodes[i].start == #[trigger] s2.nodes[j].start
                        implies s2.nodes[j].tag.len() == 0 by {
                    if j < idx {
                        assert(s2.nodes[i] == st.nodes[i] && s2.nodes[j] == st.nodes[j]);
                    } else {
                        assert(s2.nodes[i] == st.nodes[i]);
                        assert(st.nodes[i].start == st.open[last].start);
                    }
                }
                assert forall|n: int, i: int|
                    0 <= n < s2.nodes.len() && 0 <= i < s2.open.len() && #[trigger] s2.nodes[n].start
                        == #[trigger] s2.open[i].start implies s2.open[i].node is Some && s2.open[i].tag.len() == 0 by {
                    if i < last {
                        assert(s2.open[i] == st.open[i]);
                        assert(st.open[i].start < st.open[last].start);
                        if n < idx {
                            assert(s2.nodes[n] == st.nodes[n]);
                        }
                    }
                }
                assert forall|i: int| 0 <= i < s2.open.len() implies (#[trigger] s2.open[i]).node matches Some(n) ==> n
                    < s2.nodes.len() && s2.nodes[n as int].start == s2.open[i].start by {
                    if i < last {
                        assert(s2.open[i] == st.open[i]);
                        if let Some(n) = st.open[i].node {
                            assert(s2.nodes[n as int] == st.nodes[n as int]);
                        }
                    } else {
                        assert(s2.open[i].node == Some(idx as usize));
                        assert(s2.nodes[idx as int].start == s2.open[i].start);
                    }
                }
                assert forall|n: int| 0 <= n < s2.nodes.len() implies #[trigger] s2.nodes[n].start < t.after by {
                    if n < idx {
                        assert(s2.nodes[n] == st.nodes[n]);
                    }
                }
                assert forall|i: int| 0 <= i < s2.named.len() implies #[trigger] s2.named[i] < s2.nodes.len() by {
                    if i < st.named.len() {
                        assert(s2.named[i] == st.named[i]);
                    }
                }
                assert forall|i: int, j: int| 0 <= i < j < s2.open.len() implies #[trigger] s2.open[i].start
                    < #[trigger] s2.open[j].start by {
                    assert(s2.open[i].start == st.open[i].start && s2.open[j].start == st.open[j].start);
                }
                assert forall|i: int| 0 <= i < s2.nodes.len() implies ((#[trigger] s2.nodes[i]).parent matches Some(p) ==> p < i) by {
                    if i < idx {
                        assert(s2.nodes[i] == st.nodes[i]);
                    }
                }
                assert forall|i: int| 0 <= i < s2.nodes.len() implies (#[trigger] s2.nodes[i]).start <= s2.nodes[i].end <= t.after by {
                    if i < idx {
                        assert(s2.nodes[i] == st.nodes[i]);
                    }
                }
            }
        },
        TokenKindV::End { name } => {
            if name != "SHORT-NAME"@ && st.open.len() > 0 {
                assert forall|i: int, j: int| 0 <= i < j < s2.open.len() implies #[trigger] s2.open[i].start
                    < #[trigger] s2.open[j].start by {
                    assert(s2.open[i] == st.open[i] && s2.open[j] == st.open[j]);
                }
                assert forall|n: int, i: int|
                    0 <= n < s2.nodes.len() && 0 <= i < s2.open.len() && #[trigger] s2.nodes[n].start
                        == #[trigger] s2.open[i].start implies s2.open[i].node is Some && s2.open[i].tag.len() == 0 by {
                    assert(s2.open[i] == st.open[i]);
                    assert(s2.nodes[n].start == st.nodes[n].start);
                }
                assert forall|i: int, j: int|
                    0 <= i < j < s2.nodes.len() && #[trigger] s2.nodes[i].start == #[trigger] s2.nodes[j].start
                        implies s2.nodes[j].tag.len() == 0 by {
                    assert(s2.nodes[i].start == st.nodes[i].start && s2.nodes[j].start == st.nodes[j].start);
                    assert(s2.nodes[j].tag == st.nodes[j].tag);
                }
                assert forall|n: int| 0 <= n < s2.nodes.len() implies #[trigger] s2.nodes[n].start < t.after by {
                    assert(s2.nodes[n].start == st.nodes[n].start);
                }
            }
        },
        _ => {},
    }
}

/// The nodes of the open frames that already have a name, outermost first:
/// the named elements that enclose the current position.
pub open spec fn open_named(open: Seq<FrameV>) -> Seq<usize>
    decreases open.len(),
{
    if open.len() == 0 {
        Seq::empty()
    } else {
        let rest = open_named(open.drop_last());
        match open.last().node {
            Some(n) => rest.push(n),
            None => rest,
        }
    }
}

/// Token `t` is the text of a pending `SHORT-NAME` while the innermost open
/// tag is already named (only after a `SHORT-NAME` without text, when some
/// later text is taken as a second name).
pub open spec fn renames(st: BuildState, t: TokenV) -> bool {
    &&& t.kind is Text
    &&& st.capturing
    &&& st.open.len() > 0
    &&& st.open.last().node is Some
}

/// Token `t` gives the innermost open tag, still unnamed, its name, making
/// it a node.
pub open spec fn creates_node(st: BuildState, t: TokenV) -> bool {
    &&& t.kind is Text
    &&& st.capturing
    &&& st.open.len() > 0
    &&& st.open.last().node is None
}

/// No token among the first `k` renames an already named tag.
pub open spec fn no_renaming(toks: Seq<TokenV>, k: nat) -> bool {
    forall|j: nat| j < k ==> !#[trigger] renames(state_after(toks, j), toks[j as int])
}

/// One token keeps the stack of named nodes equal to the nodes of the named
/// open frames, unless it renames an already named tag.
proof fn lemma_step_named(st: BuildState, t: TokenV)
    requires
        st.named == open_named(st.open),
        !renames(st, t),
    ensures
        step(st, t).named == open_named(step(st, t).open),
{
    let s2 = step(st, t);
    match t.kind {
        TokenKindV::Start { name, .. } => {
            if name != "SHORT-NAME"@ {
                assert(s2.open.drop_last() =~= st.open);
            }
        },
        TokenKindV::Text { text } => {
            if st.capturing && st.open.len() > 0 {
                assert(s2.open.drop_last() =~= st.open.drop_last());
            }
        },
        TokenKindV::End { name } => {},
        _ => {},
    }
}

/// While no tag has been renamed, the stack of named nodes is exactly the
/// nodes of the named open frames, outermost first.
pub proof fn lemma_named_stack_tracks_open_frames(toks: Seq<TokenV>, k: nat)
    requires
        k <= toks.len(),
        no_renaming(toks, k),
    ensures
        state_after(toks, k).named == open_named(state_after(toks, k).open),
    decreases k,
{
    if k > 0 {
        let j = (k - 1) as nat;
        assert(no_renaming(toks, j));
        lemma_named_stack_tracks_open_frames(toks, j);
        assert(!renames(state_after(toks, j), toks[j as int]));
        lemma_step_named(state_after(toks, j), toks[j as int]);
    }
}

/// Later tokens never change the name or the parent of a node already built.
pub proof fn lemma_nodes_stable(toks: Seq<TokenV>, k: nat, m: nat)
    requires
        k <= m <= usize::MAX,
    ensures
        state_after(toks, k).nodes.len() <= state_after(toks, m).nodes.len(),
        forall|i: int|
            0 <= i < state_after(toks, k).nodes.len() ==> (#[trigger] state_after(toks, m).nodes[i]).name
                == state_after(toks, k).nodes[i].name && state_after(toks, m).nodes[i].parent
                == state_after(toks, k).nodes[i].parent,
    decreases m - k,
{
    if k < m {
        let j = (m - 1) as nat;
        lemma_nodes_stable(toks, k, j);
        lemma_refs_ok(toks, j);
        lemma_step_keeps_nodes(state_after(toks, j), toks[j as int]);
    }
}

/// The stack of named nodes and the open frames only refer to nodes already
/// built.
spec fn refs_ok(st: BuildState) -> bool {
    &&& forall|i: int| 0 <= i < st.named.len() ==> #[trigger] st.named[i] < st.nodes.len()
    &&& forall|i: int|
        0 <= i < st.open.len() ==> ((#[trigger] st.open[i]).node matches Some(n) ==> n
            < st.nodes.len())
}

/// One token either keeps the nodes, adds one, or records where one ends:
/// it never changes a node's name or parent, and adds at most one node.
proof fn lemma_step_keeps_nodes(st: BuildState, t: TokenV)
    requires
        refs_ok(st),
        st.nodes.len() < usize::MAX,
    ensures
        st.nodes.len() <= step(st, t).nodes.len() <= st.nodes.len() + 1,
        forall|i: int|
            0 <= i < st.nodes.len() ==> (#[trigger] step(st, t).nodes[i]).name == st.nodes[i].name
                && step(st, t).nodes[i].parent == st.nodes[i].parent,
        refs_ok(step(st, t)),
{
    let s2 = step(st, t);
    match t.kind {
        TokenKindV::Start { name, .. } => {
            assert(s2.nodes == st.nodes);
            assert forall|i: int| 0 <= i < s2.open.len() implies ((#[trigger] s2.open[i]).node matches Some(n)
                ==> n < s2.nodes.len()) by {
                if i < st.open.len() {
                    assert(s2.open[i] == st.open[i]);
                }
            }
        },
        TokenKindV::Text { text } => {
            if st.capturing && st.open.len() > 0 {
                let idx = st.nodes.len();
                assert(s2.nodes == st.nodes.push(s2.nodes[idx as int]));
                assert(s2.nodes.len() == idx + 1);
                assert forall|i: int| 0 <= i < st.nodes.len() implies (#[trigger] s2.nodes[i]) == st.nodes[i] by {}
                assert forall|i: int| 0 <= i < s2.named.len() implies #[trigger] s2.named[i]
                    < s2.nodes.len() by {
                    if i < st.named.len() {
                        assert(s2.named[i] == st.named[i]);
                    }
                }
                assert forall|i: int| 0 <= i < s2.open.len() implies ((#[trigger] s2.open[i]).node matches Some(n)
                    ==> n < s2.nodes.len()) by {
                    if i < st.open.len() - 1 {
                        assert(s2.open[i] == st.open[i]);
                    }
                }
            } else {
                assert(s2.nodes == st.nodes);
                assert(s2.open == st.open);
                assert(s2.named == st.named);
            }
        },
        TokenKindV::End { name } => {
            assert(s2.nodes.len() == st.nodes.len());
            if name != "SHORT-NAME"@ && st.open.len() > 0 {
                assert(st.open[st.open.len() - 1] == st.open.last());
                if let Some(idx) = st.open.last().node {
                    let upd = NodeV { end: t.after, ..st.nodes[idx as int] };
                    assert(s2.nodes == st.nodes.update(idx as int, upd));
                    assert forall|i: int| 0 <= i < st.nodes.len() implies (#[trigger] s2.nodes[i]).name
                        == st.nodes[i].name && s2.nodes[i].parent == st.nodes[i].parent by {
                        if i != idx as int {
                            assert(s2.nodes[i] == st.nodes[i]);
                        } else {
                            assert(s2.nodes[i] == upd);
                        }
                    }
                }
                assert forall|i: int| 0 <= i < s2.named.len() implies #[trigger] s2.named[i]
                    < s2.nodes.len() by {
                    assert(s2.named[i] == st.named[i]);
                }
                assert forall|i: int| 0 <= i < s2.open.len() implies ((#[trigger] s2.open[i]).node matches Some(n)
                    ==> n < s2.nodes.len()) by {
                    assert(s2.open[i] == st.open[i]);
                }
            } else {
                assert(s2.nodes == st.nodes);
            }
        },
        _ => {},
    }
}

/// Each token adds at most one node, and the stacks only refer to nodes
/// already built.
proof fn lemma_refs_ok(toks: Seq<TokenV>, k: nat)
    requires
        k <= usize::MAX,
    ensures
        state_after(toks, k).nodes.len() <= k,
        refs_ok(state_after(toks, k)),
    decreases k,
{
    if k > 0 {
        let j = (k - 1) as nat;
        lemma_refs_ok(toks, j);
        lemma_step_keeps_nodes(state_after(toks, j), toks[j as int]);
    }
}

/// The path names of a node depend only on the names and parents of the
/// nodes up to it.
proof fn lemma_path_names_prefix(a: Seq<NodeV>, b: Seq<NodeV>, i: int)
    requires
        0 <= i < a.len() <= b.len(),
        forall|j: int| 0 <= j < a.len() ==> (#[trigger] b[j]).name == a[j].name && b[j].parent
            == a[j].parent,
    ensures
        path_names(b, i) == path_names(a, i),
    decreases i,
{
    assert(b[i].name == a[i].name && b[i].parent == a[i].parent);
    if let Some(p) = a[i].parent {
        if p < i {
            lemma_path_names_prefix(a, b, p as int);
        }
    }
}

/// A node's parent is the nearest enclosing element that has a
/// `SHORT-NAME`, whatever its tag: when the text of a tag's own
/// `SHORT-NAME` is read (and no tag was renamed before), the tag becomes a
/// new node with that name and tag, its frame records the node, and the
/// node's parent is the innermost named open frame around it (`None` when
/// there is none). So the full path of the node, in the finished tree too,
/// is its parent's path with its own name added.
pub proof fn lemma_node_parent_is_nearest_named_ancestor(toks: Seq<TokenV>, k: nat)
    requires
        k < toks.len() <= usize::MAX,
        no_renaming(toks, k),
        creates_node(state_after(toks, k), toks[k as int]),
    ensures
        ({
            let st = state_after(toks, k);
            let after = state_after(toks, k + 1);
            let idx = st.nodes.len() as int;
            let around = open_named(st.open.drop_last());
            let parent = if around.len() > 0 {
                Some(around.last())
            } else {
                None
            };
            &&& open_named(st.open) == around
            &&& after.nodes.len() == idx + 1
            &&& after.open.last().node == Some(idx as usize)
            &&& after.nodes[idx].name == toks[k as int].kind->text
            &&& after.nodes[idx].tag == st.open.last().tag
            &&& after.nodes[idx].parent == parent
            &&& forall|m: nat|
                k < m <= toks.len() ==> (#[trigger] state_after(toks, m)).nodes[idx].parent
                    == parent && path_names(state_after(toks, m).nodes, idx) == match parent {
                    Some(p) => path_names(state_after(toks, m).nodes, p as int).push(
                        toks[k as int].kind->text,
                    ),
                    None => seq![toks[k as int].kind->text],
                }
        }),
{
    let st = state_after(toks, k);
    let after = state_after(toks, k + 1);
    let idx = st.nodes.len() as int;
    lemma_named_stack_tracks_open_frames(toks, k);
    assert(after == step(st, toks[k as int]));
    lemma_refs_ok(toks, k);
    assert forall|m: nat| k < m <= toks.len() implies (#[trigger] state_after(toks, m)).nodes[idx].parent
        == after.nodes[idx].parent && path_names(state_after(toks, m).nodes, idx) == match after.nodes[idx].parent {
            Some(p) => path_names(state_after(toks, m).nodes, p as int).push(toks[k as int].kind->text),
            None => seq![toks[k as int].kind->text],
        } by {
        let ns = state_after(toks, m).nodes;
        lemma_nodes_stable(toks, k + 1, m);
        lemma_path_names_prefix(after.nodes, ns, idx);
        assert(ns[idx].name == toks[k as int].kind->text);
        match after.nodes[idx].parent {
            Some(p) => {
                assert(p < idx);
                lemma_path_names_prefix(after.nodes, ns, p as int);
            },
            None => {},
        }
    }
}

/// The innermost named open frame around the innermost open tag, if any.
pub open spec fn enclosing_named(open: Seq<FrameV>) -> Option<usize> {
    let around = open_named(open.drop_last());
    if around.len() > 0 {
        Some(around.last())
    } else {
        None
    }
}

/// Token `k` is where node `idx` was made: the text that named the
/// innermost open tag when `idx` nodes existed.
pub open spec fn node_made_at(toks: Seq<TokenV>, k: nat, idx: int) -> bool {
    &&& k < toks.len()
    &&& creates_node(state_after(toks, k), toks[k as int])
    &&& state_after(toks, k).nodes.len() == idx
}

/// Every node built within the first `m` tokens was made by one of them.
proof fn lemma_node_made(toks: Seq<TokenV>, m: nat, idx: int)
    requires
        m <= toks.len() <= usize::MAX,
        no_renaming(toks, m),
        0 <= idx < state_after(toks, m).nodes.len(),
    ensures
        exists|k: nat| k < m && #[trigger] node_made_at(toks, k, idx),
    decreases m,
{
    if m > 0 {
        let j = (m - 1) as nat;
        let st = state_after(toks, j);
        assert(no_renaming(toks, j));
        lemma_refs_ok(toks, j);
        lemma_step_keeps_nodes(st, toks[j as int]);
        assert(state_after(toks, m) == step(st, toks[j as int]));
        if idx < st.nodes.len() {
            lemma_node_made(toks, j, idx);
            let k = choose|k: nat| k < j && #[trigger] node_made_at(toks, k, idx);
            assert(node_made_at(toks, k, idx));
        } else {
            assert(!renames(st, toks[j as int]));
            assert(node_made_at(toks, j, idx));
        }
    }
}

/// Node `idx` of `nodes`, made by token `k`, has as parent the innermost
/// named open frame around the tag it names, as its name the text of token
/// `k`, and as path its parent's path with its own name added.
pub open spec fn made_under_nearest_named(nodes: Seq<NodeV>, toks: Seq<TokenV>, k: nat, idx: int) -> bool {
    let name = toks[k as int].kind->text;
    &&& nodes[idx].parent == enclosing_named(state_after(toks, k).open)
    &&& nodes[idx].name == name
    &&& path_names(nodes, idx) == match enclosing_named(state_after(toks, k).open) {
        Some(p) => path_names(nodes, p as int).push(name),
        None => seq![name],
    }
}

/// Node `idx` of the tree built from `toks` was made by some token, under
/// the nearest named open frame.
pub open spec fn node_from_nearest_named(toks: Seq<TokenV>, idx: int) -> bool {
    exists|k: nat| #[trigger] node_made_at(toks, k, idx) && made_under_nearest_named(
        tree_of(toks).unwrap(),
        toks,
        k,
        idx,
    )
}

/// Node `idx` of a finished tree was made by some token, under the nearest
/// named open frame.
proof fn lemma_tree_node_origin(toks: Seq<TokenV>, idx: int)
    requires
        1 <= toks.len() <= usize::MAX,
        no_renaming(toks, (toks.len() - 1) as nat),
        tree_of(toks) is Some,
        0 <= idx < tree_of(toks).unwrap().len(),
    ensures
        node_from_nearest_named(toks, idx),
{
    let n = (toks.len() - 1) as nat;
    let nodes = tree_of(toks).unwrap();
    assert(nodes == state_after(toks, n).nodes);
    lemma_node_made(toks, n, idx);
    let k = choose|k: nat| k < n && #[trigger] node_made_at(toks, k, idx);
    assert(no_renaming(toks, k));
    lemma_node_parent_is_nearest_named_ancestor(toks, k);
    lemma_nodes_stable(toks, k + 1, n);
    assert(nodes[idx].name == toks[k as int].kind->text);
    assert(made_under_nearest_named(nodes, toks, k, idx));
    assert(node_made_at(toks, k, idx));
}

/// Every node of a finished tree has as parent the nearest enclosing element
/// that has a `SHORT-NAME`, whatever its tag (`None` when there is none),
/// and its full path is its parent's path with its own name added; this
/// holds whenever no tag was named twice.
pub proof fn lemma_tree_parents_are_nearest_named_ancestors(toks: Seq<TokenV>)
    requires
        1 <= toks.len() <= usize::MAX,
        no_renaming(toks, (toks.len() - 1) as nat),
        tree_of(toks) is Some,
    ensures
        forall|idx: int|
            0 <= idx < tree_of(toks).unwrap().len() ==> #[trigger] node_from_nearest_named(toks, idx),
{
    assert forall|idx: int| 0 <= idx < tree_of(toks).unwrap().len() implies #[trigger] node_from_nearest_named(
        toks,
        idx,
    ) by {
        lemma_tree_node_origin(toks, idx);
    }
}

/// The mutable state of tree building.
struct Builder {
    nodes: Vec<Node>,
    open: Vec<Frame>,
    named: Vec<usize>,
    capturing: bool,
    depth: usize,
}

impl View for Builder {
    type V = BuildState;

    closed spec fn view(&self) -> BuildState {
        BuildState {
            nodes: nodes_view(self.nodes@),
            open: frames_view(self.open@),
            named: self.named@,
            capturing: self.capturing,
            depth: self.depth as nat,
        }
    }
}

/// Applies one token to the building state.
fn apply_token(b: &mut Builder, tok: &Token)
    requires
        state_wf(old(b)@, tok@.before),
        tok@.before < tok@.after,
        old(b).depth < usize::MAX,
    ensures
        final(b)@ == step(old(b)@, tok@),
        state_wf(final(b)@, tok@.after),
{
    let n0 = b.nodes.len();
    let ghost st = b@;
    match &tok.kind {
        TokenKind::Start { name, .. } => {
            let d = b.depth + 1;
            if chars_eq_str(name, "SHORT-NAME") {
                if b.open.len() > 0 {
                    let top_node = b.open[b.open.len() - 1].node;
                    let top_depth = b.open[b.open.len() - 1].depth;
                    assert(frames_view(b.open@).last() == b.open@.last()@);
                    if top_node.is_none() && d - 1 == top_depth {
                        b.capturing = true;
                    }
                }
                b.depth = d;
            } else {
                let frame = Frame {
                    depth: d,
                    tag_name: copy_chars(name),
                    node: None,
                    start: tok.before,
                };
                b.open.push(frame);
                b.depth = d;
                assert(frames_view(b.open@) =~= st.open.push(
                    FrameV { depth: d as nat, tag: name@, node: None, start: tok@.before },
                ));
            }
        },
        TokenKind::Text { text } => {
            if b.capturing {
                if b.open.len() > 0 {
                    let mut top = b.open.pop().unwrap();
                    assert(frames_view(b.open@) =~= st.open.drop_last());
                    assert(top@ == st.open.last());
                    let idx = b.nodes.len();
                    let parent = if b.named.len() > 0 {
                        Some(b.named[b.named.len() - 1])
                    } else {
                        None
                    };
                    let mut tag: Vec<char> = Vec::new();
                    std::mem::swap(&mut tag, &mut top.tag_name);
                    let node = Node {
                        name: copy_chars(text),
                        tag,
                        parent,
                        start: top.start,
                        end: top.start,
                    };
                    b.nodes.push(node);
                    top.node = Some(idx);
                    b.open.push(top);
                    b.named.push(idx);
                    b.capturing = false;
                    assert(nodes_view(b.nodes@) =~= st.nodes.push(node@));
                    assert(frames_view(b.open@) =~= st.open.update(
                        st.open.len() - 1,
                        FrameV { tag: Seq::empty(), node: Some(idx), ..st.open.last() },
                    ));
                } else {
                    b.capturing = false;
                }
            }
        },
        TokenKind::End { name } => {
            let d = if b.depth > 0 {
                b.depth - 1
            } else {
                0
            };
            if !chars_eq_str(name, "SHORT-NAME") && b.open.len() > 0 {
                let top = b.open.pop().unwrap();
                assert(frames_view(b.open@) =~= st.open.drop_last());
                assert(top@ == st.open.last());
                match top.node {
                    Some(idx) => {
                        b.named.pop();
                        assert(st.named.len() > 0 ==> b.named@ =~= st.named.drop_last());
                        assert(nodes_view(b.nodes@)[idx as int] == b.nodes@[idx as int]@);
                        b.nodes[idx].end = tok.after;
                        assert(nodes_view(b.nodes@) =~= st.nodes.update(
                            idx as int,
                            NodeV { end: tok@.after, ..st.nodes[idx as int] },
                        ));
                    },
                    None => {},
                }
            }
            b.depth = d;
        },
        _ => {},
    }
    proof {
        assert(st.nodes.len() == n0);
        lemma_step_wf(st, tok@);
    }
}

/// Builds the tree from a token stream whose last token, and only that
/// one, ends the stream; `None` when it ends in an error.
pub fn tree_from_tokens(toks: &Vec<Token>, Ghost(len): Ghost<nat>) -> (r: Option<Tree>)
    requires
        toks@.len() >= 1,
        is_terminal(tokens_view(toks@).last().kind),
        forall|k: int| 0 <= k < toks@.len() - 1 ==> !is_terminal(#[trigger] tokens_view(toks@)[k].kind),
        offsets_ok(tokens_view(toks@), len),
    ensures
        match r {
            Some(t) => tree_of(tokens_view(toks@)) == Some(t@) && nodes_wf(t@, len)
                && tagged_starts_distinct(t@),
            None => tree_of(tokens_view(toks@)) is None,
        },
{
    let ghost tv = tokens_view(toks@);
    let mut b = Builder {
        nodes: Vec::new(),
        open: Vec::new(),
        named: Vec::new(),
        capturing: false,
        depth: 0,
    };
    assert(nodes_view(b.nodes@) =~= Seq::<NodeV>::empty());
    assert(frames_view(b.open@) =~= Seq::<FrameV>::empty());
    assert(b.named@ =~= Seq::<usize>::empty());
    assert(b@ == initial_state());
    let last = toks.len() - 1;
    let mut i: usize = 0;
    while i < last
        invariant
            tv == tokens_view(toks@),
            last == toks@.len() - 1,
            0 <= i <= last,
            b@ == state_after(tv, i as nat),
            state_wf(b@, tv[i as int].before),
            b.depth <= i,
            offsets_ok(tv, len),
        decreases last - i,
    {
        assert(tv[i as int] == toks@[i as int]@);
        assert(tv[i as int].before < tv[i as int].after);
        apply_token(&mut b, &toks[i]);
        assert(tv[i as int].after == tv[i + 1].before);
        i = i + 1;
        proof {
            if b.depth > i {
                assert(false);
            }
        }
    }
    assert(tv[last as int] == toks@[last as int]@);
    match &toks[last].kind {
        TokenKind::Error => None,
        _ => {
            assert(tv[last as int].before <= len);
            Some(Tree { nodes: b.nodes })
        },
    }
}

/// Reads `input` once and builds the [`Tree`] of every `AR-PACKAGE` and
/// every named element at any depth; `None` when the reader reports an
/// error.
///
/// Every open tag is tracked uniformly on a single stack, regardless of its
/// name: a tag becomes a node the moment a direct `SHORT-NAME` child is
/// seen, and a new node's parent is simply the nearest still-open named
/// ancestor.
pub fn build_tree(input: &[u8]) -> (r: Option<Tree>)
    ensures
        match r {
            Some(t) => spec_tree(input@) == Some(t@) && nodes_wf(t@, input@.len())
                && tagged_starts_distinct(t@),
            None => spec_tree(input@) is None,
        },
{
    let toks = tokenize(input);
    tree_from_tokens(&toks, Ghost(input@.len()))
}

} // verus!
