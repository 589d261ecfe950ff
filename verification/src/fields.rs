//! The direct child fields of the elements inside `<ELEMENTS>` blocks, read
//! from an ARXML document's token stream: `diff -e` compares them.
//!
//! A field list is kept as a vector of `(key, value)` pairs with distinct
//! keys; its view is the map from each key to its value.
use vstd::prelude::*;

use crate::text::{
    chars_eq, chars_eq_str, chars_of, join_chars, join_path, normalise, normalise_path, seqs_of,
    slice_from, slice_range, string_of, trim_chars, trim_ws,
};
use crate::tree::copy_chars;
use crate::xml::{is_terminal, tokens_view, Token, TokenKind, TokenKindV, TokenV, input_tokens,
    tokenize};

verus! {

/// A list of `(key, value)` pairs read as a map; a later pair overrides an
/// earlier one with the same key.
pub open spec fn assoc_map<V>(s: Seq<(Seq<char>, V)>) -> Map<Seq<char>, V>
    decreases s.len(),
{
    if s.len() == 0 {
        Map::empty()
    } else {
        assoc_map(s.drop_last()).insert(s.last().0, s.last().1)
    }
}

/// No key occurs twice.
pub open spec fn keys_distinct<V>(s: Seq<(Seq<char>, V)>) -> bool {
    forall|i: int, j: int| 0 <= i < j < s.len() ==> (#[trigger] s[i]).0 != (#[trigger] s[j]).0
}

/// The keys of the map are exactly the keys of the list.
pub proof fn lemma_assoc_dom<V>(s: Seq<(Seq<char>, V)>, k: Seq<char>)
    ensures
        assoc_map(s).dom().contains(k) <==> exists|i: int| 0 <= i < s.len() && (#[trigger] s[i]).0 == k,
    decreases s.len(),
{
    if s.len() > 0 {
        let t = s.drop_last();
        lemma_assoc_dom(t, k);
        if assoc_map(t).dom().contains(k) {
            let i = choose|i: int| 0 <= i < t.len() && (#[trigger] t[i]).0 == k;
            assert(s[i] == t[i]);
        }
        if exists|i: int| 0 <= i < s.len() && (#[trigger] s[i]).0 == k {
            let i = choose|i: int| 0 <= i < s.len() && (#[trigger] s[i]).0 == k;
            if i < s.len() - 1 {
                assert(t[i] == s[i]);
            }
        }
    }
}

/// With distinct keys, the map gives each key the value it is listed with.
pub proof fn lemma_assoc_index<V>(s: Seq<(Seq<char>, V)>, i: int)
    requires
        keys_distinct(s),
        0 <= i < s.len(),
    ensures
        assoc_map(s).dom().contains(s[i].0),
        assoc_map(s)[s[i].0] == s[i].1,
    decreases s.len(),
{
    let t = s.drop_last();
    if i < s.len() - 1 {
        assert(keys_distinct(t)) by {
            assert forall|a: int, b: int| 0 <= a < b < t.len() implies (#[trigger] t[a]).0 != (
            #[trigger] t[b]).0 by {
                assert(t[a] == s[a] && t[b] == s[b]);
            }
        }
        assert(s[i] == t[i]);
        lemma_assoc_index(t, i);
        assert(s[i].0 != s.last().0);
    }
}

/// With distinct keys, replacing the value of a listed key is inserting it
/// into the map.
pub proof fn lemma_assoc_update<V>(s: Seq<(Seq<char>, V)>, i: int, v: V)
    requires
        keys_distinct(s),
        0 <= i < s.len(),
    ensures
        assoc_map(s.update(i, (s[i].0, v))) == assoc_map(s).insert(s[i].0, v),
        keys_distinct(s.update(i, (s[i].0, v))),
    decreases s.len(),
{
    let k = s[i].0;
    let u = s.update(i, (k, v));
    let t = s.drop_last();
    assert(keys_distinct(u)) by {
        assert forall|a: int, b: int| 0 <= a < b < u.len() implies (#[trigger] u[a]).0 != (
        #[trigger] u[b]).0 by {
            assert(u[a].0 == s[a].0 && u[b].0 == s[b].0);
        }
    }
    if i == s.len() - 1 {
        assert(u.drop_last() =~= t);
        assert(assoc_map(u) =~= assoc_map(s).insert(k, v));
    } else {
        assert(keys_distinct(t)) by {
            assert forall|a: int, b: int| 0 <= a < b < t.len() implies (#[trigger] t[a]).0 != (
            #[trigger] t[b]).0 by {
                assert(t[a] == s[a] && t[b] == s[b]);
            }
        }
        assert(t[i] == s[i]);
        lemma_assoc_update(t, i, v);
        assert(u.drop_last() =~= t.update(i, (k, v)));
        assert(u.last() == s.last());
        assert(s.last().0 != k);
        assert(assoc_map(u) =~= assoc_map(s).insert(k, v));
    }
}

/// Appending a pair with a new key keeps the keys distinct.
pub proof fn lemma_assoc_push<V>(s: Seq<(Seq<char>, V)>, k: Seq<char>, v: V)
    requires
        keys_distinct(s),
        forall|i: int| 0 <= i < s.len() ==> (#[trigger] s[i]).0 != k,
    ensures
        keys_distinct(s.push((k, v))),
        assoc_map(s.push((k, v))) == assoc_map(s).insert(k, v),
{
    let u = s.push((k, v));
    assert(u.drop_last() =~= s);
    assert forall|a: int, b: int| 0 <= a < b < u.len() implies (#[trigger] u[a]).0 != (
    #[trigger] u[b]).0 by {
        assert(u[a] == s[a]);
        if b < s.len() {
            assert(u[b] == s[b]);
        }
    }
}

/// The views of a list of character-vector pairs.
pub open spec fn pairs_view(v: Seq<(Vec<char>, Vec<char>)>) -> Seq<(Seq<char>, Seq<char>)> {
    v.map_values(|p: (Vec<char>, Vec<char>)| (p.0@, p.1@))
}

/// The field map of a pair list.
pub open spec fn fields_map(v: Seq<(Vec<char>, Vec<char>)>) -> Map<Seq<char>, Seq<char>> {
    assoc_map(pairs_view(v))
}

/// The index of the first pair whose key is `key`.
pub fn find_key<T>(v: &Vec<(Vec<char>, T)>, key: &Vec<char>) -> (r: Option<usize>)
    ensures
        match r {
            Some(i) => i < v@.len() && v@[i as int].0@ == key@,
            None => forall|i: int| 0 <= i < v@.len() ==> (#[trigger] v@[i]).0@ != key@,
        },
{
    let mut i: usize = 0;
    while i < v.len()
        invariant
            0 <= i <= v@.len(),
            forall|j: int| 0 <= j < i ==> (#[trigger] v@[j]).0@ != key@,
        decreases v@.len() - i,
    {
        if chars_eq(&v[i].0, key) {
            return Some(i);
        }
        i = i + 1;
    }
    None
}

/// `HashMap::insert` on a field list.
fn set_field(v: &mut Vec<(Vec<char>, Vec<char>)>, key: Vec<char>, value: Vec<char>)
    requires
        keys_distinct(pairs_view(old(v)@)),
    ensures
        keys_distinct(pairs_view(final(v)@)),
        fields_map(final(v)@) == fields_map(old(v)@).insert(key@, value@),
{
    let ghost s = pairs_view(v@);
    let ghost kv = key@;
    let ghost vv = value@;
    match find_key(v, &key) {
        Some(i) => {
            assert(s[i as int].0 == kv);
            v[i] = (key, value);
            assert(pairs_view(v@) =~= s.update(i as int, (kv, vv)));
            proof {
                lemma_assoc_update(s, i as int, vv);
            }
        },
        None => {
            assert forall|i: int| 0 <= i < s.len() implies (#[trigger] s[i]).0 != kv by {
                assert(s[i].0 == v@[i].0@);
            }
            v.push((key, value));
            assert(pairs_view(v@) =~= s.push((kv, vv)));
            proof {
                lemma_assoc_push(s, kv, vv);
            }
        },
    }
}

/// `HashMap::entry(key).or_insert_with(String::new)` on a field list.
fn set_field_if_absent(v: &mut Vec<(Vec<char>, Vec<char>)>, key: Vec<char>)
    requires
        keys_distinct(pairs_view(old(v)@)),
    ensures
        keys_distinct(pairs_view(final(v)@)),
        fields_map(final(v)@) == if fields_map(old(v)@).dom().contains(key@) {
            fields_map(old(v)@)
        } else {
            fields_map(old(v)@).insert(key@, Seq::empty())
        },
{
    let ghost s = pairs_view(v@);
    let ghost kv = key@;
    match find_key(v, &key) {
        Some(i) => {
            proof {
                assert(s[i as int].0 == kv);
                lemma_assoc_dom(s, kv);
            }
        },
        None => {
            assert forall|i: int| 0 <= i < s.len() implies (#[trigger] s[i]).0 != kv by {
                assert(s[i].0 == v@[i].0@);
            }
            proof {
                lemma_assoc_dom(s, kv);
            }
            v.push((key, Vec::new()));
            assert(pairs_view(v@) =~= s.push((kv, Seq::<char>::empty())));
            proof {
                lemma_assoc_push(s, kv, Seq::<char>::empty());
            }
        },
    }
}

/// The view of an optional character vector.
pub open spec fn opt_view(o: Option<Vec<char>>) -> Option<Seq<char>> {
    match o {
        Some(v) => Some(v@),
        None => None,
    }
}

/// The state of reading the fields of every element: the names of the
/// packages around the current position, the nesting depth, whether (and at
/// which depth) an `<ELEMENTS>` block is open, the depth of the element being
/// read and its path once named, the field being read and the fields so far,
/// whether the next text is a `SHORT-NAME` (and whether an element's own),
/// and the fields of every element closed so far.
pub ghost struct AllFieldsState {
    pub pkg_stack: Seq<Seq<char>>,
    pub depth: nat,
    pub in_elements: bool,
    pub elements_depth: nat,
    pub element_tag_depth: nat,
    pub element_path: Option<Seq<char>>,
    pub field_depth: nat,
    pub current_field: Option<Seq<char>>,
    pub current_fields: Map<Seq<char>, Seq<char>>,
    pub read_short_name: bool,
    pub sn_is_element: bool,
    pub result: Map<Seq<char>, Map<Seq<char>, Seq<char>>>,
}

/// The state before any token.
pub open spec fn all_fields_initial() -> AllFieldsState {
    AllFieldsState {
        pkg_stack: Seq::empty(),
        depth: 0,
        in_elements: false,
        elements_depth: 0,
        element_tag_depth: 0,
        element_path: None,
        field_depth: 0,
        current_field: None,
        current_fields: Map::empty(),
        read_short_name: false,
        sn_is_element: false,
        result: Map::empty(),
    }
}

/// How a start tag named `name` changes the state.
pub open spec fn all_fields_start(st: AllFieldsState, name: Seq<char>) -> AllFieldsState {
    let d = st.depth + 1;
    if st.element_path is Some {
        if st.field_depth == 0 && d == st.element_tag_depth + 1 {
            if name == "SHORT-NAME"@ {
                AllFieldsState {
                    depth: d,
                    field_depth: d,
                    current_field: Some(name),
                    read_short_name: true,
                    sn_is_element: false,
                    ..st
                }
            } else {
                AllFieldsState { depth: d, field_depth: d, current_field: Some(name), ..st }
            }
        } else {
            AllFieldsState { depth: d, ..st }
        }
    } else if st.in_elements && d == st.elements_depth + 1 && st.element_tag_depth == 0 {
        AllFieldsState { depth: d, element_tag_depth: d, current_fields: Map::empty(), ..st }
    } else if st.in_elements && st.element_tag_depth > 0 && name == "SHORT-NAME"@ && d
        == st.element_tag_depth + 1 {
        AllFieldsState { depth: d, read_short_name: true, sn_is_element: true, ..st }
    } else if name == "ELEMENTS"@ && !st.in_elements {
        AllFieldsState { depth: d, in_elements: true, elements_depth: d, ..st }
    } else if name == "SHORT-NAME"@ && !st.in_elements {
        AllFieldsState { depth: d, read_short_name: true, sn_is_element: false, ..st }
    } else {
        AllFieldsState { depth: d, ..st }
    }
}

/// How a non-empty trimmed text `t` changes the state.
pub open spec fn all_fields_text(st: AllFieldsState, t: Seq<char>) -> AllFieldsState {
    if st.read_short_name {
        if st.sn_is_element {
            AllFieldsState {
                read_short_name: false,
                element_path: Some(join_path(st.pkg_stack) + "/"@ + t),
                current_fields: st.current_fields.insert("SHORT-NAME"@, t),
                ..st
            }
        } else if st.element_path is Some && st.field_depth > 0 && st.depth == st.field_depth {
            AllFieldsState {
                read_short_name: false,
                current_fields: st.current_fields.insert("SHORT-NAME"@, t),
                current_field: None,
                field_depth: 0,
                ..st
            }
        } else if !st.in_elements {
            AllFieldsState { read_short_name: false, pkg_stack: st.pkg_stack.push(t), ..st }
        } else {
            AllFieldsState { read_short_name: false, ..st }
        }
    } else if st.element_path is Some && st.field_depth > 0 && st.depth == st.field_depth {
        AllFieldsState {
            current_fields: match st.current_field {
                Some(tag) => st.current_fields.insert(tag, t),
                None => st.current_fields,
            },
            current_field: None,
            field_depth: 0,
            ..st
        }
    } else {
        st
    }
}

/// How an end tag named `name` changes the state.
pub open spec fn all_fields_end(st: AllFieldsState, name: Seq<char>) -> AllFieldsState {
    let d = if st.depth > 0 {
        (st.depth - 1) as nat
    } else {
        0
    };
    if st.element_path is Some {
        if st.field_depth > 0 && st.depth == st.field_depth {
            AllFieldsState {
                current_fields: match st.current_field {
                    Some(tag) => if st.current_fields.dom().contains(tag) {
                        st.current_fields
                    } else {
                        st.current_fields.insert(tag, Seq::empty())
                    },
                    None => st.current_fields,
                },
                current_field: None,
                field_depth: 0,
                depth: d,
                ..st
            }
        } else if st.depth == st.element_tag_depth {
            AllFieldsState {
                result: st.result.insert(st.element_path.unwrap(), st.current_fields),
                current_fields: Map::empty(),
                element_path: None,
                element_tag_depth: 0,
                depth: d,
                ..st
            }
        } else {
            AllFieldsState { depth: d, ..st }
        }
    } else if st.in_elements && st.element_tag_depth > 0 && st.depth == st.element_tag_depth {
        AllFieldsState { element_tag_depth: 0, depth: d, ..st }
    } else if name == "ELEMENTS"@ && st.in_elements && st.depth == st.elements_depth {
        AllFieldsState { in_elements: false, elements_depth: 0, depth: d, ..st }
    } else if name == "AR-PACKAGE"@ && !st.in_elements {
        AllFieldsState {
            pkg_stack: if st.pkg_stack.len() > 0 {
                st.pkg_stack.drop_last()
            } else {
                st.pkg_stack
            },
            depth: d,
            ..st
        }
    } else {
        AllFieldsState { depth: d, ..st }
    }
}

/// How one token changes the state; texts are trimmed and empty ones
/// ignored.
pub open spec fn all_fields_step(st: AllFieldsState, t: TokenV) -> AllFieldsState {
    match t.kind {
        TokenKindV::Start { name, .. } => all_fields_start(st, name),
        TokenKindV::Text { text } => if trim_ws(text).len() == 0 {
            st
        } else {
            all_fields_text(st, trim_ws(text))
        },
        TokenKindV::End { name } => all_fields_end(st, name),
        _ => st,
    }
}

/// The state after the first `k` tokens.
pub open spec fn all_fields_after(toks: Seq<TokenV>, k: nat) -> AllFieldsState
    decreases k,
{
    if k == 0 {
        all_fields_initial()
    } else {
        all_fields_step(all_fields_after(toks, (k - 1) as nat), toks[k - 1])
    }
}

/// The fields of every named element of the document `input`, by element
/// path (the `/`-joined names of the enclosing packages, `/`, and the
/// element's name); `None` when reading it fails.
pub open spec fn spec_all_fields(input: Seq<u8>) -> Option<Map<Seq<char>, Map<Seq<char>, Seq<char>>>> {
    let toks = input_tokens(input);
    if toks.last().kind is Error {
        None
    } else {
        Some(all_fields_after(toks, (toks.len() - 1) as nat).result)
    }
}

/// An element path with its field list.
pub type ElementEntry = (Vec<char>, Vec<(Vec<char>, Vec<char>)>);

/// The views of a list of element entries: each path with its field map.
pub open spec fn entries_view(v: Seq<ElementEntry>) -> Seq<(Seq<char>, Map<Seq<char>, Seq<char>>)> {
    v.map_values(|e: ElementEntry| (e.0@, fields_map(e.1@)))
}

/// Every field list of the entries has distinct keys, and no path occurs
/// twice.
pub open spec fn entries_wf(v: Seq<ElementEntry>) -> bool {
    &&& keys_distinct(entries_view(v))
    &&& forall|i: int| 0 <= i < v.len() ==> keys_distinct(pairs_view(#[trigger] v[i].1@))
}

/// The mutable state of reading every element's fields.
struct AllFieldsReader {
    pkg_stack: Vec<Vec<char>>,
    depth: usize,
    in_elements: bool,
    elements_depth: usize,
    element_tag_depth: usize,
    element_path: Option<Vec<char>>,
    field_depth: usize,
    current_field: Option<Vec<char>>,
    current_fields: Vec<(Vec<char>, Vec<char>)>,
    read_short_name: bool,
    sn_is_element: bool,
    result: Vec<ElementEntry>,
}

impl View for AllFieldsReader {
    type V = AllFieldsState;

    closed spec fn view(&self) -> AllFieldsState {
        AllFieldsState {
            pkg_stack: seqs_of(self.pkg_stack@),
            depth: self.depth as nat,
            in_elements: self.in_elements,
            elements_depth: self.elements_depth as nat,
            element_tag_depth: self.element_tag_depth as nat,
            element_path: opt_view(self.element_path),
            field_depth: self.field_depth as nat,
            current_field: opt_view(self.current_field),
            current_fields: fields_map(self.current_fields@),
            read_short_name: self.read_short_name,
            sn_is_element: self.sn_is_element,
            result: assoc_map(entries_view(self.result@)),
        }
    }
}

impl AllFieldsReader {
    /// The lists behind the maps have distinct keys.
    closed spec fn wf(&self) -> bool {
        &&& keys_distinct(pairs_view(self.current_fields@))
        &&& entries_wf(self.result@)
    }
}

/// `HashMap::insert` on an entry list.
fn set_entry(v: &mut Vec<ElementEntry>, key: Vec<char>, fields: Vec<(Vec<char>, Vec<char>)>)
    requires
        entries_wf(old(v)@),
        keys_distinct(pairs_view(fields@)),
    ensures
        entries_wf(final(v)@),
        assoc_map(entries_view(final(v)@)) == assoc_map(entries_view(old(v)@)).insert(
            key@,
            fields_map(fields@),
        ),
{
    let ghost s = entries_view(v@);
    let ghost old_v = v@;
    let ghost kv = key@;
    let ghost fv = fields_map(fields@);
    let ghost fl = fields@;
    match find_key(v, &key) {
        Some(i) => {
            assert(s[i as int].0 == kv);
            v[i] = (key, fields);
            assert(entries_view(v@) =~= s.update(i as int, (kv, fv)));
            proof {
                lemma_assoc_update(s, i as int, fv);
            }
            assert forall|j: int| 0 <= j < v@.len() implies keys_distinct(
                pairs_view(#[trigger] v@[j].1@),
            ) by {
                if j != i {
                    assert(v@[j] == old_v[j]);
                }
            }
        },
        None => {
            assert forall|i: int| 0 <= i < s.len() implies (#[trigger] s[i]).0 != kv by {
                assert(s[i].0 == v@[i].0@);
            }
            v.push((key, fields));
            assert(entries_view(v@) =~= s.push((kv, fv)));
            proof {
                lemma_assoc_push(s, kv, fv);
            }
            assert forall|j: int| 0 <= j < v@.len() implies keys_distinct(
                pairs_view(#[trigger] v@[j].1@),
            ) by {
                if j < old_v.len() {
                    assert(v@[j] == old_v[j]);
                }
            }
        },
    }
}

impl AllFieldsReader {
    /// Applies a start tag named `name`.
    fn apply_start(&mut self, name: &Vec<char>)
        requires
            old(self).wf(),
            old(self).depth < usize::MAX,
        ensures
            final(self).wf(),
            final(self)@ == all_fields_start(old(self)@, name@),
    {
        let ghost st = self@;
        let d = self.depth + 1;
        if self.element_path.is_some() {
            if self.field_depth == 0 && self.element_tag_depth < usize::MAX && d
                == self.element_tag_depth + 1 {
                self.field_depth = d;
                self.current_field = Some(copy_chars(name));
                if chars_eq_str(name, "SHORT-NAME") {
                    self.read_short_name = true;
                    self.sn_is_element = false;
                }
            }
        } else if self.in_elements && self.elements_depth < usize::MAX && d == self.elements_depth
            + 1 && self.element_tag_depth == 0 {
            self.element_tag_depth = d;
            self.current_fields = Vec::new();
            assert(fields_map(self.current_fields@) =~= Map::<Seq<char>, Seq<char>>::empty());
            assert(pairs_view(self.current_fields@) =~= Seq::<(Seq<char>, Seq<char>)>::empty());
        } else if self.in_elements && self.element_tag_depth > 0 && chars_eq_str(name, "SHORT-NAME")
            && self.element_tag_depth < usize::MAX && d == self.element_tag_depth + 1 {
            self.read_short_name = true;
            self.sn_is_element = true;
        } else if chars_eq_str(name, "ELEMENTS") && !self.in_elements {
            self.in_elements = true;
            self.elements_depth = d;
        } else if chars_eq_str(name, "SHORT-NAME") && !self.in_elements {
            self.read_short_name = true;
            self.sn_is_element = false;
        }
        self.depth = d;
    }

    /// Applies a text whose trimmed form `t` is not empty.
    fn apply_text(&mut self, t: &Vec<char>)
        requires
            old(self).wf(),
        ensures
            final(self).wf(),
            final(self)@ == all_fields_text(old(self)@, t@),
    {
        let ghost st = self@;
        if self.read_short_name {
            self.read_short_name = false;
            if self.sn_is_element {
                let mut full = join_chars(&self.pkg_stack, self.pkg_stack.len());
                assert(seqs_of(self.pkg_stack@).take(self.pkg_stack@.len() as int) =~= seqs_of(
                    self.pkg_stack@,
                ));
                let ghost joined = full@;
                full.push('/');
                proof {
                    reveal_strlit("/");
                }
                assert(full@ =~= joined + "/"@ + t@.take(0));
                let mut k: usize = 0;
                while k < t.len()
                    invariant
                        0 <= k <= t@.len(),
                        full@ == joined + "/"@ + t@.take(k as int),
                    decreases t@.len() - k,
                {
                    proof {
                        reveal_strlit("/");
                    }
                    full.push(t[k]);
                    assert(t@.take(k + 1) =~= t@.take(k as int).push(t@[k as int]));
                    assert(joined + "/"@ + t@.take(k + 1) =~= (joined + "/"@ + t@.take(k as int)).push(t@[k as int]));
                    k = k + 1;
                }
                assert(t@.take(t@.len() as int) =~= t@);
                self.element_path = Some(full);
                let key: Vec<char> = vec!['S', 'H', 'O', 'R', 'T', '-', 'N', 'A', 'M', 'E'];
                proof {
                    reveal_strlit("SHORT-NAME");
                }
                assert(key@ =~= "SHORT-NAME"@);
                set_field(&mut self.current_fields, key, copy_chars(t));
            } else if self.element_path.is_some() && self.field_depth > 0 && self.depth
                == self.field_depth {
                let key: Vec<char> = vec!['S', 'H', 'O', 'R', 'T', '-', 'N', 'A', 'M', 'E'];
                proof {
                    reveal_strlit("SHORT-NAME");
                }
                assert(key@ =~= "SHORT-NAME"@);
                set_field(&mut self.current_fields, key, copy_chars(t));
                self.current_field = None;
                self.field_depth = 0;
            } else if !self.in_elements {
                self.pkg_stack.push(copy_chars(t));
                assert(seqs_of(self.pkg_stack@) =~= st.pkg_stack.push(t@));
            }
        } else if self.element_path.is_some() && self.field_depth > 0 && self.depth
            == self.field_depth {
            let mut cf: Option<Vec<char>> = None;
            std::mem::swap(&mut cf, &mut self.current_field);
            match cf {
                Some(tag) => {
                    set_field(&mut self.current_fields, tag, copy_chars(t));
                },
                None => {},
            }
            self.field_depth = 0;
        }
    }

    /// Applies an end tag named `name`.
    fn apply_end(&mut self, name: &Vec<char>)
        requires
            old(self).wf(),
        ensures
            final(self).wf(),
            final(self)@ == all_fields_end(old(self)@, name@),
    {
        let ghost st = self@;
        let d = if self.depth > 0 {
            self.depth - 1
        } else {
            0
        };
        if self.element_path.is_some() {
            if self.field_depth > 0 && self.depth == self.field_depth {
                let mut cf: Option<Vec<char>> = None;
                std::mem::swap(&mut cf, &mut self.current_field);
                match cf {
                    Some(tag) => {
                        set_field_if_absent(&mut self.current_fields, tag);
                    },
                    None => {},
                }
                self.field_depth = 0;
            } else if self.depth == self.element_tag_depth {
                let mut ep: Option<Vec<char>> = None;
                std::mem::swap(&mut ep, &mut self.element_path);
                let mut fields: Vec<(Vec<char>, Vec<char>)> = Vec::new();
                std::mem::swap(&mut fields, &mut self.current_fields);
                assert(fields_map(self.current_fields@) =~= Map::<Seq<char>, Seq<char>>::empty());
                assert(pairs_view(self.current_fields@) =~= Seq::<(Seq<char>, Seq<char>)>::empty());
                match ep {
                    Some(path) => {
                        set_entry(&mut self.result, path, fields);
                    },
                    None => {},
                }
                self.element_tag_depth = 0;
            }
        } else if self.in_elements && self.element_tag_depth > 0 && self.depth
            == self.element_tag_depth {
            self.element_tag_depth = 0;
        } else if chars_eq_str(name, "ELEMENTS") && self.in_elements && self.depth
            == self.elements_depth {
            self.in_elements = false;
            self.elements_depth = 0;
        } else if chars_eq_str(name, "AR-PACKAGE") && !self.in_elements {
            if self.pkg_stack.len() > 0 {
                self.pkg_stack.pop();
                assert(seqs_of(self.pkg_stack@) =~= st.pkg_stack.drop_last());
            }
        }
        self.depth = d;
    }
}

/// Reads the fields of every element from a token stream whose last token,
/// and only that one, ends the stream; `None` when it ends in an error.
pub fn all_fields_of_tokens(toks: &Vec<Token>) -> (r: Option<Vec<ElementEntry>>)
    requires
        toks@.len() >= 1,
    ensures
        match r {
            Some(v) => {
                &&& !(tokens_view(toks@).last().kind is Error)
                &&& entries_wf(v@)
                &&& assoc_map(entries_view(v@)) == all_fields_after(
                    tokens_view(toks@),
                    (toks@.len() - 1) as nat,
                ).result
            },
            None => tokens_view(toks@).last().kind is Error,
        },
{
    let ghost tv = tokens_view(toks@);
    let mut rd = AllFieldsReader {
        pkg_stack: Vec::new(),
        depth: 0,
        in_elements: false,
        elements_depth: 0,
        element_tag_depth: 0,
        element_path: None,
        field_depth: 0,
        current_field: None,
        current_fields: Vec::new(),
        read_short_name: false,
        sn_is_element: false,
        result: Vec::new(),
    };
    assert(seqs_of(rd.pkg_stack@) =~= Seq::<Seq<char>>::empty());
    assert(pairs_view(rd.current_fields@) =~= Seq::<(Seq<char>, Seq<char>)>::empty());
    assert(fields_map(rd.current_fields@) =~= Map::<Seq<char>, Seq<char>>::empty());
    assert(entries_view(rd.result@) =~= Seq::<(Seq<char>, Map<Seq<char>, Seq<char>>)>::empty());
    assert(assoc_map(entries_view(rd.result@)) =~= Map::<Seq<char>, Map<Seq<char>, Seq<char>>>::empty());
    assert(rd@ == all_fields_initial());
    let last = toks.len() - 1;
    let mut i: usize = 0;
    while i < last
        invariant
            tv == tokens_view(toks@),
            last == toks@.len() - 1,
            0 <= i <= last,
            rd.wf(),
            rd@ == all_fields_after(tv, i as nat),
            rd.depth <= i,
        decreases last - i,
    {
        assert(tv[i as int] == toks@[i as int]@);
        match &toks[i].kind {
            TokenKind::Start { name, .. } => {
                rd.apply_start(name);
            },
            TokenKind::Text { text } => {
                let t = trim_chars(text);
                if t.len() > 0 {
                    rd.apply_text(&t);
                }
            },
            TokenKind::End { name } => {
                rd.apply_end(name);
            },
            _ => {},
        }
        i = i + 1;
    }
    assert(tv[last as int] == toks@[last as int]@);
    match &toks[last].kind {
        TokenKind::Error => None,
        _ => Some(rd.result),
    }
}

/// The fields of every element of the document `input` (see
/// [`spec_all_fields`]); `None` when reading it fails.
pub fn all_element_fields(input: &[u8]) -> (r: Option<Vec<ElementEntry>>)
    ensures
        match r {
            Some(v) => entries_wf(v@) && spec_all_fields(input@) == Some(assoc_map(entries_view(v@))),
            None => spec_all_fields(input@) is None,
        },
{
    let toks = tokenize(input);
    all_fields_of_tokens(&toks)
}

/// The views of a list of string pairs.
pub open spec fn string_pairs_view(v: Seq<(String, String)>) -> Seq<(Seq<char>, Seq<char>)> {
    v.map_values(|p: (String, String)| (p.0@, p.1@))
}

/// The views of a list of element paths with their string field lists.
pub open spec fn string_entries_view(v: Seq<(String, Vec<(String, String)>)>) -> Seq<
    (Seq<char>, Map<Seq<char>, Seq<char>>),
> {
    v.map_values(|e: (String, Vec<(String, String)>)| (e.0@, assoc_map(string_pairs_view(e.1@))))
}

/// A field list as strings.
fn pairs_to_strings(v: &Vec<(Vec<char>, Vec<char>)>) -> (r: Vec<(String, String)>)
    ensures
        string_pairs_view(r@) == pairs_view(v@),
{
    let mut out: Vec<(String, String)> = Vec::new();
    let mut i: usize = 0;
    while i < v.len()
        invariant
            0 <= i <= v@.len(),
            string_pairs_view(out@) == pairs_view(v@).take(i as int),
        decreases v@.len() - i,
    {
        let ghost prev = string_pairs_view(out@);
        let k = string_of(v[i].0.as_slice());
        let x = string_of(v[i].1.as_slice());
        out.push((k, x));
        assert(string_pairs_view(out@) =~= prev.push((v@[i as int].0@, v@[i as int].1@)));
        assert(pairs_view(v@).take(i + 1) =~= pairs_view(v@).take(i as int).push(
            pairs_view(v@)[i as int],
        ));
        i = i + 1;
    }
    assert(pairs_view(v@).take(v@.len() as int) =~= pairs_view(v@));
    out
}

/// Every field list of the entries has distinct keys, and no path occurs
/// twice.
pub open spec fn string_entries_wf(v: Seq<(String, Vec<(String, String)>)>) -> bool {
    &&& keys_distinct(string_entries_view(v))
    &&& forall|i: int| 0 <= i < v.len() ==> keys_distinct(string_pairs_view(#[trigger] v[i].1@))
}

/// Collect the direct child tag values of **all** elements in `<ELEMENTS>`
/// blocks of the document `input` in a single pass over its tokens; `None`
/// when reading it fails.
///
/// Each element appears once, under its path: the `/`-joined `SHORT-NAME`s
/// of the enclosing packages, `/`, and its own `SHORT-NAME`. Its fields map
/// each direct child tag to its trimmed text; a child with no text of its
/// own maps to the empty string.
pub fn collect_all_element_fields(input: &[u8]) -> (r: Option<Vec<(String, Vec<(String, String)>)>>)
    ensures
        match r {
            Some(v) => string_entries_wf(v@) && spec_all_fields(input@) == Some(
                assoc_map(string_entries_view(v@)),
            ),
            None => spec_all_fields(input@) is None,
        },
{
    match all_element_fields(input) {
        Some(entries) => {
            let mut out: Vec<(String, Vec<(String, String)>)> = Vec::new();
            let mut i: usize = 0;
            while i < entries.len()
                invariant
                    0 <= i <= entries@.len(),
                    entries_wf(entries@),
                    string_entries_view(out@) == entries_view(entries@).take(i as int),
                    forall|j: int| 0 <= j < i ==> string_pairs_view(#[trigger] out@[j].1@)
                        == pairs_view(entries@[j].1@),
                    out@.len() == i,
                decreases entries@.len() - i,
            {
                let ghost prev = out@;
                let path = string_of(entries[i].0.as_slice());
                let fields = pairs_to_strings(&entries[i].1);
                out.push((path, fields));
                assert(string_entries_view(out@) =~= string_entries_view(prev).push(
                    entries_view(entries@)[i as int],
                ));
                assert(entries_view(entries@).take(i + 1) =~= entries_view(entries@).take(
                    i as int,
                ).push(entries_view(entries@)[i as int]));
                assert forall|j: int| 0 <= j < i + 1 implies string_pairs_view(
                    #[trigger] out@[j].1@,
                ) == pairs_view(entries@[j].1@) by {
                    if j < i {
                        assert(out@[j] == prev[j]);
                    }
                }
                i = i + 1;
            }
            assert(entries_view(entries@).take(entries@.len() as int) =~= entries_view(entries@));
            assert forall|j: int| 0 <= j < out@.len() implies keys_distinct(
                string_pairs_view(#[trigger] out@[j].1@),
            ) by {
                assert(keys_distinct(pairs_view(entries@[j].1@)));
            }
            Some(out)
        },
        None => None,
    }
}

/// The state of reading the fields of one element: the names of the
/// packages around the current position, the nesting depth, whether (and at
/// which depth) the `<ELEMENTS>` block of the wanted package is open, the
/// depth of the element being looked at, whether it is the wanted one (and
/// whether that one was found), the field being read, the fields so far in
/// document order, whether the next text is a package's `SHORT-NAME`, the
/// depth of the outermost open `<ELEMENTS>` block of any package (0 when
/// none is open; names inside such a block are not package names), and
/// whether reading has stopped.
pub ghost struct ElementFieldsState {
    pub pkg_stack: Seq<Seq<char>>,
    pub depth: nat,
    pub in_elements: bool,
    pub elements_depth: nat,
    pub element_tag_depth: nat,
    pub in_target_element: bool,
    pub target_found: bool,
    pub field_depth: nat,
    pub current_field: Option<Seq<char>>,
    pub results: Seq<(Seq<char>, Seq<char>)>,
    pub read_short_name: bool,
    pub outer_elements_depth: nat,
    pub done: bool,
}

/// The state before any token.
pub open spec fn element_fields_initial() -> ElementFieldsState {
    ElementFieldsState {
        pkg_stack: Seq::empty(),
        depth: 0,
        in_elements: false,
        elements_depth: 0,
        element_tag_depth: 0,
        in_target_element: false,
        target_found: false,
        field_depth: 0,
        current_field: None,
        results: Seq::empty(),
        read_short_name: false,
        outer_elements_depth: 0,
        done: false,
    }
}

/// How a start tag named `name` changes the state, looking for an element
/// of the package `pkg_path`.
pub open spec fn element_fields_start(
    st: ElementFieldsState,
    name: Seq<char>,
    pkg_path: Seq<char>,
) -> ElementFieldsState {
    let d = st.depth + 1;
    if st.in_target_element {
        if st.field_depth == 0 && d == st.element_tag_depth + 1 {
            ElementFieldsState { depth: d, field_depth: d, current_field: Some(name), ..st }
        } else {
            ElementFieldsState { depth: d, ..st }
        }
    } else if name == "AR-PACKAGE"@ && !st.in_elements {
        ElementFieldsState { depth: d, ..st }
    } else if name == "SHORT-NAME"@ && !st.in_elements {
        if st.outer_elements_depth == 0 {
            ElementFieldsState { depth: d, read_short_name: true, ..st }
        } else {
            ElementFieldsState { depth: d, ..st }
        }
    } else if name == "ELEMENTS"@ && !st.in_elements {
        if st.outer_elements_depth > 0 {
            ElementFieldsState { depth: d, ..st }
        } else if join_path(st.pkg_stack) == pkg_path {
            ElementFieldsState {
                depth: d,
                in_elements: true,
                elements_depth: d,
                outer_elements_depth: d,
                ..st
            }
        } else {
            ElementFieldsState { depth: d, outer_elements_depth: d, ..st }
        }
    } else if st.in_elements && d == st.elements_depth + 1 && st.element_tag_depth == 0 {
        ElementFieldsState { depth: d, element_tag_depth: d, ..st }
    } else if st.in_elements && st.element_tag_depth > 0 && name == "SHORT-NAME"@ && d
        == st.element_tag_depth + 1 {
        ElementFieldsState { depth: d, read_short_name: true, ..st }
    } else {
        ElementFieldsState { depth: d, ..st }
    }
}

/// How a non-empty trimmed text `t` changes the state, looking for the
/// element named `element_name`.
pub open spec fn element_fields_text(
    st: ElementFieldsState,
    t: Seq<char>,
    element_name: Seq<char>,
) -> ElementFieldsState {
    if st.read_short_name {
        if st.in_elements && st.element_tag_depth > 0 && !st.in_target_element {
            if t == element_name {
                ElementFieldsState {
                    read_short_name: false,
                    in_target_element: true,
                    target_found: true,
                    results: st.results.push(("SHORT-NAME"@, t)),
                    ..st
                }
            } else {
                ElementFieldsState { read_short_name: false, ..st }
            }
        } else if st.in_target_element && st.field_depth > 0 && st.depth == st.field_depth {
            ElementFieldsState {
                read_short_name: false,
                results: st.results.push(("SHORT-NAME"@, t)),
                current_field: None,
                field_depth: 0,
                ..st
            }
        } else if !st.in_elements {
            ElementFieldsState { read_short_name: false, pkg_stack: st.pkg_stack.push(t), ..st }
        } else {
            ElementFieldsState { read_short_name: false, ..st }
        }
    } else if st.in_target_element && st.field_depth > 0 && st.depth == st.field_depth {
        ElementFieldsState {
            results: match st.current_field {
                Some(tag) => st.results.push((tag, t)),
                None => st.results,
            },
            current_field: None,
            field_depth: 0,
            ..st
        }
    } else {
        st
    }
}

/// How an end tag named `name` changes the state: reading stops when the
/// wanted element closes, or when the `<ELEMENTS>` block that held it
/// closes.
pub open spec fn element_fields_end(st: ElementFieldsState, name: Seq<char>) -> ElementFieldsState {
    let d = if st.depth > 0 {
        (st.depth - 1) as nat
    } else {
        0
    };
    if st.in_target_element {
        if st.field_depth > 0 && st.depth == st.field_depth {
            ElementFieldsState {
                results: match st.current_field {
                    Some(tag) => st.results.push((tag, Seq::empty())),
                    None => st.results,
                },
                current_field: None,
                field_depth: 0,
                depth: d,
                ..st
            }
        } else if st.depth == st.element_tag_depth {
            ElementFieldsState { done: true, ..st }
        } else {
            ElementFieldsState { depth: d, ..st }
        }
    } else if st.in_elements && st.element_tag_depth > 0 && st.depth == st.element_tag_depth {
        ElementFieldsState { element_tag_depth: 0, depth: d, ..st }
    } else if name == "ELEMENTS"@ && st.in_elements && st.depth == st.elements_depth {
        ElementFieldsState {
            in_elements: false,
            elements_depth: 0,
            outer_elements_depth: 0,
            depth: d,
            done: st.target_found,
            ..st
        }
    } else if name == "ELEMENTS"@ && st.outer_elements_depth > 0 && st.depth
        == st.outer_elements_depth {
        ElementFieldsState { outer_elements_depth: 0, depth: d, ..st }
    } else if name == "AR-PACKAGE"@ && !st.in_elements && st.outer_elements_depth == 0 {
        ElementFieldsState {
            pkg_stack: if st.pkg_stack.len() > 0 {
                st.pkg_stack.drop_last()
            } else {
                st.pkg_stack
            },
            depth: d,
            ..st
        }
    } else {
        ElementFieldsState { depth: d, ..st }
    }
}

/// How one token changes the state; once reading has stopped, nothing
/// changes it.
pub open spec fn element_fields_step(
    st: ElementFieldsState,
    t: TokenV,
    pkg_path: Seq<char>,
    element_name: Seq<char>,
) -> ElementFieldsState {
    if st.done {
        st
    } else {
        match t.kind {
            TokenKindV::Start { name, .. } => element_fields_start(st, name, pkg_path),
            TokenKindV::Text { text } => if trim_ws(text).len() == 0 {
                st
            } else {
                element_fields_text(st, trim_ws(text), element_name)
            },
            TokenKindV::End { name } => element_fields_end(st, name),
            _ => st,
        }
    }
}

/// The state after the first `k` tokens.
pub open spec fn element_fields_after(
    toks: Seq<TokenV>,
    k: nat,
    pkg_path: Seq<char>,
    element_name: Seq<char>,
) -> ElementFieldsState
    decreases k,
{
    if k == 0 {
        element_fields_initial()
    } else {
        element_fields_step(
            element_fields_after(toks, (k - 1) as nat, pkg_path, element_name),
            toks[k - 1],
            pkg_path,
            element_name,
        )
    }
}

/// The index of the last `/` of `s`.
pub open spec fn last_slash(s: Seq<char>) -> Option<nat>
    decreases s.len(),
{
    if s.len() == 0 {
        None
    } else if s.last() == '/' {
        Some((s.len() - 1) as nat)
    } else {
        last_slash(s.drop_last())
    }
}

/// The fields of the element at `element_path` of the document `input`, in
/// document order (see [`collect_element_fields`]); `None` when reading
/// fails before the element has been read.
pub open spec fn spec_element_fields(input: Seq<u8>, element_path: Seq<char>) -> Option<
    Seq<(Seq<char>, Seq<char>)>,
> {
    let norm = normalise(element_path);
    match last_slash(norm) {
        None => Some(Seq::empty()),
        Some(pos) => {
            let toks = input_tokens(input);
            let st = element_fields_after(
                toks,
                (toks.len() - 1) as nat,
                norm.take(pos as int),
                norm.skip(pos as int + 1),
            );
            if !st.done && toks.last().kind is Error {
                None
            } else {
                Some(st.results)
            }
        },
    }
}

/// The mutable state of reading one element's fields.
struct ElementFieldsReader {
    pkg_stack: Vec<Vec<char>>,
    depth: usize,
    in_elements: bool,
    elements_depth: usize,
    element_tag_depth: usize,
    in_target_element: bool,
    target_found: bool,
    field_depth: usize,
    current_field: Option<Vec<char>>,
    results: Vec<(Vec<char>, Vec<char>)>,
    read_short_name: bool,
    outer_elements_depth: usize,
    done: bool,
}

impl View for ElementFieldsReader {
    type V = ElementFieldsState;

    closed spec fn view(&self) -> ElementFieldsState {
        ElementFieldsState {
            pkg_stack: seqs_of(self.pkg_stack@),
            depth: self.depth as nat,
            in_elements: self.in_elements,
            elements_depth: self.elements_depth as nat,
            element_tag_depth: self.element_tag_depth as nat,
            in_target_element: self.in_target_element,
            target_found: self.target_found,
            field_depth: self.field_depth as nat,
            current_field: opt_view(self.current_field),
            results: pairs_view(self.results@),
            read_short_name: self.read_short_name,
            outer_elements_depth: self.outer_elements_depth as nat,
            done: self.done,
        }
    }
}

/// `"SHORT-NAME"` as characters.
fn short_name_chars() -> (r: Vec<char>)
    ensures
        r@ == "SHORT-NAME"@,
{
    let key: Vec<char> = vec!['S', 'H', 'O', 'R', 'T', '-', 'N', 'A', 'M', 'E'];
    proof {
        reveal_strlit("SHORT-NAME");
    }
    assert(key@ =~= "SHORT-NAME"@);
    key
}

impl ElementFieldsReader {
    /// Applies a start tag named `name`.
    fn apply_start(&mut self, name: &Vec<char>, pkg_path: &Vec<char>)
        requires
            old(self).depth < usize::MAX,
        ensures
            final(self)@ == element_fields_start(old(self)@, name@, pkg_path@),
    {
        let d = self.depth + 1;
        if self.in_target_element {
            if self.field_depth == 0 && self.element_tag_depth < usize::MAX && d
                == self.element_tag_depth + 1 {
                self.field_depth = d;
                self.current_field = Some(copy_chars(name));
            }
        } else if chars_eq_str(name, "AR-PACKAGE") && !self.in_elements {
        } else if chars_eq_str(name, "SHORT-NAME") && !self.in_elements {
            if self.outer_elements_depth == 0 {
                self.read_short_name = true;
            }
        } else if chars_eq_str(name, "ELEMENTS") && !self.in_elements {
            if self.outer_elements_depth == 0 {
                let current = join_chars(&self.pkg_stack, self.pkg_stack.len());
                assert(seqs_of(self.pkg_stack@).take(self.pkg_stack@.len() as int) =~= seqs_of(
                    self.pkg_stack@,
                ));
                if chars_eq(&current, pkg_path) {
                    self.in_elements = true;
                    self.elements_depth = d;
                }
                self.outer_elements_depth = d;
            }
        } else if self.in_elements && self.elements_depth < usize::MAX && d == self.elements_depth
            + 1 && self.element_tag_depth == 0 {
            self.element_tag_depth = d;
        } else if self.in_elements && self.element_tag_depth > 0 && chars_eq_str(name, "SHORT-NAME")
            && self.element_tag_depth < usize::MAX && d == self.element_tag_depth + 1 {
            self.read_short_name = true;
        }
        self.depth = d;
    }

    /// Applies a text whose trimmed form `t` is not empty.
    fn apply_text(&mut self, t: &Vec<char>, element_name: &Vec<char>)
        ensures
            final(self)@ == element_fields_text(old(self)@, t@, element_name@),
    {
        let ghost st = self@;
        if self.read_short_name {
            self.read_short_name = false;
            if self.in_elements && self.element_tag_depth > 0 && !self.in_target_element {
                if chars_eq(t, element_name) {
                    self.in_target_element = true;
                    self.target_found = true;
                    self.results.push((short_name_chars(), copy_chars(t)));
                    assert(pairs_view(self.results@) =~= st.results.push(("SHORT-NAME"@, t@)));
                }
            } else if self.in_target_element && self.field_depth > 0 && self.depth
                == self.field_depth {
                self.results.push((short_name_chars(), copy_chars(t)));
                assert(pairs_view(self.results@) =~= st.results.push(("SHORT-NAME"@, t@)));
                self.current_field = None;
                self.field_depth = 0;
            } else if !self.in_elements {
                self.pkg_stack.push(copy_chars(t));
                assert(seqs_of(self.pkg_stack@) =~= st.pkg_stack.push(t@));
            }
        } else if self.in_target_element && self.field_depth > 0 && self.depth == self.field_depth {
            let mut cf: Option<Vec<char>> = None;
            std::mem::swap(&mut cf, &mut self.current_field);
            match cf {
                Some(tag) => {
                    let ghost tv = tag@;
                    self.results.push((tag, copy_chars(t)));
                    assert(pairs_view(self.results@) =~= st.results.push((tv, t@)));
                },
                None => {},
            }
            self.field_depth = 0;
        }
    }

    /// Applies an end tag named `name`.
    fn apply_end(&mut self, name: &Vec<char>)
        ensures
            final(self)@ == element_fields_end(old(self)@, name@),
    {
        let ghost st = self@;
        let d = if self.depth > 0 {
            self.depth - 1
        } else {
            0
        };
        if self.in_target_element {
            if self.field_depth > 0 && self.depth == self.field_depth {
                let mut cf: Option<Vec<char>> = None;
                std::mem::swap(&mut cf, &mut self.current_field);
                match cf {
                    Some(tag) => {
                        let ghost tv = tag@;
                        self.results.push((tag, Vec::new()));
                        assert(pairs_view(self.results@) =~= st.results.push(
                            (tv, Seq::<char>::empty()),
                        ));
                    },
                    None => {},
                }
                self.field_depth = 0;
                self.depth = d;
            } else if self.depth == self.element_tag_depth {
                self.done = true;
            } else {
                self.depth = d;
            }
        } else if self.in_elements && self.element_tag_depth > 0 && self.depth
            == self.element_tag_depth {
            self.element_tag_depth = 0;
            self.depth = d;
        } else if chars_eq_str(name, "ELEMENTS") && self.in_elements && self.depth
            == self.elements_depth {
            self.in_elements = false;
            self.elements_depth = 0;
            self.outer_elements_depth = 0;
            self.done = self.target_found;
            self.depth = d;
        } else if chars_eq_str(name, "ELEMENTS") && self.outer_elements_depth > 0 && self.depth
            == self.outer_elements_depth {
            self.outer_elements_depth = 0;
            self.depth = d;
        } else if chars_eq_str(name, "AR-PACKAGE") && !self.in_elements
            && self.outer_elements_depth == 0 {
            if self.pkg_stack.len() > 0 {
                self.pkg_stack.pop();
                assert(seqs_of(self.pkg_stack@) =~= st.pkg_stack.drop_last());
            }
            self.depth = d;
        } else {
            self.depth = d;
        }
    }
}

/// Reads the fields of the element named `element_name` in the package at
/// `pkg_path` from a token stream whose last token, and only that one, ends
/// the stream; `None` when it ends in an error before the element has been
/// read.
pub fn element_fields_of_tokens(toks: &Vec<Token>, pkg_path: &Vec<char>, element_name: &Vec<char>) -> (r:
    Option<Vec<(Vec<char>, Vec<char>)>>)
    requires
        toks@.len() >= 1,
    ensures
        ({
            let st = element_fields_after(
                tokens_view(toks@),
                (toks@.len() - 1) as nat,
                pkg_path@,
                element_name@,
            );
            match r {
                Some(v) => !(!st.done && tokens_view(toks@).last().kind is Error) && pairs_view(v@)
                    == st.results,
                None => !st.done && tokens_view(toks@).last().kind is Error,
            }
        }),
{
    let ghost tv = tokens_view(toks@);
    let mut rd = ElementFieldsReader {
        pkg_stack: Vec::new(),
        depth: 0,
        in_elements: false,
        elements_depth: 0,
        element_tag_depth: 0,
        in_target_element: false,
        target_found: false,
        field_depth: 0,
        current_field: None,
        results: Vec::new(),
        read_short_name: false,
        outer_elements_depth: 0,
        done: false,
    };
    assert(seqs_of(rd.pkg_stack@) =~= Seq::<Seq<char>>::empty());
    assert(pairs_view(rd.results@) =~= Seq::<(Seq<char>, Seq<char>)>::empty());
    assert(rd@ == element_fields_initial());
    let last = toks.len() - 1;
    let mut i: usize = 0;
    while i < last
        invariant
            tv == tokens_view(toks@),
            last == toks@.len() - 1,
            0 <= i <= last,
            rd@ == element_fields_after(tv, i as nat, pkg_path@, element_name@),
            rd.depth <= i,
        decreases last - i,
    {
        assert(tv[i as int] == toks@[i as int]@);
        if !rd.done {
            match &toks[i].kind {
                TokenKind::Start { name, .. } => {
                    rd.apply_start(name, pkg_path);
                },
                TokenKind::Text { text } => {
                    let t = trim_chars(text);
                    if t.len() > 0 {
                        rd.apply_text(&t, element_name);
                    }
                },
                TokenKind::End { name } => {
                    rd.apply_end(name);
                },
                _ => {},
            }
        }
        i = i + 1;
    }
    assert(tv[last as int] == toks@[last as int]@);
    if rd.done {
        return Some(rd.results);
    }
    match &toks[last].kind {
        TokenKind::Error => None,
        _ => Some(rd.results),
    }
}

/// Index of the last `/` of `s`.
fn find_last_slash(s: &Vec<char>) -> (r: Option<usize>)
    ensures
        match r {
            Some(p) => last_slash(s@) == Some(p as nat) && p < s@.len(),
            None => last_slash(s@) is None,
        },
{
    let mut j: usize = s.len();
    assert(s@.take(j as int) =~= s@);
    while j > 0
        invariant
            0 <= j <= s@.len(),
            last_slash(s@) == last_slash(s@.take(j as int)),
        decreases j,
    {
        assert(s@.take(j as int).last() == s@[j - 1]);
        if s[j - 1] == '/' {
            return Some(j - 1);
        }
        assert(s@.take(j as int).drop_last() =~= s@.take(j - 1));
        j = j - 1;
    }
    None
}

/// For a given element path (e.g. `Root/Components/MyComponent`), collect
/// the direct child tags and their text content from within the
/// `<ELEMENTS>` block of the package `Root/Components` in the document
/// `input`: `(tag, text)` pairs in document order, the element's own
/// `SHORT-NAME` first. A child with no text of its own (only child
/// elements) gets an empty string. A path without a `/` names no element
/// and yields nothing. `None` when reading the document fails before the
/// element has been read.
pub fn collect_element_fields(input: &[u8], element_path: &str) -> (r: Option<Vec<(String, String)>>)
    ensures
        match r {
            Some(v) => spec_element_fields(input@, element_path@) == Some(string_pairs_view(v@)),
            None => spec_element_fields(input@, element_path@) is None,
        },
{
    let norm_s = normalise_path(element_path);
    let norm = chars_of(norm_s.as_str());
    let pos = match find_last_slash(&norm) {
        Some(p) => p,
        None => {
            let empty: Vec<(String, String)> = Vec::new();
            assert(string_pairs_view(empty@) =~= Seq::<(Seq<char>, Seq<char>)>::empty());
            return Some(empty);
        },
    };
    let n = norm.len();
    assert(pos < n);
    let pkg_path = slice_range(&norm, 0, pos);
    let element_name = slice_from(&norm, pos + 1);
    assert(pkg_path@ =~= norm@.take(pos as int));
    assert(element_name@ =~= norm@.skip(pos as int + 1));
    let toks = tokenize(input);
    match element_fields_of_tokens(&toks, &pkg_path, &element_name) {
        Some(v) => Some(pairs_to_strings(&v)),
        None => None,
    }
}

/// The value of field `tag`, or the empty string when there is none.
pub open spec fn field_value(m: Map<Seq<char>, Seq<char>>, tag: Seq<char>) -> Seq<char> {
    if m.dom().contains(tag) {
        m[tag]
    } else {
        Seq::empty()
    }
}

/// The fields of the element at `path`, or none when there is no such
/// element.
pub open spec fn fields_at(
    all: Map<Seq<char>, Map<Seq<char>, Seq<char>>>,
    path: Seq<char>,
) -> Map<Seq<char>, Seq<char>> {
    if all.dom().contains(path) {
        all[path]
    } else {
        Map::empty()
    }
}

/// The value of field `key` in a field list with distinct keys.
pub fn field_value_of(v: &Vec<(Vec<char>, Vec<char>)>, key: &Vec<char>) -> (r: Vec<char>)
    requires
        keys_distinct(pairs_view(v@)),
    ensures
        r@ == field_value(fields_map(v@), key@),
{
    let ghost s = pairs_view(v@);
    proof {
        lemma_assoc_dom(s, key@);
    }
    match find_key(v, key) {
        Some(i) => {
            proof {
                assert(s[i as int] == (v@[i as int].0@, v@[i as int].1@));
                lemma_assoc_index(s, i as int);
            }
            copy_chars(&v[i].1)
        },
        None => {
            assert forall|i: int| 0 <= i < s.len() implies (#[trigger] s[i]).0 != key@ by {
                assert(s[i].0 == v@[i].0@);
            }
            Vec::new()
        },
    }
}

/// The index of the entry for `path`, whose fields are then
/// `fields_at(.., path)`; `None` when there is no entry, and then those
/// fields are empty.
pub fn entry_index(entries: &Vec<ElementEntry>, path: &Vec<char>) -> (r: Option<usize>)
    requires
        entries_wf(entries@),
    ensures
        match r {
            Some(i) => i < entries@.len() && fields_map(entries@[i as int].1@) == fields_at(
                assoc_map(entries_view(entries@)),
                path@,
            ),
            None => fields_at(assoc_map(entries_view(entries@)), path@) == Map::<
                Seq<char>,
                Seq<char>,
            >::empty(),
        },
{
    let ghost s = entries_view(entries@);
    proof {
        lemma_assoc_dom(s, path@);
    }
    match find_key(entries, path) {
        Some(i) => {
            proof {
                assert(s[i as int] == (entries@[i as int].0@, fields_map(entries@[i as int].1@)));
                lemma_assoc_index(s, i as int);
            }
            Some(i)
        },
        None => {
            assert forall|i: int| 0 <= i < s.len() implies (#[trigger] s[i]).0 != path@ by {
                assert(s[i].0 == entries@[i].0@);
            }
            None
        },
    }
}

/// Appends the keys of a field list to `out`; the keys of the list are
/// those of its map.
pub fn push_keys(out: &mut Vec<Vec<char>>, v: &Vec<(Vec<char>, Vec<char>)>)
    ensures
        seqs_of(final(out)@).to_set() == seqs_of(old(out)@).to_set().union(
            fields_map(v@).dom(),
        ),
{
    let ghost start = seqs_of(out@);
    let ghost s = pairs_view(v@);
    let mut i: usize = 0;
    while i < v.len()
        invariant
            0 <= i <= v@.len(),
            s == pairs_view(v@),
            forall|x: Seq<char>| #[trigger] seqs_of(out@).to_set().contains(x) <==> (start.to_set().contains(x) || exists|j: int| 0 <= j < i && (#[trigger] s[j]).0 == x),
        decreases v@.len() - i,
    {
        let ghost before = seqs_of(out@);
        out.push(copy_chars(&v[i].0));
        assert(seqs_of(out@) =~= before.push(s[i as int].0));
        assert forall|x: Seq<char>| #[trigger] seqs_of(out@).to_set().contains(x) <==> (start.to_set().contains(x) || exists|j: int| 0 <= j < i + 1 && (#[trigger] s[j]).0 == x) by {
            if seqs_of(out@).to_set().contains(x) {
                let k = choose|k: int| 0 <= k < seqs_of(out@).len() && seqs_of(out@)[k] == x;
                if k < before.len() {
                    assert(before[k] == x);
                    assert(before.to_set().contains(x));
                }
            }
            if exists|j: int| 0 <= j < i + 1 && (#[trigger] s[j]).0 == x {
                let j = choose|j: int| 0 <= j < i + 1 && (#[trigger] s[j]).0 == x;
                if j == i {
                    assert(seqs_of(out@)[before.len() as int] == x);
                } else {
                    assert(before.to_set().contains(x));
                    let k = choose|k: int| 0 <= k < before.len() && before[k] == x;
                    assert(seqs_of(out@)[k] == x);
                }
            }
            if start.to_set().contains(x) {
                assert(before.to_set().contains(x));
                let k = choose|k: int| 0 <= k < before.len() && before[k] == x;
                assert(seqs_of(out@)[k] == x);
            }
        }
        i = i + 1;
    }
    assert forall|x: Seq<char>| seqs_of(out@).to_set().contains(x) <==> start.to_set().union(fields_map(v@).dom()).contains(x) by {
        lemma_assoc_dom(s, x);
    }
    assert(seqs_of(out@).to_set() =~= start.to_set().union(fields_map(v@).dom()));
}

/// Every field map of the elements has finitely many fields.
pub open spec fn fields_finite(all: Map<Seq<char>, Map<Seq<char>, Seq<char>>>) -> bool {
    forall|p: Seq<char>| #[trigger] all.dom().contains(p) ==> all[p].dom().finite()
}

/// Reading the fields only ever builds finite field maps.
proof fn lemma_all_fields_after_finite(toks: Seq<TokenV>, k: nat)
    ensures
        all_fields_after(toks, k).current_fields.dom().finite(),
        fields_finite(all_fields_after(toks, k).result),
    decreases k,
{
    if k > 0 {
        lemma_all_fields_after_finite(toks, (k - 1) as nat);
        let st = all_fields_after(toks, (k - 1) as nat);
        let s2 = all_fields_after(toks, k);
        assert(Map::<Seq<char>, Seq<char>>::empty().dom().finite());
        assert forall|p: Seq<char>| #[trigger] s2.result.dom().contains(p) implies s2.result[p].dom().finite() by {
            if st.result.dom().contains(p) {
                assert(st.result[p].dom().finite());
            }
        }
    }
}

/// The field maps of a document have finitely many fields each.
pub proof fn lemma_spec_all_fields_finite(input: Seq<u8>)
    ensures
        spec_all_fields(input) matches Some(m) ==> fields_finite(m),
{
    let toks = input_tokens(input);
    lemma_all_fields_after_finite(toks, (toks.len() - 1) as nat);
}

/// While looking for one element, reading stops only once that element was
/// found, and what was read starts with its `SHORT-NAME`: until then nothing
/// is recorded, whatever elements of other names come first.
pub proof fn lemma_element_search_stops_only_when_found(
    toks: Seq<TokenV>,
    k: nat,
    pkg_path: Seq<char>,
    element_name: Seq<char>,
)
    ensures
        ({
            let st = element_fields_after(toks, k, pkg_path, element_name);
            &&& st.done ==> st.target_found
            &&& st.target_found <==> st.results.len() > 0
            &&& st.target_found ==> st.results[0] == ("SHORT-NAME"@, element_name)
            &&& st.in_target_element ==> st.target_found
            &&& st.target_found ==> st.in_target_element
        }),
    decreases k,
{
    if k > 0 {
        lemma_element_search_stops_only_when_found(toks, (k - 1) as nat, pkg_path, element_name);
    }
}

/// The fields of one element, when it is found, start with its own
/// `SHORT-NAME`; when the document is read to its end without finding it,
/// they are empty.
pub proof fn lemma_element_fields_start_with_name(input: Seq<u8>, element_path: Seq<char>)
    ensures
        spec_element_fields(input, element_path) matches Some(v) ==> (v.len() == 0 || (
        last_slash(normalise(element_path)) matches Some(pos) && v[0] == ("SHORT-NAME"@,
        normalise(element_path).skip(pos as int + 1)))),
{
    let norm = normalise(element_path);
    if let Some(pos) = last_slash(norm) {
        let toks = input_tokens(input);
        lemma_element_search_stops_only_when_found(
            toks,
            (toks.len() - 1) as nat,
            norm.take(pos as int),
            norm.skip(pos as int + 1),
        );
    }
}

/// An element's fields are its own: the fields read for an element do not
/// depend on anything pending from before it started. Two reading states
/// that differ only in their pending fields, at the point where an element
/// of an `<ELEMENTS>` block starts, are the same once its start tag is read.
pub proof fn lemma_element_fields_start_fresh(st1: AllFieldsState, st2: AllFieldsState, name: Seq<char>)
    requires
        st1 == (AllFieldsState { current_fields: st1.current_fields, ..st2 }),
        st1.in_elements,
        st1.element_path is None,
        st1.element_tag_depth == 0,
        st1.depth == st1.elements_depth,
    ensures
        all_fields_start(st1, name) == all_fields_start(st2, name),
        all_fields_start(st1, name).current_fields == Map::<Seq<char>, Seq<char>>::empty(),
{
}

/// Once an element's fields are recorded under its path, nothing of them
/// stays pending for the next element.
pub proof fn lemma_element_fields_recorded_then_cleared(st: AllFieldsState, name: Seq<char>)
    requires
        st.element_path is Some,
        all_fields_end(st, name).element_path is None,
    ensures
        all_fields_end(st, name).result == st.result.insert(st.element_path.unwrap(), st.current_fields),
        all_fields_end(st, name).current_fields == Map::<Seq<char>, Seq<char>>::empty(),
{
}

/// The nesting depth before token `j`.
pub open spec fn depth_at(toks: Seq<TokenV>, j: int) -> nat {
    all_fields_after(toks, j as nat).depth
}

/// Token `c` is a start tag named `tag`.
pub open spec fn start_named(toks: Seq<TokenV>, c: int, tag: Seq<char>) -> bool {
    match toks[c].kind {
        TokenKindV::Start { name, .. } => name == tag,
        _ => false,
    }
}

/// The tag whose start tag is token `s` is still open before token `e`: no
/// token from `s` up to `e` brings the depth back to where it was before `s`.
pub open spec fn open_through(toks: Seq<TokenV>, s: int, e: int) -> bool {
    forall|j: int| s < j <= e ==> #[trigger] depth_at(toks, j) > depth_at(toks, s)
}

/// Token `c` is the start tag, named `tag`, of a direct child of the tag
/// whose start tag is token `s`.
pub open spec fn direct_child(toks: Seq<TokenV>, s: int, c: int, tag: Seq<char>) -> bool {
    &&& s < c < toks.len()
    &&& start_named(toks, c, tag)
    &&& depth_at(toks, c) == depth_at(toks, s) + 1
    &&& open_through(toks, s, c)
}

/// Token `e` is the end tag that closes the tag whose start tag is token `s`.
pub open spec fn closes(toks: Seq<TokenV>, s: int, e: int) -> bool {
    &&& s < e < toks.len()
    &&& toks[e].kind is End
    &&& depth_at(toks, e) == depth_at(toks, s) + 1
    &&& open_through(toks, s, e)
}

/// Token `s` starts an element directly inside an `<ELEMENTS>` block.
pub open spec fn opens_element(toks: Seq<TokenV>, s: int) -> bool {
    let st = all_fields_after(toks, s as nat);
    &&& 0 <= s < toks.len()
    &&& toks[s].kind is Start
    &&& st.in_elements
    &&& st.element_path is None
    &&& st.element_tag_depth == 0
    &&& st.depth == st.elements_depth
}

/// Field `key` recorded under path `p` comes from the element started by
/// token `s` and closed by token `e`, read under path `p`, through its direct
/// child started by token `c`.
pub open spec fn field_source(toks: Seq<TokenV>, p: Seq<char>, key: Seq<char>, s: int, c: int, e: int) -> bool {
    &&& opens_element(toks, s)
    &&& direct_child(toks, s, c, key)
    &&& closes(toks, s, e)
    &&& all_fields_after(toks, e as nat).element_path == Some(p)
}

/// Token `j` closes a tag while the text of a `SHORT-NAME` is still awaited
/// (a `SHORT-NAME` without text).
pub open spec fn name_left_empty(toks: Seq<TokenV>, j: nat) -> bool {
    all_fields_after(toks, j).read_short_name && toks[j as int].kind is End
}

/// Among the first `k` tokens, every awaited `SHORT-NAME` text comes before
/// any tag closes.
pub open spec fn names_given(toks: Seq<TokenV>, k: nat) -> bool {
    forall|j: nat| j < k ==> !#[trigger] name_left_empty(toks, j)
}

/// The element being read after `k` tokens was started by token `s`, and
/// everything pending for it comes from its direct children.
spec fn reading_element(toks: Seq<TokenV>, k: nat, s: int) -> bool {
    let st = all_fields_after(toks, k);
    &&& 0 <= s < k
    &&& opens_element(toks, s)
    &&& depth_at(toks, s) + 1 == st.element_tag_depth
    &&& open_through(toks, s, k as int)
    &&& forall|key: Seq<char>|
        st.current_fields.dom().contains(key) ==> exists|c: int| c < k && #[trigger] direct_child(toks, s, c, key)
    &&& (st.current_field matches Some(tag) ==> exists|c: int| c < k && #[trigger] direct_child(toks, s, c, tag))
    &&& (st.read_short_name && st.sn_is_element ==> exists|c: int| c < k && #[trigger] direct_child(toks, s, c, "SHORT-NAME"@))
}

/// Invariant of reading the fields of every element after `k` tokens.
spec fn fields_inv(toks: Seq<TokenV>, k: nat) -> bool {
    let st = all_fields_after(toks, k);
    &&& st.element_tag_depth > 0 ==> st.in_elements && st.element_tag_depth == st.elements_depth + 1
        && st.depth >= st.element_tag_depth
    &&& st.element_path is Some ==> st.element_tag_depth > 0
    &&& (st.field_depth > 0 <==> st.current_field is Some)
    &&& st.field_depth > 0 ==> st.element_path is Some && st.field_depth == st.element_tag_depth + 1
        && st.depth >= st.field_depth
    &&& st.element_path is None ==> st.current_fields == Map::<Seq<char>, Seq<char>>::empty()
    &&& st.read_short_name && st.sn_is_element ==> st.element_tag_depth > 0 && st.element_path is None
    &&& st.read_short_name && !st.sn_is_element && st.element_path is Some ==> st.current_field == Some(
        "SHORT-NAME"@,
    )
    &&& st.element_tag_depth > 0 ==> exists|s: int| #[trigger] reading_element(toks, k, s)
    &&& forall|p: Seq<char>, key: Seq<char>|
        st.result.dom().contains(p) && #[trigger] st.result[p].dom().contains(key) ==> exists|
            s: int,
            c: int,
            e: int,
        | e < k && #[trigger] field_source(toks, p, key, s, c, e)
}

/// Extending an open range by one token that keeps the tag open.
proof fn lemma_open_extends(toks: Seq<TokenV>, s: int, k: int)
    requires
        open_through(toks, s, k),
        depth_at(toks, k + 1) > depth_at(toks, s),
    ensures
        open_through(toks, s, k + 1),
{
    assert forall|j: int| s < j <= k + 1 implies #[trigger] depth_at(toks, j) > depth_at(toks, s) by {
        if j <= k {
        }
    }
}

/// One token keeps the invariant of reading element fields, as long as it
/// does not close a tag while a `SHORT-NAME` text is awaited.
#[verifier::rlimit(50)]
proof fn lemma_fields_inv_step(toks: Seq<TokenV>, k: nat)
    requires
        k < toks.len(),
        fields_inv(toks, k),
        !name_left_empty(toks, k),
    ensures
        fields_inv(toks, k + 1),
{
    let st = all_fields_after(toks, k);
    let t = toks[k as int];
    let s2 = all_fields_after(toks, k + 1);
    assert(s2 == all_fields_step(st, t));
    assert(depth_at(toks, k as int) == st.depth);
    assert(depth_at(toks, k as int + 1) == s2.depth);
    let sn = "SHORT-NAME"@;
    // Results recorded before stay with their sources.
    assert forall|p: Seq<char>, key: Seq<char>|
        s2.result.dom().contains(p) && #[trigger] s2.result[p].dom().contains(key) implies exists|
            s: int,
            c: int,
            e: int,
        | e < k + 1 && #[trigger] field_source(toks, p, key, s, c, e) by {
        if st.result.dom().contains(p) && s2.result[p] == st.result[p] {
            assert(st.result[p].dom().contains(key));
            let (s, c, e) = choose|s: int, c: int, e: int| e < k && #[trigger] field_source(toks, p, key, s, c, e);
            assert(field_source(toks, p, key, s, c, e));
        } else {
            // The element being read is recorded by this token.
            assert(t.kind is End);
            assert(st.element_path == Some(p));
            let s = choose|s: int| #[trigger] reading_element(toks, k, s);
            assert(reading_element(toks, k, s));
            assert(st.current_fields.dom().contains(key));
            let c = choose|c: int| c < k && #[trigger] direct_child(toks, s, c, key);
            assert(closes(toks, s, k as int));
            assert(field_source(toks, p, key, s, c, k as int));
        }
    }
    if s2.element_tag_depth > 0 {
        if st.element_tag_depth == 0 {
            // An element starts with this token.
            assert(opens_element(toks, k as int));
            assert forall|j: int| k < j <= k + 1 implies #[trigger] depth_at(toks, j) > depth_at(toks, k as int) by {}
            assert(s2.current_fields == Map::<Seq<char>, Seq<char>>::empty());
            assert(reading_element(toks, k + 1, k as int));
        } else {
            let s = choose|s: int| #[trigger] reading_element(toks, k, s);
            assert(reading_element(toks, k, s));
            lemma_open_extends(toks, s, k as int);
            match t.kind {
                TokenKindV::Start { name, .. } => {
                    if s2.current_field != st.current_field {
                        assert(direct_child(toks, s, k as int, name));
                    }
                    if s2.read_short_name && s2.sn_is_element && !(st.read_short_name && st.sn_is_element) {
                        assert(direct_child(toks, s, k as int, sn));
                    }
                    assert(s2.current_fields == st.current_fields);
                    assert forall|key: Seq<char>| s2.current_fields.dom().contains(key) implies exists|c: int|
                        c < k + 1 && #[trigger] direct_child(toks, s, c, key) by {
                        let c = choose|c: int| c < k && #[trigger] direct_child(toks, s, c, key);
                        assert(direct_child(toks, s, c, key));
                    }
                    if let Some(tag) = s2.current_field {
                        if s2.current_field == st.current_field {
                            let c = choose|c: int| c < k && #[trigger] direct_child(toks, s, c, tag);
                            assert(direct_child(toks, s, c, tag));
                        }
                    }
                    if s2.read_short_name && s2.sn_is_element && st.read_short_name && st.sn_is_element {
                        let c = choose|c: int| c < k && #[trigger] direct_child(toks, s, c, sn);
                        assert(direct_child(toks, s, c, sn));
                    }
                    assert(s2.element_tag_depth == st.element_tag_depth);
                    assert(reading_element(toks, k + 1, s));
                },
                TokenKindV::Text { text } => {
                    assert forall|key: Seq<char>| s2.current_fields.dom().contains(key) implies exists|c: int|
                        c < k + 1 && #[trigger] direct_child(toks, s, c, key) by {
                        if st.current_fields.dom().contains(key) {
                            let c = choose|c: int| c < k && #[trigger] direct_child(toks, s, c, key);
                            assert(direct_child(toks, s, c, key));
                        } else if st.read_short_name && st.sn_is_element {
                            let c = choose|c: int| c < k && #[trigger] direct_child(toks, s, c, sn);
                            assert(direct_child(toks, s, c, sn));
                        } else {
                            let tag = st.current_field.unwrap();
                            let c = choose|c: int| c < k && #[trigger] direct_child(toks, s, c, tag);
                            assert(direct_child(toks, s, c, tag));
                        }
                    }
                    assert(reading_element(toks, k + 1, s));
                },
                TokenKindV::End { name } => {
                    assert forall|key: Seq<char>| s2.current_fields.dom().contains(key) implies exists|c: int|
                        c < k + 1 && #[trigger] direct_child(toks, s, c, key) by {
                        if st.current_fields.dom().contains(key) {
                            let c = choose|c: int| c < k && #[trigger] direct_child(toks, s, c, key);
                            assert(direct_child(toks, s, c, key));
                        } else {
                            let tag = st.current_field.unwrap();
                            let c = choose|c: int| c < k && #[trigger] direct_child(toks, s, c, tag);
                            assert(direct_child(toks, s, c, tag));
                        }
                    }
                    assert(reading_element(toks, k + 1, s));
                },
                _ => {
                    assert(reading_element(toks, k + 1, s));
                },
            }
        }
    }
}

/// The invariant of reading element fields holds after every prefix in which
/// every awaited `SHORT-NAME` text comes before any tag closes.
proof fn lemma_fields_inv(toks: Seq<TokenV>, k: nat)
    requires
        k <= toks.len(),
        names_given(toks, k),
    ensures
        fields_inv(toks, k),
    decreases k,
{
    if k == 0 {
        assert(all_fields_after(toks, 0).current_fields == Map::<Seq<char>, Seq<char>>::empty());
    } else {
        let j = (k - 1) as nat;
        assert(names_given(toks, j));
        lemma_fields_inv(toks, j);
        assert(!name_left_empty(toks, j));
        lemma_fields_inv_step(toks, j);
    }
}

/// The field map recorded for an element holds only the tags of that
/// element's own direct children: every key recorded under path `p` is the
/// tag of a direct child of the element that was read under path `p`,
/// started by an earlier token and closed by the token that recorded it.
/// Fields never carry over from an earlier element. (This holds for every
/// document in which each `SHORT-NAME` that names something has text.)
pub proof fn lemma_recorded_fields_are_direct_children(toks: Seq<TokenV>, k: nat)
    requires
        k <= toks.len(),
        names_given(toks, k),
    ensures
        forall|p: Seq<char>, key: Seq<char>|
            all_fields_after(toks, k).result.dom().contains(p) && #[trigger] all_fields_after(
                toks,
                k,
            ).result[p].dom().contains(key) ==> exists|s: int, c: int, e: int|
                e < k && #[trigger] field_source(toks, p, key, s, c, e),
{
    lemma_fields_inv(toks, k);
}

/// While the search for one element has not stopped, it follows the nesting
/// depth, and an element it looks at lies directly inside the open
/// `<ELEMENTS>` block, still open.
proof fn lemma_search_shape(toks: Seq<TokenV>, k: nat, pkg_path: Seq<char>, element_name: Seq<char>)
    ensures
        ({
            let st = element_fields_after(toks, k, pkg_path, element_name);
            !st.done ==> {
                &&& st.depth == depth_at(toks, k as int)
                &&& st.element_tag_depth > 0 ==> st.in_elements && st.element_tag_depth
                    == st.elements_depth + 1 && st.depth >= st.element_tag_depth
                &&& st.in_target_element ==> st.element_tag_depth > 0
                &&& st.field_depth > 0 ==> st.in_target_element && st.field_depth
                    == st.element_tag_depth + 1
            }
        }),
    decreases k,
{
    if k > 0 {
        let j = (k - 1) as nat;
        lemma_search_shape(toks, j, pkg_path, element_name);
        let st = element_fields_after(toks, j, pkg_path, element_name);
        let s2 = element_fields_after(toks, k, pkg_path, element_name);
        let t = toks[j as int];
        assert(s2 == element_fields_step(st, t, pkg_path, element_name));
        let a = all_fields_after(toks, j);
        assert(depth_at(toks, k as int) == all_fields_step(a, t).depth);
        assert(depth_at(toks, j as int) == a.depth);
        if !s2.done {
            assert(!st.done);
            match t.kind {
                TokenKindV::Start { name, .. } => {
                    assert(all_fields_step(a, t).depth == a.depth + 1);
                    assert(s2.depth == st.depth + 1);
                },
                TokenKindV::Text { text } => {
                    if trim_ws(text).len() > 0 {
                        assert(all_fields_step(a, t).depth == a.depth);
                    }
                    assert(s2.depth == st.depth);
                },
                TokenKindV::End { name } => {
                    assert(all_fields_step(a, t).depth == (if a.depth > 0 {
                        (a.depth - 1) as nat
                    } else {
                        0
                    }));
                },
                _ => {},
            }
        }
    }
}

/// Once the wanted element is found, it stays found, with the same first
/// field.
proof fn lemma_found_stays(toks: Seq<TokenV>, k: nat, m: nat, pkg_path: Seq<char>, element_name: Seq<char>)
    requires
        k <= m,
        element_fields_after(toks, k, pkg_path, element_name).target_found,
        element_fields_after(toks, k, pkg_path, element_name).results.len() > 0,
    ensures
        element_fields_after(toks, m, pkg_path, element_name).target_found,
        element_fields_after(toks, m, pkg_path, element_name).results.len() > 0,
        element_fields_after(toks, m, pkg_path, element_name).results[0] == element_fields_after(
            toks,
            k,
            pkg_path,
            element_name,
        ).results[0],
    decreases m - k,
{
    if k < m {
        let j = (m - 1) as nat;
        lemma_found_stays(toks, k, j, pkg_path, element_name);
        let st = element_fields_after(toks, j, pkg_path, element_name);
        let s2 = element_fields_after(toks, m, pkg_path, element_name);
        assert(s2 == element_fields_step(st, toks[j as int], pkg_path, element_name));
        assert(s2.results.len() >= st.results.len() && s2.results[0] == st.results[0]);
    }
}

/// Between the start of the wanted package's `<ELEMENTS>` block (token `b`)
/// and the text of an element's own `SHORT-NAME` (token `c + 1`), the search
/// either has found its element already or keeps the block open, looks at
/// that element once it starts (token `s`), and awaits its name after the
/// `SHORT-NAME` start tag (token `c`).
proof fn lemma_search_approaches(
    toks: Seq<TokenV>,
    pkg_path: Seq<char>,
    element_name: Seq<char>,
    b: int,
    s: int,
    c: int,
    j: int,
)
    requires
        0 <= b < s < c,
        c + 1 < toks.len(),
        b < j <= c + 1,
        start_named(toks, b, "ELEMENTS"@),
        ({
            let st = element_fields_after(toks, b as nat, pkg_path, element_name);
            &&& !st.in_elements
            &&& st.outer_elements_depth == 0
            &&& join_path(st.pkg_stack) == pkg_path
        }),
        toks[s].kind is Start,
        depth_at(toks, s) == depth_at(toks, b) + 1,
        open_through(toks, b, s),
        direct_child(toks, s, c, "SHORT-NAME"@),
    ensures
        ({
            let st = element_fields_after(toks, j as nat, pkg_path, element_name);
            !st.target_found ==> {
                &&& !st.done
                &&& st.in_elements
                &&& st.elements_depth == depth_at(toks, b) + 1
                &&& j > s ==> st.element_tag_depth == depth_at(toks, s) + 1
                &&& j == c + 1 ==> st.read_short_name
            }
        }),
    decreases j - b,
{
    let i = j - 1;
    let st = element_fields_after(toks, i as nat, pkg_path, element_name);
    let s2 = element_fields_after(toks, j as nat, pkg_path, element_name);
    assert(s2 == element_fields_step(st, toks[i], pkg_path, element_name));
    lemma_element_search_stops_only_when_found(toks, i as nat, pkg_path, element_name);
    lemma_element_search_stops_only_when_found(toks, j as nat, pkg_path, element_name);
    lemma_search_shape(toks, i as nat, pkg_path, element_name);
    assert(depth_at(toks, j) == all_fields_step(all_fields_after(toks, i as nat), toks[i]).depth);
    if !s2.target_found {
        assert(!st.target_found) by {
            if st.target_found {
                lemma_found_stays(toks, i as nat, j as nat, pkg_path, element_name);
            }
        }
        assert(!st.in_target_element);
        // The block is still open after this token.
        assert(depth_at(toks, j) > depth_at(toks, b)) by {
            if j <= s {
            } else if j <= c {
                assert(depth_at(toks, j) > depth_at(toks, s));
            } else {
                assert(depth_at(toks, c) > depth_at(toks, s));
            }
        }
        assert(!st.done);
        assert(st.depth == depth_at(toks, i));
        if i == b {
            match toks[i].kind {
                TokenKindV::Start { name, .. } => {
                    assert(name == "ELEMENTS"@);
                    reveal_strlit("ELEMENTS");
                    reveal_strlit("AR-PACKAGE");
                    reveal_strlit("SHORT-NAME");
                    assert("ELEMENTS"@.len() == 8 && "AR-PACKAGE"@.len() == 10 && "SHORT-NAME"@.len() == 10);
                    assert(name != "AR-PACKAGE"@ && name != "SHORT-NAME"@);
                    assert(s2.in_elements);
                },
                _ => {},
            }
        } else {
            lemma_search_approaches(toks, pkg_path, element_name, b, s, c, i);
            if i == s {
                assert(st.element_tag_depth == 0);
            }
            if i > s && i < c {
                assert(depth_at(toks, j) > depth_at(toks, s));
            }
            match toks[i].kind {
                TokenKindV::Start { name, .. } => {
                    assert(s2.in_elements);
                    assert(s2.elements_depth == st.elements_depth);
                },
                TokenKindV::Text { text } => {
                    assert(s2.in_elements);
                },
                TokenKindV::End { name } => {
                    assert(depth_at(toks, j) == st.depth - 1);
                    assert(st.depth != st.elements_depth);
                    assert(s2.in_elements);
                },
                _ => {},
            }
        }
    }
}

/// The search for element `element_name` of package `pkg_path` does not
/// miss it: when the `<ELEMENTS>` block of that package (started by token
/// `b`) holds an element (started by token `s`) whose own `SHORT-NAME`
/// (started by token `c`) has the text `element_name`, the element is
/// found, and its fields start with that `SHORT-NAME`, whatever elements
/// come before it in the block.
pub proof fn lemma_element_search_finds_named_element(
    toks: Seq<TokenV>,
    pkg_path: Seq<char>,
    element_name: Seq<char>,
    b: int,
    s: int,
    c: int,
    k: nat,
)
    requires
        0 <= b < s < c,
        c + 1 < k <= toks.len(),
        start_named(toks, b, "ELEMENTS"@),
        ({
            let st = element_fields_after(toks, b as nat, pkg_path, element_name);
            &&& !st.in_elements
            &&& st.outer_elements_depth == 0
            &&& join_path(st.pkg_stack) == pkg_path
        }),
        toks[s].kind is Start,
        depth_at(toks, s) == depth_at(toks, b) + 1,
        open_through(toks, b, s),
        direct_child(toks, s, c, "SHORT-NAME"@),
        toks[c + 1].kind matches TokenKindV::Text { text } && trim_ws(text) == element_name,
        element_name.len() > 0,
    ensures
        element_fields_after(toks, k, pkg_path, element_name).target_found,
        element_fields_after(toks, k, pkg_path, element_name).results.len() > 0,
        element_fields_after(toks, k, pkg_path, element_name).results[0] == ("SHORT-NAME"@, element_name),
{
    let x = (c + 1) as nat;
    let st = element_fields_after(toks, x, pkg_path, element_name);
    let s2 = element_fields_after(toks, x + 1, pkg_path, element_name);
    assert(s2 == element_fields_step(st, toks[c + 1], pkg_path, element_name));
    lemma_search_approaches(toks, pkg_path, element_name, b, s, c, c + 1);
    lemma_element_search_stops_only_when_found(toks, x, pkg_path, element_name);
    lemma_element_search_stops_only_when_found(toks, x + 1, pkg_path, element_name);
    if !st.target_found {
        lemma_search_shape(toks, x, pkg_path, element_name);
        assert(st.results.len() == 0);
        assert(s2.target_found);
    } else {
        lemma_found_stays(toks, x, x + 1, pkg_path, element_name);
    }
    lemma_found_stays(toks, x + 1, k, pkg_path, element_name);
}

} // verus!
