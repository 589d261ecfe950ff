//! The XML token stream of an ARXML document, read with `quick_xml`.
//!
//! `quick_xml` does the tokenising; this module turns each event it reports
//! into a plain [`Token`] (local names and text decoded to characters, with
//! the byte offsets before and after the event) and stops at the first
//! end-of-input or error event.
use vstd::prelude::*;
use vstd::utf8::*;
use quick_xml::events::Event;
use quick_xml::Reader;

use crate::text::chars_of;

verus! {

#[verifier::external_type_specification]
#[verifier::external_body]
#[verifier::reject_recursive_types(R)]
pub struct ExReader<R>(Reader<R>);

/// One attribute of a start tag as `quick_xml` reports it: the raw key and
/// the raw (still escaped) value.
pub struct RawAttribute {
    pub key: Vec<u8>,
    pub value: Vec<u8>,
}

/// One event of `quick_xml::Reader::read_event`, with its byte content
/// copied out: local names, raw text, and the attributes of start tags
/// (`None` where the attribute iterator reported an error).
pub enum RawEvent {
    Start { name: Vec<u8>, attributes: Vec<Option<RawAttribute>> },
    End { name: Vec<u8> },
    Text { raw: Vec<u8> },
    Eof,
    Error,
    Other,
}

/// The view of a [`RawEvent`].
pub ghost enum RawEventV {
    Start { name: Seq<u8>, attributes: Seq<Option<(Seq<u8>, Seq<u8>)>> },
    End { name: Seq<u8> },
    Text { raw: Seq<u8> },
    Eof,
    Error,
    Other,
}

impl View for RawAttribute {
    type V = (Seq<u8>, Seq<u8>);

    open spec fn view(&self) -> (Seq<u8>, Seq<u8>) {
        (self.key@, self.value@)
    }
}

/// The views of a list of optional attributes.
pub open spec fn raw_attributes_view(v: Seq<Option<RawAttribute>>) -> Seq<
    Option<(Seq<u8>, Seq<u8>)>,
> {
    v.map_values(
        |a: Option<RawAttribute>|
            match a {
                Some(x) => Some(x@),
                None => None,
            },
    )
}

impl View for RawEvent {
    type V = RawEventV;

    open spec fn view(&self) -> RawEventV {
        match self {
            RawEvent::Start { name, attributes } => RawEventV::Start {
                name: name@,
                attributes: raw_attributes_view(attributes@),
            },
            RawEvent::End { name } => RawEventV::End { name: name@ },
            RawEvent::Text { raw } => RawEventV::Text { raw: raw@ },
            RawEvent::Eof => RawEventV::Eof,
            RawEvent::Error => RawEventV::Error,
            RawEvent::Other => RawEventV::Other,
        }
    }
}

/// The event that the `k`-th call of `read_event` returns, counting from 0,
/// on a `quick_xml::Reader` made by `Reader::from_reader(input)` with
/// `trim_text(true)` and otherwise default configuration.
pub uninterp spec fn xml_event(input: Seq<u8>, k: nat) -> RawEventV;

/// `Reader::buffer_position()` of that reader after `k` calls of
/// `read_event`: bytes consumed after a leading byte-order mark.
pub uninterp spec fn xml_offset(input: Seq<u8>, k: nat) -> nat;

/// The length of a leading UTF-8 byte-order mark (`EF BB BF`), which the
/// reader skips before its first event: 3 when there is one, else 0.
pub open spec fn bom_len(input: Seq<u8>) -> nat {
    if input.len() >= 3 && input[0] == 0xEFu8 && input[1] == 0xBBu8 && input[2] == 0xBFu8 {
        3
    } else {
        0
    }
}

/// `quick_xml::escape::unescape`: the text with its character and entity
/// references resolved, or `None` where it reports an error.
pub uninterp spec fn xml_unescape(raw: Seq<char>) -> Option<Seq<char>>;

/// A `quick_xml` reader over `input` together with how many events it has
/// reported so far.
pub struct XmlStream<'a> {
    reader: Reader<&'a [u8]>,
    pub input: Ghost<Seq<u8>>,
    pub count: Ghost<nat>,
}

/// `Reader::from_reader` over `input`, configured with `trim_text(true)`:
/// a reader that has reported no events yet.
#[verifier::external_body]
fn open_stream<'a>(input: &'a [u8]) -> (s: XmlStream<'a>)
    ensures
        s.input@ == input@,
        s.count@ == 0,
{
    let mut reader = Reader::from_reader(input);
    reader.config_mut().trim_text(true);
    XmlStream { reader, input: Ghost(input@), count: Ghost(0) }
}

/// `Reader::buffer_position`: the number of bytes the reader has consumed,
/// not counting a leading UTF-8 byte-order mark, which the reader skips
/// (on its first event) without counting it. The contract names the value
/// and states that, together with the mark, it never exceeds the input.
#[verifier::external_body]
fn stream_position(s: &XmlStream) -> (p: u64)
    ensures
        p == xml_offset(s.input@, s.count@),
        p + bom_len(s.input@) <= s.input@.len(),
{
    s.reader.buffer_position()
}

/// `Reader::read_event`: the next event, with local names, raw text and raw
/// attributes copied out. The contract names the event; it also states that
/// the position never moves backwards, and that every event other than
/// end-of-input and an error consumes at least one byte, which the reader's
/// source shows (the offset only grows; whitespace-only text is skipped with
/// `trim_text(true)`, and every markup event consumes its `<...>`).
#[verifier::external_body]
fn read_raw_event(s: &mut XmlStream) -> (ev: RawEvent)
    ensures
        final(s).input == old(s).input,
        final(s).count@ == old(s).count@ + 1,
        ev@ == xml_event(old(s).input@, old(s).count@),
        xml_offset(old(s).input@, old(s).count@ + 1) >= xml_offset(old(s).input@, old(s).count@),
        ev is Eof || ev is Error || xml_offset(old(s).input@, old(s).count@ + 1) > xml_offset(
            old(s).input@,
            old(s).count@,
        ),
{
    let ev = match s.reader.read_event() {
        Ok(Event::Start(e)) => RawEvent::Start {
            name: e.local_name().as_ref().to_vec(),
            attributes: e.attributes().map(|a| a.ok().map(|a| RawAttribute {
                key: a.key.as_ref().to_vec(), value: a.value.to_vec() })).collect(),
        },
        Ok(Event::End(e)) => RawEvent::End { name: e.local_name().as_ref().to_vec() },
        Ok(Event::Text(e)) => RawEvent::Text { raw: e.to_vec() },
        Ok(Event::Eof) => RawEvent::Eof,
        Ok(_) => RawEvent::Other,
        Err(_) => RawEvent::Error,
    };
    ev
}

/// `std::str::from_utf8`: the decoded characters when `bytes` is valid UTF-8.
#[verifier::external_body]
fn decode_utf8_bytes(bytes: &[u8]) -> (r: Option<String>)
    ensures
        r is Some <==> valid_utf8(bytes@),
        r matches Some(s) ==> s@ == decode_utf8(bytes@),
{
    std::str::from_utf8(bytes).ok().map(|s| s.to_string())
}

/// `quick_xml::escape::unescape`: resolves character and entity references.
#[verifier::external_body]
fn unescape_str(raw: &str) -> (r: Option<String>)
    ensures
        match r {
            Some(s) => xml_unescape(raw@) == Some(s@),
            None => xml_unescape(raw@) is None,
        },
{
    quick_xml::escape::unescape(raw).ok().map(|c| c.into_owned())
}

/// Decodes bytes as UTF-8; invalid input decodes to the empty string.
pub open spec fn utf8_or_empty(bytes: Seq<u8>) -> Seq<char> {
    if valid_utf8(bytes) {
        decode_utf8(bytes)
    } else {
        Seq::<char>::empty()
    }
}

/// `BytesText::unescape().unwrap_or_default()`: the text decoded as UTF-8
/// with its references resolved; empty where either step fails.
pub open spec fn text_value(raw: Seq<u8>) -> Seq<char> {
    if valid_utf8(raw) {
        match xml_unescape(decode_utf8(raw)) {
            Some(t) => t,
            None => Seq::<char>::empty(),
        }
    } else {
        Seq::<char>::empty()
    }
}

/// `std::str::from_utf8(bytes).unwrap_or("").to_string()`.
pub fn local_name_str(bytes: &[u8]) -> (r: Vec<char>)
    ensures
        r@ == utf8_or_empty(bytes@),
{
    match decode_utf8_bytes(bytes) {
        Some(s) => chars_of(s.as_str()),
        None => Vec::new(),
    }
}

/// Decodes and unescapes raw text; empty where either step fails.
pub fn unescape_text(raw: &[u8]) -> (r: Vec<char>)
    ensures
        r@ == text_value(raw@),
{
    match decode_utf8_bytes(raw) {
        Some(s) => match unescape_str(s.as_str()) {
            Some(t) => chars_of(t.as_str()),
            None => Vec::new(),
        },
        None => Vec::new(),
    }
}

/// What a token is.
pub enum TokenKind {
    Start { name: Vec<char>, attributes: Vec<Option<RawAttribute>> },
    End { name: Vec<char> },
    Text { text: Vec<char> },
    Eof,
    Error,
    Other,
}

/// One event of the document: what it is, and the reader's byte offset
/// before and after it.
pub struct Token {
    pub kind: TokenKind,
    pub before: u64,
    pub after: u64,
}

/// The view of a [`TokenKind`].
pub ghost enum TokenKindV {
    Start { name: Seq<char>, attributes: Seq<Option<(Seq<u8>, Seq<u8>)>> },
    End { name: Seq<char> },
    Text { text: Seq<char> },
    Eof,
    Error,
    Other,
}

/// The view of a [`Token`].
pub ghost struct TokenV {
    pub kind: TokenKindV,
    pub before: nat,
    pub after: nat,
}

impl View for TokenKind {
    type V = TokenKindV;

    open spec fn view(&self) -> TokenKindV {
        match self {
            TokenKind::Start { name, attributes } => TokenKindV::Start {
                name: name@,
                attributes: raw_attributes_view(attributes@),
            },
            TokenKind::End { name } => TokenKindV::End { name: name@ },
            TokenKind::Text { text } => TokenKindV::Text { text: text@ },
            TokenKind::Eof => TokenKindV::Eof,
            TokenKind::Error => TokenKindV::Error,
            TokenKind::Other => TokenKindV::Other,
        }
    }
}

impl View for Token {
    type V = TokenV;

    open spec fn view(&self) -> TokenV {
        TokenV { kind: self.kind@, before: self.before as nat, after: self.after as nat }
    }
}

/// The views of a list of tokens.
pub open spec fn tokens_view(v: Seq<Token>) -> Seq<TokenV> {
    v.map_values(|t: Token| t@)
}

/// The token kind of a raw event: names decoded with [`utf8_or_empty`] and
/// text with [`text_value`].
pub open spec fn kind_of(ev: RawEventV) -> TokenKindV {
    match ev {
        RawEventV::Start { name, attributes } => TokenKindV::Start {
            name: utf8_or_empty(name),
            attributes,
        },
        RawEventV::End { name } => TokenKindV::End { name: utf8_or_empty(name) },
        RawEventV::Text { raw } => TokenKindV::Text { text: text_value(raw) },
        RawEventV::Eof => TokenKindV::Eof,
        RawEventV::Error => TokenKindV::Error,
        RawEventV::Other => TokenKindV::Other,
    }
}

/// Whether a token ends the stream.
pub open spec fn is_terminal(k: TokenKindV) -> bool {
    k is Eof || k is Error
}

/// The `k`-th token that reading `input` yields.
pub open spec fn token_at(input: Seq<u8>, k: nat) -> TokenV {
    TokenV {
        kind: kind_of(xml_event(input, k)),
        before: xml_offset(input, k) + bom_len(input),
        after: xml_offset(input, k + 1) + bom_len(input),
    }
}

/// `toks` is what reading `input` yields: every event up to and including
/// the first end-of-input or error event.
pub open spec fn is_token_stream(input: Seq<u8>, toks: Seq<TokenV>) -> bool {
    &&& toks.len() >= 1
    &&& forall|k: int| 0 <= k < toks.len() ==> #[trigger] toks[k] == token_at(input, k as nat)
    &&& is_terminal(toks.last().kind)
    &&& forall|k: int| 0 <= k < toks.len() - 1 ==> !is_terminal(#[trigger] toks[k].kind)
}

/// Two token streams of the same input are the same.
pub proof fn lemma_token_stream_unique(input: Seq<u8>, a: Seq<TokenV>, b: Seq<TokenV>)
    requires
        is_token_stream(input, a),
        is_token_stream(input, b),
    ensures
        a == b,
{
    if a.len() < b.len() {
        assert(a[a.len() - 1] == token_at(input, (a.len() - 1) as nat));
        assert(b[a.len() - 1] == token_at(input, (a.len() - 1) as nat));
        assert(!is_terminal(b[a.len() - 1].kind));
    } else if b.len() < a.len() {
        assert(a[b.len() - 1] == token_at(input, (b.len() - 1) as nat));
        assert(b[b.len() - 1] == token_at(input, (b.len() - 1) as nat));
        assert(!is_terminal(a[b.len() - 1].kind));
    } else {
        assert forall|k: int| 0 <= k < a.len() implies a[k] == b[k] by {
            assert(a[k] == token_at(input, k as nat));
            assert(b[k] == token_at(input, k as nat));
        }
        assert(a =~= b);
    }
}

/// The tokens that reading `input` yields.
pub open spec fn input_tokens(input: Seq<u8>) -> Seq<TokenV> {
    choose|toks: Seq<TokenV>| is_token_stream(input, toks)
}

/// Offsets of a token stream: each token starts where the previous one
/// ended, every token other than the last consumes at least one byte, and
/// no offset passes the end of the input.
pub open spec fn offsets_ok(toks: Seq<TokenV>, len: nat) -> bool {
    &&& forall|k: int| 0 <= k < toks.len() ==> (#[trigger] toks[k]).before <= toks[k].after <= len
    &&& forall|k: int| 0 <= k < toks.len() - 1 ==> #[trigger] toks[k].after == toks[k + 1].before
    &&& forall|k: int| 0 <= k < toks.len() - 1 ==> #[trigger] toks[k].before < toks[k].after
}

/// Converts a raw event read between offsets `before` and `after`.
fn make_token(ev: RawEvent, before: u64, after: u64) -> (t: Token)
    ensures
        t@ == (TokenV { kind: kind_of(ev@), before: before as nat, after: after as nat }),
{
    let kind = match ev {
        RawEvent::Start { name, attributes } => TokenKind::Start {
            name: local_name_str(name.as_slice()),
            attributes,
        },
        RawEvent::End { name } => TokenKind::End { name: local_name_str(name.as_slice()) },
        RawEvent::Text { raw } => TokenKind::Text { text: unescape_text(raw.as_slice()) },
        RawEvent::Eof => TokenKind::Eof,
        RawEvent::Error => TokenKind::Error,
        RawEvent::Other => TokenKind::Other,
    };
    Token { kind, before, after }
}

/// Reads every event of `input` with `quick_xml`, up to and including the
/// first end-of-input or error event.
pub fn tokenize(input: &[u8]) -> (r: Vec<Token>)
    ensures
        is_token_stream(input@, tokens_view(r@)),
        tokens_view(r@) == input_tokens(input@),
        offsets_ok(tokens_view(r@), input@.len()),
{
    let mut s = open_stream(input);
    let mut out: Vec<Token> = Vec::new();
    let bom: u64 = if input.len() >= 3 && input[0] == 0xEFu8 && input[1] == 0xBBu8 && input[2]
        == 0xBFu8 {
        3
    } else {
        0
    };
    let mut pos = stream_position(&s) + bom;
    loop
        invariant
            s.input@ == input@,
            s.count@ == out@.len(),
            bom == bom_len(input@),
            pos == xml_offset(input@, s.count@) + bom,
            pos <= input@.len(),
            forall|k: int|
                0 <= k < out@.len() ==> #[trigger] tokens_view(out@)[k] == token_at(
                    input@,
                    k as nat,
                ),
            forall|k: int| 0 <= k < out@.len() ==> !is_terminal(#[trigger] out@[k]@.kind),
            forall|k: int|
                0 <= k < out@.len() ==> #[trigger] tokens_view(out@)[k].before < tokens_view(
                    out@,
                )[k].after,
            offsets_ok(tokens_view(out@), input@.len()),
            out@.len() > 0 ==> out@.last().after == pos,
        decreases input@.len() - pos,
    {
        let ghost old_out = tokens_view(out@);
        let ev = read_raw_event(&mut s);
        let p = stream_position(&s);
        let n = input.len();
        assert(n as int <= u64::MAX);
        assert(p + bom <= input@.len());
        let after = p + bom;
        let terminal = match ev {
            RawEvent::Eof => true,
            RawEvent::Error => true,
            _ => false,
        };
        let tok = make_token(ev, pos, after);
        out.push(tok);
        let ghost t = tokens_view(out@);
        assert(t =~= old_out.push(tok@));
        assert(!terminal ==> pos < after);
        assert forall|k: int| 0 <= k < t.len() implies (#[trigger] t[k]).before <= t[k].after
            <= input@.len() by {
            if k < old_out.len() {
                assert(t[k] == old_out[k]);
            }
        }
        assert forall|k: int| 0 <= k < t.len() - 1 implies #[trigger] t[k].after == t[k
            + 1].before by {
            if k + 1 < old_out.len() {
                assert(t[k] == old_out[k] && t[k + 1] == old_out[k + 1]);
            } else {
                assert(t[k] == old_out.last());
            }
        }
        assert forall|k: int| 0 <= k < t.len() - 1 implies #[trigger] t[k].before
            < t[k].after by {
            assert(t[k] == old_out[k]);
        }
        assert forall|k: int| 0 <= k < t.len() && !terminal implies #[trigger] t[k].before
            < t[k].after by {
            if k < old_out.len() {
                assert(t[k] == old_out[k]);
            }
        }
        if terminal {
            proof {
                assert(is_token_stream(input@, t));
                lemma_token_stream_unique(input@, t, input_tokens(input@));
            }
            return out;
        }
        pos = after;
    }
}

} // verus!
