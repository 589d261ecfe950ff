//! Writing the frame of an ARXML output file, and byte copying.
use vstd::prelude::*;
use vstd::string::StringSliceAdditionalSpecFns;

use crate::range::pairs_view;
use crate::text::{chars_of, push_chars, push_str};

verus! {

/// Appends `bytes[from..to]` to `out`.
pub fn append_range(out: &mut Vec<u8>, bytes: &[u8], from: usize, to: usize)
    requires
        from <= to <= bytes@.len(),
    ensures
        final(out)@ == old(out)@ + bytes@.subrange(from as int, to as int),
{
    let ghost start = out@;
    let mut k = from;
    while k < to
        invariant
            from <= k <= to <= bytes@.len(),
            out@ == start + bytes@.subrange(from as int, k as int),
        decreases to - k,
    {
        out.push(bytes[k]);
        assert(bytes@.subrange(from as int, k + 1) =~= bytes@.subrange(from as int, k as int).push(
            bytes@[k as int],
        ));
        assert(out@ =~= start + bytes@.subrange(from as int, k + 1));
        k = k + 1;
    }
}

/// Appends the UTF-8 encoding of `s` to `out`.
pub fn append_str(out: &mut Vec<u8>, s: &str)
    ensures
        final(out)@ == old(out)@ + s.spec_bytes(),
{
    let b = s.as_bytes();
    append_range(out, b, 0, b.len());
    assert(b@.subrange(0, b@.len() as int) =~= b@);
}

/// The UTF-8 encoding of a string.
pub open spec fn utf8(s: Seq<char>) -> Seq<u8> {
    vstd::utf8::encode_utf8(s)
}

/// How one character of a double-quoted attribute value is written: `&`,
/// `<` and `"` as their predefined entities, every other character as
/// itself.
pub open spec fn escape_char(c: char) -> Seq<char> {
    if c == '&' {
        "&amp;"@
    } else if c == '<' {
        "&lt;"@
    } else if c == '"' {
        "&quot;"@
    } else {
        seq![c]
    }
}

/// An attribute value with every character escaped (see [`escape_char`]).
pub open spec fn escaped(s: Seq<char>) -> Seq<char>
    decreases s.len(),
{
    if s.len() == 0 {
        Seq::empty()
    } else {
        escaped(s.drop_last()) + escape_char(s.last())
    }
}

/// Escapes an attribute value, so that reading it back gives `v` again.
pub fn escape_value(v: &str) -> (r: String)
    ensures
        r@ == escaped(v@),
{
    let cs = chars_of(v);
    let mut out = String::new();
    let mut k: usize = 0;
    assert(cs@.take(0) =~= Seq::<char>::empty());
    assert(out@ =~= escaped(cs@.take(0)));
    while k < cs.len()
        invariant
            cs@ == v@,
            0 <= k <= cs@.len(),
            out@ == escaped(cs@.take(k as int)),
        decreases cs@.len() - k,
    {
        let c = cs[k];
        assert(cs@.take(k + 1).drop_last() =~= cs@.take(k as int));
        assert(cs@.take(k + 1).last() == c);
        if c == '&' {
            push_str(&mut out, "&amp;");
        } else if c == '<' {
            push_str(&mut out, "&lt;");
        } else if c == '"' {
            push_str(&mut out, "&quot;");
        } else {
            let one = vec![c];
            assert(one@ =~= seq![c]);
            push_chars(&mut out, &one);
        }
        k = k + 1;
    }
    assert(cs@.take(cs@.len() as int) =~= cs@);
    out
}

/// The bytes written for the root attributes: ` key="value"` for each, the
/// value escaped.
pub open spec fn attrs_bytes(attrs: Seq<(Seq<char>, Seq<char>)>) -> Seq<u8>
    decreases attrs.len(),
{
    if attrs.len() == 0 {
        Seq::empty()
    } else {
        attrs_bytes(attrs.drop_last()) + utf8(" "@) + utf8(attrs.last().0) + utf8("=\""@) + utf8(
            escaped(attrs.last().1),
        ) + utf8("\""@)
    }
}

/// The opening of an ARXML file: the XML declaration, the `<AUTOSAR>` root
/// element with the given attributes, and the opening `<AR-PACKAGES>`.
pub open spec fn header_bytes(attrs: Seq<(Seq<char>, Seq<char>)>) -> Seq<u8> {
    utf8("<?xml version=\"1.0\" encoding=\"UTF-8\"?>\n"@) + utf8("<AUTOSAR"@) + attrs_bytes(attrs)
        + utf8(">\n"@) + utf8("  <AR-PACKAGES>\n"@)
}

/// The closing of an ARXML file.
pub open spec fn footer_bytes() -> Seq<u8> {
    utf8("  </AR-PACKAGES>\n"@) + utf8("</AUTOSAR>\n"@)
}

/// Writes the opening of an ARXML file, with the original `<AUTOSAR>` root
/// element attributes (namespaces, schema locations, etc.).
pub fn write_arxml_header(out: &mut Vec<u8>, root_attrs: &[(String, String)])
    ensures
        final(out)@ == old(out)@ + header_bytes(pairs_view(root_attrs@)),
{
    let ghost start = out@;
    append_str(out, "<?xml version=\"1.0\" encoding=\"UTF-8\"?>\n");
    append_str(out, "<AUTOSAR");
    let ghost mid = out@;
    let ghost pv = pairs_view(root_attrs@);
    let mut i: usize = 0;
    assert(pv.take(0) =~= Seq::<(Seq<char>, Seq<char>)>::empty());
    assert(mid =~= mid + attrs_bytes(pv.take(0)));
    while i < root_attrs.len()
        invariant
            pv == pairs_view(root_attrs@),
            0 <= i <= root_attrs@.len(),
            out@ == mid + attrs_bytes(pv.take(i as int)),
        decreases root_attrs@.len() - i,
    {
        let (k, v) = &root_attrs[i];
        append_str(out, " ");
        append_str(out, k.as_str());
        append_str(out, "=\"");
        let ev = escape_value(v.as_str());
        append_str(out, ev.as_str());
        append_str(out, "\"");
        assert(pv.take(i + 1).drop_last() =~= pv.take(i as int));
        assert(pv.take(i + 1).last() == (k@, v@));
        assert(ev@ == escaped(v@));
        assert(out@ =~= mid + attrs_bytes(pv.take(i + 1)));
        i = i + 1;
    }
    assert(pv.take(root_attrs@.len() as int) =~= pv);
    append_str(out, ">\n");
    append_str(out, "  <AR-PACKAGES>\n");
    assert(out@ =~= start + header_bytes(pv));
}

/// Writes the closing of an ARXML file.
pub fn write_arxml_footer(out: &mut Vec<u8>)
    ensures
        final(out)@ == old(out)@ + footer_bytes(),
{
    let ghost start = out@;
    append_str(out, "  </AR-PACKAGES>\n");
    append_str(out, "</AUTOSAR>\n");
    assert(out@ =~= start + footer_bytes());
}

} // verus!
