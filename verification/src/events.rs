//! The structural token types and the event tagged union.
//!
//! Each token wraps a buffer-ownership primitive and borrows directly
//! from the scanner's input unless explicitly promoted to an owned
//! buffer; the attribute-append operations force a copy-on-write.

use vstd::prelude::*;
use vstd::slice::slice_subrange;
use vstd::string::StringSliceAdditionalSpecFns;
use crate::attributes::{Attributes, AttrStep, spec_next_attr};
use crate::bytes::XmlBytes;
use crate::decl::BytesDecl;
use crate::errors::Error;
use crate::escape::{escape, unescape, spec_escape, spec_unescape};
use crate::scan::{
    is_ws, scan_to, lemma_scan_to_exact, lemma_skip_ws_exact, lemma_key_end_exact,
};

verus! {

/// Relies on memchr::memchr: returns the index of the first occurrence
/// of `needle` in `haystack`, or `None` when it does not occur.
pub assume_specification[ memchr::memchr ](needle: u8, haystack: &[u8]) -> (r: Option<usize>)
    ensures
        match r {
            Some(i) => i < haystack@.len() && haystack@[i as int] == needle && forall|m: int|
                0 <= m < i ==> haystack@[m] != needle,
            None => forall|m: int| 0 <= m < haystack@.len() ==> haystack@[m] != needle,
        },
;

/// A name with any leading namespace prefix removed: everything
/// strictly after the first `:` byte, or the whole name when no `:`
/// occurs.
pub open spec fn spec_local_name(name: Seq<u8>) -> Seq<u8> {
    let c = scan_to(name, 0, 0x3a);
    if c < name.len() {
        name.subrange(c + 1, name.len() as int)
    } else {
        name
    }
}

/// Law: a name without a `:` is its own local name.
pub proof fn lemma_local_name_no_colon(name: Seq<u8>)
    requires
        forall|k: int| 0 <= k < name.len() ==> name[k] != 0x3a,
    ensures
        spec_local_name(name) == name,
{
    lemma_scan_to_exact(name, 0, name.len() as int, 0x3a);
}

/// Law: with exactly one `:` at position `i`, the local name is
/// everything strictly after `i`.
pub proof fn lemma_local_name_one_colon(name: Seq<u8>, i: int)
    requires
        0 <= i < name.len(),
        name[i] == 0x3a,
        forall|k: int| 0 <= k < name.len() && k != i ==> name[k] != 0x3a,
    ensures
        spec_local_name(name) == name.subrange(i + 1, name.len() as int),
{
    lemma_scan_to_exact(name, 0, i, 0x3a);
}

/// Law: with two `:` separators, at `i` and `j`, the local name is
/// stripped only through the first; the remainder keeps the second
/// `:`.
pub proof fn lemma_local_name_two_colons(name: Seq<u8>, i: int, j: int)
    requires
        0 <= i < j < name.len(),
        name[i] == 0x3a,
        name[j] == 0x3a,
        forall|k: int| 0 <= k < name.len() && k != i && k != j ==> name[k] != 0x3a,
    ensures
        spec_local_name(name) == name.subrange(i + 1, name.len() as int),
        spec_local_name(name)[j - i - 1] == 0x3a,
{
    lemma_scan_to_exact(name, 0, i, 0x3a);
}

/// Law: a name whose only `:` is its final byte has an empty local
/// name.
pub proof fn lemma_local_name_trailing_colon(name: Seq<u8>)
    requires
        name.len() > 0,
        name.last() == 0x3a,
        forall|k: int| 0 <= k < name.len() - 1 ==> name[k] != 0x3a,
    ensures
        spec_local_name(name).len() == 0,
{
    lemma_scan_to_exact(name, 0, name.len() - 1, 0x3a);
}

/// Law: a name beginning with `:` has everything after that leading
/// colon as its local name, whatever else it holds.
pub proof fn lemma_local_name_leading_colon(name: Seq<u8>)
    requires
        name.len() > 0,
        name[0] == 0x3a,
    ensures
        spec_local_name(name) == name.subrange(1, name.len() as int),
{
    lemma_scan_to_exact(name, 0, 0, 0x3a);
}

/// The raw bytes `push_attribute` appends for one key/value pair:
/// a space, the key, `="`, the value, `"`.
pub open spec fn attr_bytes(key: Seq<u8>, value: Seq<u8>) -> Seq<u8> {
    seq![0x20u8] + key + seq![0x3du8, 0x22u8] + value + seq![0x22u8]
}

/// The bytes a sequence of key/value pairs appends, in order.
pub open spec fn attrs_bytes(pairs: Seq<(Seq<u8>, Seq<u8>)>) -> Seq<u8>
    decreases pairs.len(),
{
    if pairs.len() == 0 {
        Seq::empty()
    } else {
        attrs_bytes(pairs.drop_last()) + attr_bytes(pairs.last().0, pairs.last().1)
    }
}

/// The view of a borrowed key/value pair list.
pub open spec fn pairs_view(pairs: Seq<(&[u8], &[u8])>) -> Seq<(Seq<u8>, Seq<u8>)> {
    pairs.map_values(|p: (&[u8], &[u8])| (p.0@, p.1@))
}

/// Shared implementation of `local_name`.
fn local_name_of(name: &[u8]) -> (r: &[u8])
    ensures
        r@ == spec_local_name(name@),
{
    let ln = name.len();
    match memchr::memchr(0x3a, name) {
        Some(i) => {
            proof {
                lemma_scan_to_exact(name@, 0, i as int, 0x3a);
            }
            slice_subrange(name, i + 1, ln)
        },
        None => {
            proof {
                lemma_scan_to_exact(name@, 0, name@.len() as int, 0x3a);
            }
            name
        },
    }
}

/// An opening tag `<...>`: the name bytes followed by zero or more
/// ` key="value"`-shaped attribute spans, scanned lazily.
#[derive(Clone, Debug)]
pub struct BytesStart<'a> {
    /// Content of the element: name first, attribute spans after.
    pub buf: XmlBytes<'a>,
    /// End of the element name, which starts at the start of `buf`.
    pub name_len: usize,
}

impl<'a> BytesStart<'a> {
    /// The content bytes of the token.
    pub open spec fn content(&self) -> Seq<u8> {
        self.buf@
    }

    /// The name split point never lies past the end of the buffer.
    pub open spec fn wf(&self) -> bool {
        self.name_len <= self.buf@.len()
    }

    /// The name bytes: the prefix of the buffer up to the split point.
    pub open spec fn name_seq(&self) -> Seq<u8> {
        self.buf@.subrange(0, self.name_len as int)
    }

    /// A start tag borrowing the caller's buffer; no allocation.
    pub fn borrowed(content: &'a [u8], name_len: usize) -> (r: BytesStart<'a>)
        requires
            name_len <= content@.len(),
        ensures
            r.content() == content@,
            r.name_len == name_len,
            !r.buf.is_owned(),
            r.wf(),
    {
        BytesStart { buf: XmlBytes::Borrowed(content), name_len }
    }

    /// A start tag owning its content.
    pub fn owned(content: Vec<u8>, name_len: usize) -> (r: BytesStart<'static>)
        requires
            name_len <= content@.len(),
        ensures
            r.content() == content@,
            r.name_len == name_len,
            r.buf.is_owned(),
            r.wf(),
    {
        BytesStart { buf: XmlBytes::Owned(content), name_len }
    }

    /// Promotes the token to own its buffer; copies at most once.
    pub fn into_owned(self) -> (r: BytesStart<'static>)
        ensures
            r.content() == self.content(),
            r.name_len == self.name_len,
            r.buf.is_owned(),
    {
        BytesStart { buf: self.buf.into_owned(), name_len: self.name_len }
    }

    /// The whole content, wherever it lives.
    pub fn as_bytes(&self) -> (r: &[u8])
        ensures
            r@ == self.content(),
    {
        self.buf.as_bytes()
    }

    /// The tag name, without any attributes.
    pub fn name(&self) -> (r: &[u8])
        requires
            self.wf(),
        ensures
            r@ == self.name_seq(),
    {
        slice_subrange(self.buf.as_bytes(), 0, self.name_len)
    }

    /// The name with any leading namespace prefix removed: everything
    /// up to and including the first `:` is stripped.
    pub fn local_name(&self) -> (r: &[u8])
        requires
            self.wf(),
        ensures
            r@ == spec_local_name(self.name_seq()),
    {
        local_name_of(self.name())
    }

    /// A strict-mode attribute scanner over the spans after the name.
    pub fn attributes(&self) -> (r: Attributes<'_>)
        requires
            self.wf(),
        ensures
            r.bytes@ == self.content(),
            r.pos == self.name_len,
            r.html == false,
            r.wf(),
    {
        Attributes::new(self.buf.as_bytes(), self.name_len)
    }

    /// A relaxed-mode attribute scanner (bare keys and unquoted values
    /// permitted).
    pub fn html_attributes(&self) -> (r: Attributes<'_>)
        requires
            self.wf(),
        ensures
            r.bytes@ == self.content(),
            r.pos == self.name_len,
            r.html == true,
            r.wf(),
    {
        Attributes::html(self.buf.as_bytes(), self.name_len)
    }

    /// Appends ` key="value"` raw bytes to the buffer, copying a
    /// borrowed buffer first. Neither input is escaped or checked for
    /// embedded `"`; that is the caller's duty.
    pub fn push_attribute(&mut self, key: &[u8], value: &[u8])
        requires
            old(self).wf(),
        ensures
            final(self).content() == old(self).content() + attr_bytes(key@, value@),
            final(self).name_len == old(self).name_len,
            final(self).buf.is_owned(),
            final(self).wf(),
    {
        self.buf.push_byte(0x20);
        self.buf.extend_bytes(key);
        self.buf.push_byte(0x3d);
        self.buf.push_byte(0x22);
        self.buf.extend_bytes(value);
        self.buf.push_byte(0x22);
        proof {
            assert(self.buf@ =~= old(self).content() + attr_bytes(key@, value@));
        }
    }

    /// Appends one ` key="value"` span per pair, in slice order;
    /// duplicate keys are kept, not deduplicated.
    pub fn extend_attributes(&mut self, attrs: &[(&'a [u8], &'a [u8])])
        requires
            old(self).wf(),
        ensures
            final(self).content() == old(self).content() + attrs_bytes(pairs_view(attrs@)),
            final(self).name_len == old(self).name_len,
            final(self).wf(),
    {
        let n = attrs.len();
        let mut i: usize = 0;
        proof {
            assert(pairs_view(attrs@).subrange(0, 0) =~= Seq::<(Seq<u8>, Seq<u8>)>::empty());
            assert(self.content() + attrs_bytes(pairs_view(attrs@).subrange(0, 0))
                =~= self.content());
        }
        while i < n
            invariant
                n == attrs@.len(),
                i <= n,
                self.content() == old(self).content() + attrs_bytes(
                    pairs_view(attrs@).subrange(0, i as int),
                ),
                self.name_len == old(self).name_len,
                self.wf(),
            decreases n - i,
        {
            let pair = attrs[i];
            self.push_attribute(pair.0, pair.1);
            proof {
                let pv = pairs_view(attrs@);
                assert(pv.subrange(0, i + 1).drop_last() =~= pv.subrange(0, i as int));
                assert(pv.subrange(0, i + 1).last() == pv[i as int]);
                assert(self.content() =~= old(self).content() + attrs_bytes(
                    pv.subrange(0, i + 1),
                ));
            }
            i = i + 1;
        }
        proof {
            assert(pairs_view(attrs@).subrange(0, n as int) =~= pairs_view(attrs@));
        }
    }

    /// Consumes the token and returns it with the pairs appended, in
    /// iteration order.
    pub fn with_attributes(self, attrs: &[(&'a [u8], &'a [u8])]) -> (r: Self)
        requires
            self.wf(),
        ensures
            r.content() == self.content() + attrs_bytes(pairs_view(attrs@)),
            r.name_len == self.name_len,
            r.wf(),
    {
        let mut this = self;
        this.extend_attributes(attrs);
        this
    }

    /// The content with entity references decoded; the error carries
    /// the byte offset of the first malformed `&` sequence.
    pub fn unescaped(&self) -> (r: Result<Vec<u8>, Error>)
        ensures
            match r {
                Ok(v) => spec_unescape(self.content()) == Ok::<Seq<u8>, int>(v@),
                Err(e) => match e {
                    Error::EscapeError(ee) => spec_unescape(self.content()) == Err::<
                        Seq<u8>,
                        int,
                    >(ee.0 as int),
                    _ => false,
                },
            },
    {
        match unescape(self.buf.as_bytes()) {
            Ok(v) => Ok(v),
            Err(e) => Err(Error::EscapeError(e)),
        }
    }
}

/// A closing tag `</...>`: a bare name, no attributes.
#[derive(Clone, Debug)]
pub struct BytesEnd<'a> {
    /// The name bytes.
    pub name: XmlBytes<'a>,
}

impl<'a> BytesEnd<'a> {
    /// The name bytes of the token.
    pub open spec fn name_seq(&self) -> Seq<u8> {
        self.name@
    }

    /// An end tag borrowing the caller's buffer.
    pub fn borrowed(name: &'a [u8]) -> (r: BytesEnd<'a>)
        ensures
            r.name_seq() == name@,
            !r.name.is_owned(),
    {
        BytesEnd { name: XmlBytes::Borrowed(name) }
    }

    /// An end tag owning its name.
    pub fn owned(name: Vec<u8>) -> (r: BytesEnd<'static>)
        ensures
            r.name_seq() == name@,
            r.name.is_owned(),
    {
        BytesEnd { name: XmlBytes::Owned(name) }
    }

    /// The whole name, wherever it lives.
    pub fn as_bytes(&self) -> (r: &[u8])
        ensures
            r@ == self.name_seq(),
    {
        self.name.as_bytes()
    }

    /// The tag name.
    pub fn name(&self) -> (r: &[u8])
        ensures
            r@ == self.name_seq(),
    {
        self.name.as_bytes()
    }

    /// The name with any leading namespace prefix removed.
    pub fn local_name(&self) -> (r: &[u8])
        ensures
            r@ == spec_local_name(self.name_seq()),
    {
        local_name_of(self.name.as_bytes())
    }
}

/// A text-bearing node: text, comment, CDATA, processing instruction
/// or doctype content, held raw as it appeared in the source.
#[derive(Clone, Debug)]
pub struct BytesText<'a> {
    /// The raw (escaped, for the text case) content bytes.
    pub content: XmlBytes<'a>,
}

impl<'a> BytesText<'a> {
    /// The content bytes of the token.
    pub open spec fn content_seq(&self) -> Seq<u8> {
        self.content@
    }

    /// A text node borrowing the caller's buffer, taken as already
    /// escaped.
    pub fn borrowed(content: &'a [u8]) -> (r: BytesText<'a>)
        ensures
            r.content_seq() == content@,
            !r.content.is_owned(),
    {
        BytesText { content: XmlBytes::Borrowed(content) }
    }

    /// A text node owning its content, taken as already escaped.
    pub fn owned(content: Vec<u8>) -> (r: BytesText<'static>)
        ensures
            r.content_seq() == content@,
            r.content.is_owned(),
    {
        BytesText { content: XmlBytes::Owned(content) }
    }

    /// A text node built from plain text: the five XML-special bytes
    /// are escaped on the way in, so the stored buffer always holds
    /// XML-safe bytes. Reading back through `escaped` does not undo
    /// this.
    pub fn from_str(text: &str) -> (r: BytesText<'static>)
        ensures
            r.content_seq() == spec_escape(text.spec_bytes()),
            r.content.is_owned(),
    {
        BytesText { content: XmlBytes::Owned(escape(text.as_bytes())) }
    }

    /// The whole content, wherever it lives.
    pub fn as_bytes(&self) -> (r: &[u8])
        ensures
            r@ == self.content_seq(),
    {
        self.content.as_bytes()
    }

    /// The content with entity references decoded; the error carries
    /// the byte offset of the first malformed `&` sequence.
    pub fn unescaped(&self) -> (r: Result<Vec<u8>, Error>)
        ensures
            match r {
                Ok(v) => spec_unescape(self.content_seq()) == Ok::<Seq<u8>, int>(v@),
                Err(e) => match e {
                    Error::EscapeError(ee) => spec_unescape(self.content_seq()) == Err::<
                        Seq<u8>,
                        int,
                    >(ee.0 as int),
                    _ => false,
                },
            },
    {
        match unescape(self.content.as_bytes()) {
            Ok(v) => Ok(v),
            Err(e) => Err(Error::EscapeError(e)),
        }
    }

    /// The stored bytes exactly as they stand: already escaped, and
    /// not unescaped on the way out.
    pub fn escaped(&self) -> (r: &[u8])
        ensures
            r@ == self.content_seq(),
    {
        self.content.as_bytes()
    }
}

/// Key bytes that an attribute scan reads back whole: at least one
/// byte, none of them whitespace or `=`.
pub open spec fn scannable_key(k: Seq<u8>) -> bool {
    k.len() > 0 && forall|m: int| 0 <= m < k.len() ==> !is_ws(k[m]) && k[m] != 0x3d
}

/// Value bytes that an attribute scan reads back whole: no `"`.
pub open spec fn scannable_value(v: Seq<u8>) -> bool {
    forall|m: int| 0 <= m < v.len() ==> v[m] != 0x22
}

/// Law: one appended ` key="value"` span is scanned back as exactly
/// that pair, whatever content precedes it and whatever follows it,
/// in either scan mode.
pub proof fn lemma_scan_attr_bytes(c: Seq<u8>, k: Seq<u8>, v: Seq<u8>, t: Seq<u8>, html: bool)
    requires
        scannable_key(k),
        scannable_value(v),
    ensures
        ({
            let s = c + attr_bytes(k, v) + t;
            spec_next_attr(s, c.len() as int, html) == (AttrStep::Found {
                key: k,
                value: v,
                next: c.len() + attr_bytes(k, v).len() as int,
            })
        }),
{
    let ab = attr_bytes(k, v);
    let s = c + ab + t;
    let pos = c.len() as int;
    let kl = k.len() as int;
    let vl = v.len() as int;
    assert(ab.len() == kl + vl + 4);
    assert(s.len() == pos + ab.len() + t.len());
    assert forall|m: int| 0 <= m < ab.len() implies s[pos + m] == ab[m] by {
        assert((c + ab)[pos + m] == ab[m]);
    }
    assert(ab[0] == 0x20);
    assert forall|m: int| 1 <= m < 1 + kl implies ab[m] == k[m - 1] by {
        assert((seq![0x20u8] + k)[m] == k[m - 1]);
    }
    assert(ab[1 + kl] == 0x3d);
    assert(ab[2 + kl] == 0x22);
    assert forall|m: int| 3 + kl <= m < 3 + kl + vl implies ab[m] == v[m - 3 - kl] by {
        assert((seq![0x20u8] + k + seq![0x3du8, 0x22u8] + v)[m] == v[m - 3 - kl]);
    }
    assert(ab[3 + kl + vl] == 0x22);
    // whitespace: exactly the leading space
    assert(is_ws(s[pos]));
    assert(s[pos + 1] == k[0] && !is_ws(k[0]));
    lemma_skip_ws_exact(s, pos, pos + 1);
    // the key runs to the `=`
    assert forall|m: int| pos + 1 <= m < pos + 1 + kl implies !is_ws(s[m]) && s[m] != 0x3d by {
        assert(s[pos + (m - pos)] == ab[m - pos]);
        assert(ab[m - pos] == k[m - pos - 1]);
    }
    assert(s[pos + 1 + kl] == 0x3d);
    lemma_key_end_exact(s, pos + 1, pos + 1 + kl);
    assert(s.subrange(pos + 1, pos + 1 + kl) =~= k);
    // no whitespace between key and `=`, nor between `=` and the quote
    lemma_skip_ws_exact(s, pos + 1 + kl, pos + 1 + kl);
    assert(s[pos + 2 + kl] == 0x22);
    lemma_skip_ws_exact(s, pos + 2 + kl, pos + 2 + kl);
    // the value runs to the closing quote
    assert forall|m: int| pos + 3 + kl <= m < pos + 3 + kl + vl implies s[m] != 0x22 by {
        assert(s[pos + (m - pos)] == ab[m - pos]);
        assert(ab[m - pos] == v[m - pos - 3 - kl]);
    }
    assert(s[pos + 3 + kl + vl] == 0x22);
    lemma_scan_to_exact(s, pos + 3 + kl, pos + 3 + kl + vl, 0x22);
    assert(s.subrange(pos + 3 + kl, pos + 3 + kl + vl) =~= v);
}

/// Law: appending the same key twice keeps both spans: a scan finds
/// the first pair, and, resumed where it stopped, the second, in call
/// order — nothing is deduplicated.
pub proof fn lemma_push_attribute_append_only(
    c: Seq<u8>,
    k: Seq<u8>,
    v1: Seq<u8>,
    v2: Seq<u8>,
    html: bool,
)
    requires
        scannable_key(k),
        scannable_value(v1),
        scannable_value(v2),
    ensures
        ({
            let s = c + attr_bytes(k, v1) + attr_bytes(k, v2);
            let n1 = c.len() + attr_bytes(k, v1).len();
            spec_next_attr(s, c.len() as int, html) == (AttrStep::Found {
                key: k,
                value: v1,
                next: n1 as int,
            }) && spec_next_attr(s, n1 as int, html) == (AttrStep::Found {
                key: k,
                value: v2,
                next: s.len() as int,
            })
        }),
{
    let ab1 = attr_bytes(k, v1);
    let ab2 = attr_bytes(k, v2);
    let s = c + ab1 + ab2;
    lemma_scan_attr_bytes(c, k, v1, ab2, html);
    lemma_scan_attr_bytes(c + ab1, k, v2, Seq::empty(), html);
    assert((c + ab1) + ab2 + Seq::<u8>::empty() =~= s);
    assert(s.len() == (c + ab1).len() + ab2.len());
}

/// The structural events a scanner emits, one per unit found. Exactly
/// one variant is active; `Eof` is terminal and carries no bytes.
#[derive(Clone, Debug)]
pub enum Event<'a> {
    /// Start tag (with attributes) `<...>`.
    Start(BytesStart<'a>),
    /// End tag `</...>`.
    End(BytesEnd<'a>),
    /// Empty element tag (with attributes) `<.../>`.
    Empty(BytesStart<'a>),
    /// Data between a start and an end tag.
    Text(BytesText<'a>),
    /// Comment `<!-- ... -->`.
    Comment(BytesText<'a>),
    /// CData `<![CDATA[...]]>`.
    CData(BytesText<'a>),
    /// XML declaration `<?xml ...?>`.
    Decl(BytesDecl<'a>),
    /// Processing instruction `<?...?>`.
    PI(BytesText<'a>),
    /// Doctype `<!DOCTYPE...>`.
    DocType(BytesText<'a>),
    /// End of the event stream.
    Eof,
}

impl<'a> Event<'a> {
    /// The payload bytes of the event; `Eof` carries none.
    pub open spec fn content(&self) -> Seq<u8> {
        match self {
            Event::Start(e) => e.content(),
            Event::Empty(e) => e.content(),
            Event::End(e) => e.name_seq(),
            Event::Text(e) => e.content_seq(),
            Event::Comment(e) => e.content_seq(),
            Event::CData(e) => e.content_seq(),
            Event::Decl(e) => e.element.content(),
            Event::PI(e) => e.content_seq(),
            Event::DocType(e) => e.content_seq(),
            Event::Eof => Seq::empty(),
        }
    }

    /// The payload bytes of the event, empty for `Eof`.
    pub fn as_bytes(&self) -> (r: &[u8])
        ensures
            r@ == self.content(),
    {
        match self {
            Event::Start(e) => e.as_bytes(),
            Event::Empty(e) => e.as_bytes(),
            Event::End(e) => e.as_bytes(),
            Event::Text(e) => e.as_bytes(),
            Event::Comment(e) => e.as_bytes(),
            Event::CData(e) => e.as_bytes(),
            Event::Decl(e) => e.element.as_bytes(),
            Event::PI(e) => e.as_bytes(),
            Event::DocType(e) => e.as_bytes(),
            Event::Eof => {
                let r: &[u8] = &[];
                proof {
                    assert(r@ =~= Seq::<u8>::empty());
                }
                r
            },
        }
    }
}

} // verus!
