//! The XML declaration token: a start tag whose name is literally
//! `xml`, with the version/encoding/standalone fields computed on
//! demand from its attribute spans — never stored separately.

use vstd::prelude::*;
use vstd::slice::slice_to_vec;
use crate::attributes::{eq_bytes, AttrSearch, AttrStep, spec_find_attr, spec_next_attr,
    lemma_next_attr_progress};
use crate::errors::Error;
use crate::events::BytesStart;

verus! {

/// Declares encoding_rs::Encoding so that it can stand in signatures;
/// the crate resolves WHATWG encoding labels for `encoder`.
#[verifier::external_type_specification]
#[verifier::external_body]
pub struct ExEncoding(encoding_rs::Encoding);

/// The encoding that encoding_rs resolves a label to, if any; a
/// function of the label bytes alone.
pub uninterp spec fn label_encoding(label: Seq<u8>) -> Option<&'static encoding_rs::Encoding>;

/// Relies on encoding_rs::Encoding::for_label: resolves a WHATWG
/// encoding label (or returns `None` for an unknown one); the result
/// depends on the label bytes alone.
#[verifier::external_body]
fn resolve_label(label: &[u8]) -> (r: Option<&'static encoding_rs::Encoding>)
    ensures
        r == label_encoding(label@),
{
    encoding_rs::Encoding::for_label(label)
}

/// The bytes of the key `version`.
pub open spec fn version_key() -> Seq<u8> {
    seq![0x76u8, 0x65u8, 0x72u8, 0x73u8, 0x69u8, 0x6fu8, 0x6eu8]
}

/// The bytes of the key `encoding`.
pub open spec fn encoding_key() -> Seq<u8> {
    seq![0x65u8, 0x6eu8, 0x63u8, 0x6fu8, 0x64u8, 0x69u8, 0x6eu8, 0x67u8]
}

/// The bytes of the key `standalone`.
pub open spec fn standalone_key() -> Seq<u8> {
    seq![0x73u8, 0x74u8, 0x61u8, 0x6eu8, 0x64u8, 0x61u8, 0x6cu8, 0x6fu8, 0x6eu8, 0x65u8]
}

fn version_key_vec() -> (r: Vec<u8>)
    ensures
        r@ == version_key(),
{
    let mut v: Vec<u8> = Vec::new();
    v.push(0x76);
    v.push(0x65);
    v.push(0x72);
    v.push(0x73);
    v.push(0x69);
    v.push(0x6f);
    v.push(0x6e);
    proof {
        assert(v@ =~= version_key());
    }
    v
}

fn encoding_key_vec() -> (r: Vec<u8>)
    ensures
        r@ == encoding_key(),
{
    let mut v: Vec<u8> = Vec::new();
    v.push(0x65);
    v.push(0x6e);
    v.push(0x63);
    v.push(0x6f);
    v.push(0x64);
    v.push(0x69);
    v.push(0x6e);
    v.push(0x67);
    proof {
        assert(v@ =~= encoding_key());
    }
    v
}

fn standalone_key_vec() -> (r: Vec<u8>)
    ensures
        r@ == standalone_key(),
{
    let mut v: Vec<u8> = Vec::new();
    v.push(0x73);
    v.push(0x74);
    v.push(0x61);
    v.push(0x6e);
    v.push(0x64);
    v.push(0x61);
    v.push(0x6c);
    v.push(0x6f);
    v.push(0x6e);
    v.push(0x65);
    proof {
        assert(v@ =~= standalone_key());
    }
    v
}

/// `xml version="` — the fixed head of a built declaration.
pub open spec fn decl_head() -> Seq<u8> {
    seq![
        0x78u8, 0x6du8, 0x6cu8, 0x20u8, 0x76u8, 0x65u8, 0x72u8, 0x73u8, 0x69u8, 0x6fu8,
        0x6eu8, 0x3du8, 0x22u8,
    ]
}

/// `" encoding="` — closes the previous value, opens the encoding one.
pub open spec fn decl_enc_sep() -> Seq<u8> {
    seq![
        0x22u8, 0x20u8, 0x65u8, 0x6eu8, 0x63u8, 0x6fu8, 0x64u8, 0x69u8, 0x6eu8, 0x67u8,
        0x3du8, 0x22u8,
    ]
}

/// `" standalone="` — closes the previous value, opens the standalone
/// one.
pub open spec fn decl_sta_sep() -> Seq<u8> {
    seq![
        0x22u8, 0x20u8, 0x73u8, 0x74u8, 0x61u8, 0x6eu8, 0x64u8, 0x61u8, 0x6cu8, 0x6fu8,
        0x6eu8, 0x65u8, 0x3du8, 0x22u8,
    ]
}

/// The canonical bytes a built declaration holds: always double-quote
/// delimited, fields in the fixed order version, encoding, standalone;
/// absent fields are omitted, never emitted empty.
pub open spec fn decl_bytes(
    version: Seq<u8>,
    encoding: Option<Seq<u8>>,
    standalone: Option<Seq<u8>>,
) -> Seq<u8> {
    decl_head() + version + (match encoding {
        Some(e) => decl_enc_sep() + e,
        None => Seq::empty(),
    }) + (match standalone {
        Some(s) => decl_sta_sep() + s,
        None => Seq::empty(),
    }) + seq![0x22u8]
}

/// Appends a slice to a byte vector.
fn vec_extend(v: &mut Vec<u8>, s: &[u8])
    ensures
        final(v)@ == old(v)@ + s@,
{
    let n = s.len();
    let mut i: usize = 0;
    while i < n
        invariant
            n == s@.len(),
            i <= n,
            v@ == old(v)@ + s@.subrange(0, i as int),
        decreases n - i,
    {
        v.push(s[i]);
        proof {
            assert(s@.subrange(0, i + 1) =~= s@.subrange(0, i as int).push(s@[i as int]));
            assert(old(v)@ + s@.subrange(0, i + 1)
                =~= (old(v)@ + s@.subrange(0, i as int)).push(s@[i as int]));
        }
        i = i + 1;
    }
    proof {
        assert(s@.subrange(0, n as int) =~= s@);
    }
}

/// A `<?xml ...?>` declaration, wrapping the start tag `xml` whose
/// attribute spans carry the declaration fields.
#[derive(Clone, Debug)]
pub struct BytesDecl<'a> {
    /// The wrapped start tag; its name is `xml`, so `name_len` is 3.
    pub element: BytesStart<'a>,
}

impl<'a> BytesDecl<'a> {
    /// Wraps an already-scanned start tag as a declaration.
    pub fn from_start(start: BytesStart<'a>) -> (r: BytesDecl<'a>)
        ensures
            r.element == start,
    {
        BytesDecl { element: start }
    }

    /// The declared version: the value of the first attribute, which
    /// must be named `version`. A declaration whose first attribute is
    /// anything else is rejected, even when the bytes might otherwise
    /// look well formed.
    pub fn version(&self) -> (r: Result<Vec<u8>, Error>)
        requires
            self.element.wf(),
        ensures
            match spec_next_attr(self.element.content(), self.element.name_len as int, false) {
                AttrStep::Found { key, value, .. } => if key == version_key() {
                    match r {
                        Ok(v) => v@ == value,
                        _ => false,
                    }
                } else {
                    match r {
                        Err(Error::XmlDeclWithoutVersion(Some(k))) => k@ == key,
                        _ => false,
                    }
                },
                AttrStep::Done => r == Err::<Vec<u8>, Error>(
                    Error::XmlDeclWithoutVersion(None::<Vec<u8>>),
                ),
                AttrStep::Fail(e) => r == Err::<Vec<u8>, Error>(Error::Attr(e)),
            },
    {
        let mut attrs = self.element.attributes();
        match attrs.next() {
            None => Err(Error::XmlDeclWithoutVersion(None)),
            Some(Err(e)) => Err(Error::Attr(e)),
            Some(Ok(a)) => {
                let vkey = version_key_vec();
                if eq_bytes(a.key, vkey.as_slice()) {
                    Ok(slice_to_vec(a.value))
                } else {
                    Err(Error::XmlDeclWithoutVersion(Some(slice_to_vec(a.key))))
                }
            },
        }
    }

    /// The declared encoding: the value of the first attribute named
    /// `encoding`, `None` when no such attribute exists, or the scan
    /// error met while searching.
    pub fn encoding(&self) -> (r: Option<Result<Vec<u8>, Error>>)
        requires
            self.element.wf(),
        ensures
            match spec_find_attr(
                self.element.content(),
                self.element.name_len as int,
                encoding_key(),
            ) {
                AttrSearch::Absent => r is None,
                AttrSearch::Found(v) => match r {
                    Some(Ok(val)) => val@ == v,
                    _ => false,
                },
                AttrSearch::Failed(e) => r == Some(Err::<Vec<u8>, Error>(Error::Attr(e))),
            },
    {
        let key = encoding_key_vec();
        match self.find_attr(key.as_slice()) {
            None => None,
            Some(Err(e)) => Some(Err(e)),
            Some(Ok(v)) => Some(Ok(v)),
        }
    }

    /// The declared standalone flag, located like `encoding`.
    pub fn standalone(&self) -> (r: Option<Result<Vec<u8>, Error>>)
        requires
            self.element.wf(),
        ensures
            match spec_find_attr(
                self.element.content(),
                self.element.name_len as int,
                standalone_key(),
            ) {
                AttrSearch::Absent => r is None,
                AttrSearch::Found(v) => match r {
                    Some(Ok(val)) => val@ == v,
                    _ => false,
                },
                AttrSearch::Failed(e) => r == Some(Err::<Vec<u8>, Error>(Error::Attr(e))),
            },
    {
        let key = standalone_key_vec();
        match self.find_attr(key.as_slice()) {
            None => None,
            Some(Err(e)) => Some(Err(e)),
            Some(Ok(v)) => Some(Ok(v)),
        }
    }

    /// Linear strict-mode scan for the first attribute named `key`.
    fn find_attr(&self, key: &[u8]) -> (r: Option<Result<Vec<u8>, Error>>)
        requires
            self.element.wf(),
        ensures
            match spec_find_attr(self.element.content(), self.element.name_len as int, key@) {
                AttrSearch::Absent => r is None,
                AttrSearch::Found(v) => match r {
                    Some(Ok(val)) => val@ == v,
                    _ => false,
                },
                AttrSearch::Failed(e) => r == Some(Err::<Vec<u8>, Error>(Error::Attr(e))),
            },
    {
        let ghost s = self.element.content();
        let ghost target = spec_find_attr(s, self.element.name_len as int, key@);
        let mut attrs = self.element.attributes();
        loop
            invariant
                attrs.wf(),
                attrs.html == false,
                attrs.bytes@ == s,
                attrs.pos <= s.len(),
                s == self.element.content(),
                target == spec_find_attr(self.element.content(), self.element.name_len as int, key@),
                spec_find_attr(s, attrs.pos as int, key@) == target,
            decreases s.len() - attrs.pos,
        {
            let ghost pos0 = attrs.pos as int;
            proof {
                lemma_next_attr_progress(s, pos0, false);
            }
            match attrs.next() {
                None => {
                    proof {
                        assert(spec_next_attr(s, pos0, false) is Done);
                        assert(spec_find_attr(s, pos0, key@) == AttrSearch::Absent);
                    }
                    return None;
                },
                Some(Err(e)) => {
                    proof {
                        assert(spec_next_attr(s, pos0, false) == AttrStep::Fail(e));
                        assert(spec_find_attr(s, pos0, key@) == AttrSearch::Failed(e));
                    }
                    return Some(Err(Error::Attr(e)));
                },
                Some(Ok(a)) => {
                    if eq_bytes(a.key, key) {
                        return Some(Ok(slice_to_vec(a.value)));
                    }
                },
            }
        }
    }

    /// Builds a declaration from the mandatory version and the
    /// optional encoding and standalone values. Nothing is escaped;
    /// values are always wrapped in double quotes, and absent fields
    /// are omitted. The name split point is 3, the length of `xml`.
    pub fn new(version: &[u8], encoding: Option<&[u8]>, standalone: Option<&[u8]>) -> (r:
        BytesDecl<'static>)
        ensures
            r.element.content() == decl_bytes(
                version@,
                match encoding {
                    Some(e) => Some(e@),
                    None => None,
                },
                match standalone {
                    Some(s) => Some(s@),
                    None => None,
                },
            ),
            r.element.name_len == 3,
            r.element.wf(),
            r.element.buf.is_owned(),
    {
        let mut buf: Vec<u8> = Vec::new();
        buf.push(0x78);
        buf.push(0x6d);
        buf.push(0x6c);
        buf.push(0x20);
        buf.push(0x76);
        buf.push(0x65);
        buf.push(0x72);
        buf.push(0x73);
        buf.push(0x69);
        buf.push(0x6f);
        buf.push(0x6e);
        buf.push(0x3d);
        buf.push(0x22);
        proof {
            assert(buf@ =~= decl_head());
        }
        vec_extend(&mut buf, version);
        match encoding {
            Some(e) => {
                let ghost before = buf@;
                buf.push(0x22);
                buf.push(0x20);
                buf.push(0x65);
                buf.push(0x6e);
                buf.push(0x63);
                buf.push(0x6f);
                buf.push(0x64);
                buf.push(0x69);
                buf.push(0x6e);
                buf.push(0x67);
                buf.push(0x3d);
                buf.push(0x22);
                proof {
                    assert(buf@ =~= before + decl_enc_sep());
                }
                vec_extend(&mut buf, e);
            },
            None => {},
        }
        match standalone {
            Some(st) => {
                let ghost before = buf@;
                buf.push(0x22);
                buf.push(0x20);
                buf.push(0x73);
                buf.push(0x74);
                buf.push(0x61);
                buf.push(0x6e);
                buf.push(0x64);
                buf.push(0x61);
                buf.push(0x6c);
                buf.push(0x6f);
                buf.push(0x6e);
                buf.push(0x65);
                buf.push(0x3d);
                buf.push(0x22);
                proof {
                    assert(buf@ =~= before + decl_sta_sep());
                }
                vec_extend(&mut buf, st);
            },
            None => {},
        }
        buf.push(0x22);
        proof {
            assert(buf@ =~= decl_bytes(
                version@,
                match encoding {
                    Some(e) => Some(e@),
                    None => None,
                },
                match standalone {
                    Some(s) => Some(s@),
                    None => None,
                },
            ));
        }
        BytesDecl { element: BytesStart::owned(buf, 3) }
    }

    /// Resolves the declared encoding label against the standard label
    /// table, a best-effort hint: an absent, unreadable or unknown
    /// label yields no encoding.
    pub fn encoder(&self) -> (r: Option<&'static encoding_rs::Encoding>)
        requires
            self.element.wf(),
        ensures
            match spec_find_attr(
                self.element.content(),
                self.element.name_len as int,
                encoding_key(),
            ) {
                AttrSearch::Found(v) => r == label_encoding(v),
                _ => r is None,
            },
    {
        match self.encoding() {
            Some(Ok(v)) => resolve_label(v.as_slice()),
            Some(Err(_)) => None,
            None => None,
        }
    }
}

} // verus!
