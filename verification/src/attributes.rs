//! Lazy attribute scanner over the byte span of a tag.
//!
//! A scan is restartable per call and never cached on the token. Strict
//! mode demands `key = 'value'` or `key = "value"`; html mode also
//! accepts a bare key (the value is then empty) and an unquoted value
//! running to the next whitespace byte.

use vstd::prelude::*;
use vstd::slice::slice_subrange;
use crate::scan::{
    is_ws, skip_ws, key_end, scan_to, ws_start, lemma_skip_ws_props, lemma_skip_ws_exact,
    lemma_key_end_props, lemma_key_end_exact, lemma_scan_to_props, lemma_scan_to_exact,
    lemma_ws_start_props, lemma_ws_start_exact,
};

verus! {

/// Malformed attribute syntax; each variant carries the byte offset at
/// which the scan gave up.
#[derive(Clone, Copy, Debug, PartialEq, Eq, Structural)]
pub enum AttrError {
    /// A `=` stood where a key had to start.
    EmptyKey(usize),
    /// Strict mode: no `=` followed the key.
    ExpectedEq(usize),
    /// Strict mode: the value was not opened by `'` or `"`.
    ExpectedQuote(usize),
    /// The quote that opened the value never closed.
    UnterminatedValue(usize),
}

/// Outcome of one scan step, at the specification level.
pub enum AttrStep {
    /// A key/value pair was found; `next` is where the following step
    /// starts.
    Found { key: Seq<u8>, value: Seq<u8>, next: int },
    /// Only whitespace remained.
    Done,
    /// The span is malformed from the reported offset on.
    Fail(AttrError),
}

/// One attribute-scan step on `s` from byte `pos`.
pub open spec fn spec_next_attr(s: Seq<u8>, pos: int, html: bool) -> AttrStep {
    let i = skip_ws(s, pos);
    if i >= s.len() {
        AttrStep::Done
    } else if s[i] == 0x3d {
        AttrStep::Fail(AttrError::EmptyKey(i as usize))
    } else {
        let ke = key_end(s, i);
        let key = s.subrange(i, ke);
        let j = skip_ws(s, ke);
        if j >= s.len() || s[j] != 0x3d {
            if html {
                AttrStep::Found { key, value: Seq::empty(), next: ke }
            } else {
                AttrStep::Fail(AttrError::ExpectedEq(j as usize))
            }
        } else {
            let k = skip_ws(s, j + 1);
            if k < s.len() && (s[k] == 0x22 || s[k] == 0x27) {
                let close = scan_to(s, k + 1, s[k]);
                if close >= s.len() {
                    AttrStep::Fail(AttrError::UnterminatedValue(k as usize))
                } else {
                    AttrStep::Found { key, value: s.subrange(k + 1, close), next: close + 1 }
                }
            } else if html {
                let ve = ws_start(s, k);
                AttrStep::Found { key, value: s.subrange(k, ve), next: ve }
            } else {
                AttrStep::Fail(AttrError::ExpectedQuote(k as usize))
            }
        }
    }
}

/// Law: a found attribute always moves the scan strictly forward and
/// never past the end of the span.
pub proof fn lemma_next_attr_progress(s: Seq<u8>, pos: int, html: bool)
    requires
        0 <= pos <= s.len(),
    ensures
        match spec_next_attr(s, pos, html) {
            AttrStep::Found { next, .. } => pos < next <= s.len(),
            _ => true,
        },
{
    lemma_skip_ws_props(s, pos);
    let i = skip_ws(s, pos);
    if i < s.len() && s[i] != 0x3d {
        lemma_key_end_props(s, i);
        let ke = key_end(s, i);
        assert(ke > i);
        lemma_skip_ws_props(s, ke);
        let j = skip_ws(s, ke);
        if !(j >= s.len() || s[j] != 0x3d) {
            lemma_skip_ws_props(s, j + 1);
            let k = skip_ws(s, j + 1);
            if k < s.len() && (s[k] == 0x22 || s[k] == 0x27) {
                lemma_scan_to_props(s, k + 1, s[k]);
            } else {
                lemma_ws_start_props(s, k);
            }
        }
    }
}

/// Outcome of a search for one key, at the specification level.
pub enum AttrSearch {
    /// The key occurs nowhere before the span ends.
    Absent,
    /// The first attribute with the key carries this value.
    Found(Seq<u8>),
    /// The scan failed before any attribute with the key was seen.
    Failed(AttrError),
}

/// Strict-mode search for the first attribute named `key`, scanning `s`
/// from byte `pos`.
pub open spec fn spec_find_attr(s: Seq<u8>, pos: int, key: Seq<u8>) -> AttrSearch
    decreases s.len() - pos,
    via spec_find_attr_decreases
{
    if pos < 0 || pos > s.len() {
        AttrSearch::Absent
    } else {
        match spec_next_attr(s, pos, false) {
            AttrStep::Done => AttrSearch::Absent,
            AttrStep::Fail(e) => AttrSearch::Failed(e),
            AttrStep::Found { key: k, value: v, next } => if k == key {
                AttrSearch::Found(v)
            } else {
                spec_find_attr(s, next, key)
            },
        }
    }
}

#[via_fn]
proof fn spec_find_attr_decreases(s: Seq<u8>, pos: int, key: Seq<u8>) {
    if 0 <= pos <= s.len() {
        lemma_next_attr_progress(s, pos, false);
    }
}

/// One key/value pair, each a view into the scanned buffer; quotes are
/// already stripped from the value.
#[derive(Clone, Copy, Debug, PartialEq, Eq)]
pub struct Attribute<'a> {
    pub key: &'a [u8],
    pub value: &'a [u8],
}

/// A restartable scanner over the attribute spans of one tag buffer.
pub struct Attributes<'a> {
    /// The whole tag buffer.
    pub bytes: &'a [u8],
    /// Where the next scan step starts.
    pub pos: usize,
    /// Relaxed (html) grammar instead of the strict one.
    pub html: bool,
}

impl<'a> Attributes<'a> {
    pub open spec fn wf(&self) -> bool {
        self.pos <= self.bytes@.len()
    }

    /// Strict-mode scanner over `buf`, starting at byte `pos`.
    pub fn new(buf: &'a [u8], pos: usize) -> (r: Attributes<'a>)
        requires
            pos <= buf@.len(),
        ensures
            r.bytes@ == buf@,
            r.pos == pos,
            r.html == false,
            r.wf(),
    {
        Attributes { bytes: buf, pos, html: false }
    }

    /// Relaxed-mode scanner over `buf`, starting at byte `pos`.
    pub fn html(buf: &'a [u8], pos: usize) -> (r: Attributes<'a>)
        requires
            pos <= buf@.len(),
        ensures
            r.bytes@ == buf@,
            r.pos == pos,
            r.html == true,
            r.wf(),
    {
        Attributes { bytes: buf, pos, html: true }
    }

    /// The next key/value pair, a scan error, or `None` at the end of
    /// the span. After an error the scanner is exhausted.
    pub fn next(&mut self) -> (r: Option<Result<Attribute<'a>, AttrError>>)
        requires
            old(self).wf(),
        ensures
            final(self).bytes == old(self).bytes,
            final(self).html == old(self).html,
            final(self).wf(),
            match spec_next_attr(old(self).bytes@, old(self).pos as int, old(self).html) {
                AttrStep::Done => r is None && final(self).pos == old(self).bytes@.len(),
                AttrStep::Found { key, value, next } => match r {
                    Some(Ok(a)) => a.key@ == key && a.value@ == value && final(self).pos == next,
                    _ => false,
                },
                AttrStep::Fail(e) => r == Some(Err::<Attribute<'a>, AttrError>(e))
                    && final(self).pos == old(self).bytes@.len(),
            },
    {
        let bs: &'a [u8] = self.bytes;
        let n = bs.len();
        let ghost s = bs@;
        let ghost pos0 = self.pos as int;
        let mut i = self.pos;
        while i < n && is_ws_byte(bs[i])
            invariant
                n == s.len(),
                s == bs@,
                pos0 <= i <= n,
                forall|m: int| pos0 <= m < i ==> is_ws(s[m]),
            decreases n - i,
        {
            i = i + 1;
        }
        proof {
            lemma_skip_ws_exact(s, pos0, i as int);
        }
        if i >= n {
            self.pos = n;
            return None;
        }
        if bs[i] == 0x3d {
            self.pos = n;
            return Some(Err(AttrError::EmptyKey(i)));
        }
        let mut ke = i;
        while ke < n && !is_ws_byte(bs[ke]) && bs[ke] != 0x3d
            invariant
                n == s.len(),
                s == bs@,
                i <= ke <= n,
                forall|m: int| i <= m < ke ==> !is_ws(s[m]) && s[m] != 0x3d,
            decreases n - ke,
        {
            ke = ke + 1;
        }
        proof {
            lemma_key_end_exact(s, i as int, ke as int);
        }
        let key = slice_subrange(bs, i, ke);
        let mut j = ke;
        while j < n && is_ws_byte(bs[j])
            invariant
                n == s.len(),
                s == bs@,
                ke <= j <= n,
                forall|m: int| ke <= m < j ==> is_ws(s[m]),
            decreases n - j,
        {
            j = j + 1;
        }
        proof {
            lemma_skip_ws_exact(s, ke as int, j as int);
        }
        if j >= n || bs[j] != 0x3d {
            if self.html {
                let value = slice_subrange(bs, ke, ke);
                self.pos = ke;
                proof {
                    assert(value@ =~= Seq::<u8>::empty());
                }
                return Some(Ok(Attribute { key, value }));
            } else {
                self.pos = n;
                return Some(Err(AttrError::ExpectedEq(j)));
            }
        }
        let mut k = j + 1;
        while k < n && is_ws_byte(bs[k])
            invariant
                n == s.len(),
                s == bs@,
                j + 1 <= k <= n,
                forall|m: int| j + 1 <= m < k ==> is_ws(s[m]),
            decreases n - k,
        {
            k = k + 1;
        }
        proof {
            lemma_skip_ws_exact(s, j + 1, k as int);
        }
        if k < n && (bs[k] == 0x22 || bs[k] == 0x27) {
            let q = bs[k];
            let mut close = k + 1;
            while close < n && bs[close] != q
                invariant
                    n == s.len(),
                    s == bs@,
                    k + 1 <= close <= n,
                    forall|m: int| k + 1 <= m < close ==> s[m] != q,
                decreases n - close,
            {
                close = close + 1;
            }
            proof {
                lemma_scan_to_exact(s, k + 1, close as int, q);
            }
            if close >= n {
                self.pos = n;
                return Some(Err(AttrError::UnterminatedValue(k)));
            }
            let value = slice_subrange(bs, k + 1, close);
            self.pos = close + 1;
            Some(Ok(Attribute { key, value }))
        } else if self.html {
            let mut ve = k;
            while ve < n && !is_ws_byte(bs[ve])
                invariant
                    n == s.len(),
                    s == bs@,
                    k <= ve <= n,
                    forall|m: int| k <= m < ve ==> !is_ws(s[m]),
                decreases n - ve,
            {
                ve = ve + 1;
            }
            proof {
                lemma_ws_start_exact(s, k as int, ve as int);
            }
            let value = slice_subrange(bs, k, ve);
            self.pos = ve;
            Some(Ok(Attribute { key, value }))
        } else {
            self.pos = n;
            Some(Err(AttrError::ExpectedQuote(k)))
        }
    }
}

/// Exec test for XML whitespace.
pub fn is_ws_byte(b: u8) -> (r: bool)
    ensures
        r == is_ws(b),
{
    b == 0x20 || b == 0x09 || b == 0x0a || b == 0x0d
}

/// Byte-for-byte equality of two slices.
pub fn eq_bytes(a: &[u8], b: &[u8]) -> (r: bool)
    ensures
        r == (a@ == b@),
{
    if a.len() != b.len() {
        return false;
    }
    let n = a.len();
    let mut i: usize = 0;
    while i < n
        invariant
            n == a@.len() == b@.len(),
            i <= n,
            forall|m: int| 0 <= m < i ==> a@[m] == b@[m],
        decreases n - i,
    {
        if a[i] != b[i] {
            return false;
        }
        i = i + 1;
    }
    proof {
        assert(a@ =~= b@);
    }
    true
}

} // verus!
