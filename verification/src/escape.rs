//! Entity escape/unescape codec for XML text.
//!
//! `escape` replaces the five XML-special bytes `<`, `>`, `&`, `'`, `"`
//! with their named entity references; `unescape` decodes named and
//! numeric (`&#...;` decimal, `&#x...;` hexadecimal) entity references,
//! and reports the byte offset of the first malformed `&` sequence.

use vstd::prelude::*;
use vstd::slice::slice_subrange;
use crate::scan::{scan_to, lemma_scan_to_props, lemma_scan_to_exact};

verus! {

/// Error raised by `unescape`: the payload is the byte offset of the
/// `&` that starts the malformed or unrecognized entity reference.
#[derive(Clone, Copy, Debug, PartialEq, Eq, Structural)]
pub struct EscapeError(pub usize);

/// The five bytes that `escape` replaces with entity references.
pub open spec fn is_escapable(b: u8) -> bool {
    b == 0x3c || b == 0x3e || b == 0x26 || b == 0x27 || b == 0x22
}

/// What one input byte contributes to the escaped output.
pub open spec fn spec_escape_byte(b: u8) -> Seq<u8> {
    if b == 0x3c {
        seq![0x26u8, 0x6cu8, 0x74u8, 0x3bu8]  // &lt;
    } else if b == 0x3e {
        seq![0x26u8, 0x67u8, 0x74u8, 0x3bu8]  // &gt;
    } else if b == 0x26 {
        seq![0x26u8, 0x61u8, 0x6du8, 0x70u8, 0x3bu8]  // &amp;
    } else if b == 0x27 {
        seq![0x26u8, 0x61u8, 0x70u8, 0x6fu8, 0x73u8, 0x3bu8]  // &apos;
    } else if b == 0x22 {
        seq![0x26u8, 0x71u8, 0x75u8, 0x6fu8, 0x74u8, 0x3bu8]  // &quot;
    } else {
        seq![b]
    }
}

/// The escaped form of a whole byte sequence.
pub open spec fn spec_escape(s: Seq<u8>) -> Seq<u8>
    decreases s.len(),
{
    if s.len() == 0 {
        Seq::empty()
    } else {
        spec_escape_byte(s[0]) + spec_escape(s.drop_first())
    }
}

pub proof fn lemma_escape_concat(s: Seq<u8>, t: Seq<u8>)
    ensures
        spec_escape(s + t) == spec_escape(s) + spec_escape(t),
    decreases s.len(),
{
    if s.len() == 0 {
        assert(s + t =~= t);
        assert(spec_escape(s) + spec_escape(t) =~= spec_escape(t));
    } else {
        assert((s + t).drop_first() =~= s.drop_first() + t);
        lemma_escape_concat(s.drop_first(), t);
        assert(spec_escape_byte(s[0]) + (spec_escape(s.drop_first()) + spec_escape(t))
            =~= (spec_escape_byte(s[0]) + spec_escape(s.drop_first())) + spec_escape(t));
    }
}

/// Unicode scalar values acceptable in a numeric character reference.
pub open spec fn is_scalar(v: nat) -> bool {
    v <= 0x10ffff && !(0xd800 <= v <= 0xdfff)
}

pub open spec fn is_dec_digit(b: u8) -> bool {
    0x30 <= b <= 0x39
}

pub open spec fn dec_digit_val(b: u8) -> nat {
    (b - 0x30) as nat
}

pub open spec fn is_hex_digit(b: u8) -> bool {
    is_dec_digit(b) || (0x41 <= b <= 0x46) || (0x61 <= b <= 0x66)
}

pub open spec fn hex_digit_val(b: u8) -> nat {
    if is_dec_digit(b) {
        (b - 0x30) as nat
    } else if 0x41 <= b <= 0x46 {
        (b - 0x37) as nat
    } else {
        (b - 0x57) as nat
    }
}

pub open spec fn all_dec_digits(s: Seq<u8>) -> bool {
    forall|k: int| 0 <= k < s.len() ==> is_dec_digit(s[k])
}

pub open spec fn all_hex_digits(s: Seq<u8>) -> bool {
    forall|k: int| 0 <= k < s.len() ==> is_hex_digit(s[k])
}

/// Value of a decimal digit string, most significant digit first.
pub open spec fn dec_val(s: Seq<u8>) -> nat
    decreases s.len(),
{
    if s.len() == 0 {
        0
    } else {
        dec_val(s.drop_last()) * 10 + dec_digit_val(s.last())
    }
}

/// Value of a hexadecimal digit string, most significant digit first.
pub open spec fn hex_val(s: Seq<u8>) -> nat
    decreases s.len(),
{
    if s.len() == 0 {
        0
    } else {
        hex_val(s.drop_last()) * 16 + hex_digit_val(s.last())
    }
}

/// UTF-8 encoding of a unicode scalar value.
pub open spec fn utf8_bytes(v: nat) -> Seq<u8> {
    if v < 0x80 {
        seq![v as u8]
    } else if v < 0x800 {
        seq![(0xc0 + v / 0x40) as u8, (0x80 + v % 0x40) as u8]
    } else if v < 0x10000 {
        seq![
            (0xe0 + v / 0x1000) as u8,
            (0x80 + (v / 0x40) % 0x40) as u8,
            (0x80 + v % 0x40) as u8,
        ]
    } else {
        seq![
            (0xf0 + v / 0x40000) as u8,
            (0x80 + (v / 0x1000) % 0x40) as u8,
            (0x80 + (v / 0x40) % 0x40) as u8,
            (0x80 + v % 0x40) as u8,
        ]
    }
}

/// What the bytes between `&` and `;` decode to: the five named
/// entities, or a decimal (`#...`) or hexadecimal (`#x...`) character
/// reference, UTF-8 encoded. `None` for anything else.
pub open spec fn spec_decode_entity(e: Seq<u8>) -> Option<Seq<u8>> {
    if e == seq![0x6cu8, 0x74u8] {  // lt
        Some(seq![0x3cu8])
    } else if e == seq![0x67u8, 0x74u8] {  // gt
        Some(seq![0x3eu8])
    } else if e == seq![0x61u8, 0x6du8, 0x70u8] {  // amp
        Some(seq![0x26u8])
    } else if e == seq![0x61u8, 0x70u8, 0x6fu8, 0x73u8] {  // apos
        Some(seq![0x27u8])
    } else if e == seq![0x71u8, 0x75u8, 0x6fu8, 0x74u8] {  // quot
        Some(seq![0x22u8])
    } else if e.len() >= 2 && e[0] == 0x23 && e[1] == 0x78 {  // #x
        let digits = e.subrange(2, e.len() as int);
        if digits.len() > 0 && all_hex_digits(digits) && is_scalar(hex_val(digits)) {
            Some(utf8_bytes(hex_val(digits)))
        } else {
            None
        }
    } else if e.len() >= 1 && e[0] == 0x23 {  // #
        let digits = e.subrange(1, e.len() as int);
        if digits.len() > 0 && all_dec_digits(digits) && is_scalar(dec_val(digits)) {
            Some(utf8_bytes(dec_val(digits)))
        } else {
            None
        }
    } else {
        None
    }
}

/// Unescaping from position `i` on. At a `&`, the reference runs to the
/// first `;`; a missing `;` or an undecodable reference is an error
/// carrying the offset of the `&`.
pub open spec fn spec_unescape_from(s: Seq<u8>, i: int) -> Result<Seq<u8>, int>
    decreases s.len() - i,
    via spec_unescape_from_decreases
{
    if i < 0 || i >= s.len() {
        Ok(Seq::empty())
    } else if s[i] != 0x26 {
        match spec_unescape_from(s, i + 1) {
            Ok(t) => Ok(seq![s[i]] + t),
            Err(e) => Err(e),
        }
    } else {
        let j = scan_to(s, i + 1, 0x3b);
        if j >= s.len() {
            Err(i)
        } else {
            match spec_decode_entity(s.subrange(i + 1, j)) {
                Some(bs) => match spec_unescape_from(s, j + 1) {
                    Ok(t) => Ok(bs + t),
                    Err(e) => Err(e),
                },
                None => Err(i),
            }
        }
    }
}

#[via_fn]
proof fn spec_unescape_from_decreases(s: Seq<u8>, i: int) {
    if 0 <= i < s.len() && s[i] == 0x26 {
        lemma_scan_to_props(s, i + 1, 0x3b);
    }
}

/// What `unescape` returns: the decoded bytes, or the offset of the
/// first malformed `&` sequence.
pub open spec fn spec_unescape(s: Seq<u8>) -> Result<Seq<u8>, int> {
    spec_unescape_from(s, 0)
}

/// Entity-encodes the five XML-special bytes; all other bytes pass
/// through unchanged.
pub fn escape(raw: &[u8]) -> (r: Vec<u8>)
    ensures
        r@ == spec_escape(raw@),
{
    let mut out: Vec<u8> = Vec::new();
    let mut i: usize = 0;
    let n = raw.len();
    while i < n
        invariant
            n == raw@.len(),
            i <= n,
            out@ == spec_escape(raw@.subrange(0, i as int)),
        decreases n - i,
    {
        let b = raw[i];
        if b == 0x3c {
            out.push(0x26);
            out.push(0x6c);
            out.push(0x74);
            out.push(0x3b);
        } else if b == 0x3e {
            out.push(0x26);
            out.push(0x67);
            out.push(0x74);
            out.push(0x3b);
        } else if b == 0x26 {
            out.push(0x26);
            out.push(0x61);
            out.push(0x6d);
            out.push(0x70);
            out.push(0x3b);
        } else if b == 0x27 {
            out.push(0x26);
            out.push(0x61);
            out.push(0x70);
            out.push(0x6f);
            out.push(0x73);
            out.push(0x3b);
        } else if b == 0x22 {
            out.push(0x26);
            out.push(0x71);
            out.push(0x75);
            out.push(0x6f);
            out.push(0x74);
            out.push(0x3b);
        } else {
            out.push(b);
        }
        proof {
            let pre = raw@.subrange(0, i as int);
            lemma_escape_concat(pre, seq![raw@[i as int]]);
            assert(pre + seq![raw@[i as int]] =~= raw@.subrange(0, i + 1));
            assert(seq![raw@[i as int]].drop_first() =~= Seq::<u8>::empty());
            assert(spec_escape(Seq::<u8>::empty()) == Seq::<u8>::empty());
            assert(spec_escape(seq![raw@[i as int]])
                =~= spec_escape_byte(raw@[i as int]));
            assert(out@ =~= spec_escape(pre) + spec_escape_byte(raw@[i as int]));
        }
        i = i + 1;
    }
    proof {
        assert(raw@.subrange(0, n as int) =~= raw@);
    }
    out
}

proof fn lemma_unescape_entity_step(u: Seq<u8>, i: int, name: Seq<u8>)
    requires
        0 <= i,
        i + 2 + name.len() <= u.len(),
        u[i] == 0x26,
        forall|k: int| 0 <= k < name.len() ==> u[i + 1 + k] == name[k] && name[k] != 0x3b,
        u[i + 1 + name.len()] == 0x3b,
    ensures
        scan_to(u, i + 1, 0x3b) == i + 1 + name.len(),
        u.subrange(i + 1, i + 1 + name.len()) == name,
{
    assert forall|m: int| i + 1 <= m < i + 1 + name.len() implies u[m] != 0x3b by {
        assert(u[i + 1 + (m - i - 1)] == name[m - i - 1]);
    }
    lemma_scan_to_exact(u, i + 1, i + 1 + name.len(), 0x3b);
    assert(u.subrange(i + 1, i + 1 + name.len()) =~= name);
}

proof fn lemma_unescape_escape_from(s: Seq<u8>, u: Seq<u8>, i: int)
    requires
        0 <= i <= u.len(),
        u.subrange(i, u.len() as int) == spec_escape(s),
    ensures
        spec_unescape_from(u, i) == Ok::<Seq<u8>, int>(s),
    decreases s.len(),
{
    if s.len() == 0 {
        assert(i == u.len());
        assert(s =~= Seq::<u8>::empty());
    } else {
        let b = s[0];
        let e = spec_escape_byte(b);
        let rest = spec_escape(s.drop_first());
        let l = e.len() as int;
        assert(spec_escape(s) == e + rest);
        assert(u.len() - i == l + rest.len());
        assert forall|k: int| 0 <= k < u.len() - i implies u[i + k] == spec_escape(s)[k] by {
            assert(u.subrange(i, u.len() as int)[k] == u[i + k]);
        }
        assert forall|k: int| 0 <= k < rest.len() implies #[trigger] u.subrange(
            i + l,
            u.len() as int,
        )[k] == rest[k] by {
            assert(u[i + l + k] == spec_escape(s)[l + k]);
            assert(spec_escape(s)[l + k] == rest[k]);
        }
        assert(u.subrange(i + l, u.len() as int) =~= rest);
        lemma_unescape_escape_from(s.drop_first(), u, i + l);
        assert(seq![b] + s.drop_first() =~= s);
        if !is_escapable(b) {
            assert(u[i + 0] == spec_escape(s)[0]);
            assert(u[i] == b);
            assert(spec_unescape_from(u, i) == Ok::<Seq<u8>, int>(seq![u[i]] + s.drop_first()));
        } else {
            assert(u[i + 0] == spec_escape(s)[0]);
            assert(spec_escape(s)[0] == e[0]);
            assert(u[i] == 0x26);
            let name = e.subrange(1, l - 1);
            assert forall|k: int| 0 <= k < name.len() implies u[i + 1 + k] == name[k] && name[k]
                != 0x3b by {
                assert(u[i + (k + 1)] == spec_escape(s)[k + 1]);
                assert(spec_escape(s)[k + 1] == e[k + 1]);
            }
            assert(u[i + (1 + name.len())] == spec_escape(s)[1 + name.len() as int]);
            assert(spec_escape(s)[l - 1] == e[l - 1]);
            assert(u[i + 1 + name.len()] == 0x3b);
            lemma_unescape_entity_step(u, i, name);
            let j = scan_to(u, i + 1, 0x3b);
            assert(j == i + l - 1);
            assert(j < u.len());
            if b == 0x3c {
                assert(name =~= seq![0x6cu8, 0x74u8]);
                assert(spec_decode_entity(name) == Some(seq![0x3cu8]));
            } else if b == 0x3e {
                assert(name =~= seq![0x67u8, 0x74u8]);
                assert(spec_decode_entity(name) == Some(seq![0x3eu8]));
            } else if b == 0x26 {
                assert(name =~= seq![0x61u8, 0x6du8, 0x70u8]);
                assert(spec_decode_entity(name) == Some(seq![0x26u8]));
            } else if b == 0x27 {
                assert(name =~= seq![0x61u8, 0x70u8, 0x6fu8, 0x73u8]);
                assert(spec_decode_entity(name) == Some(seq![0x27u8]));
            } else {
                assert(name =~= seq![0x71u8, 0x75u8, 0x6fu8, 0x74u8]);
                assert(spec_decode_entity(name) == Some(seq![0x22u8]));
            }
            assert(spec_decode_entity(u.subrange(i + 1, j)) == Some(seq![b]));
            assert(spec_unescape_from(u, i) == Ok::<Seq<u8>, int>(seq![b] + s.drop_first()));
        }
    }
}

/// Law: unescaping an escaped byte sequence gives the sequence back,
/// whatever bytes it holds — `escape` encodes every `&`, so its output
/// never forms an accidental entity reference.
pub proof fn lemma_unescape_escape(s: Seq<u8>)
    ensures
        spec_unescape(spec_escape(s)) == Ok::<Seq<u8>, int>(s),
{
    let u = spec_escape(s);
    assert(u.subrange(0, u.len() as int) =~= u);
    lemma_unescape_escape_from(s, u, 0);
}

proof fn lemma_dec_val_mono(s: Seq<u8>, i: int)
    requires
        0 <= i <= s.len(),
    ensures
        dec_val(s.subrange(0, i)) <= dec_val(s),
    decreases s.len() - i,
{
    if i == s.len() {
        assert(s.subrange(0, i) =~= s);
    } else {
        assert(s.subrange(0, i + 1).drop_last() =~= s.subrange(0, i));
        lemma_dec_val_mono(s, i + 1);
    }
}

proof fn lemma_hex_val_mono(s: Seq<u8>, i: int)
    requires
        0 <= i <= s.len(),
    ensures
        hex_val(s.subrange(0, i)) <= hex_val(s),
    decreases s.len() - i,
{
    if i == s.len() {
        assert(s.subrange(0, i) =~= s);
    } else {
        assert(s.subrange(0, i + 1).drop_last() =~= s.subrange(0, i));
        lemma_hex_val_mono(s, i + 1);
    }
}

/// Parses a decimal digit string; `None` when it is empty, holds a
/// non-digit, or its value exceeds the largest unicode scalar value.
fn parse_dec(digits: &[u8]) -> (r: Option<u32>)
    ensures
        match r {
            Some(v) => digits@.len() > 0 && all_dec_digits(digits@) && dec_val(digits@) == v
                && v <= 0x10ffff,
            None => digits@.len() == 0 || !all_dec_digits(digits@) || dec_val(digits@)
                > 0x10ffff,
        },
{
    let n = digits.len();
    if n == 0 {
        return None;
    }
    let mut acc: u32 = 0;
    let mut i: usize = 0;
    while i < n
        invariant
            n == digits@.len(),
            i <= n,
            forall|k: int| 0 <= k < i ==> is_dec_digit(digits@[k]),
            acc == dec_val(digits@.subrange(0, i as int)),
            acc <= 0x10ffff,
        decreases n - i,
    {
        let b = digits[i];
        if !(0x30 <= b && b <= 0x39) {
            return None;
        }
        let step: u32 = acc * 10 + (b - 0x30) as u32;
        proof {
            assert(digits@.subrange(0, i + 1).drop_last() =~= digits@.subrange(0, i as int));
            assert(dec_val(digits@.subrange(0, i + 1)) == step);
        }
        if step > 0x10ffff {
            proof {
                lemma_dec_val_mono(digits@, i + 1);
            }
            return None;
        }
        acc = step;
        i = i + 1;
    }
    proof {
        assert(digits@.subrange(0, n as int) =~= digits@);
    }
    Some(acc)
}

/// Parses a hexadecimal digit string under the same contract shape as
/// `parse_dec`.
fn parse_hex(digits: &[u8]) -> (r: Option<u32>)
    ensures
        match r {
            Some(v) => digits@.len() > 0 && all_hex_digits(digits@) && hex_val(digits@) == v
                && v <= 0x10ffff,
            None => digits@.len() == 0 || !all_hex_digits(digits@) || hex_val(digits@)
                > 0x10ffff,
        },
{
    let n = digits.len();
    if n == 0 {
        return None;
    }
    let mut acc: u32 = 0;
    let mut i: usize = 0;
    while i < n
        invariant
            n == digits@.len(),
            i <= n,
            forall|k: int| 0 <= k < i ==> is_hex_digit(digits@[k]),
            acc == hex_val(digits@.subrange(0, i as int)),
            acc <= 0x10ffff,
        decreases n - i,
    {
        let b = digits[i];
        let d: u32 = if 0x30 <= b && b <= 0x39 {
            (b - 0x30) as u32
        } else if 0x41 <= b && b <= 0x46 {
            (b - 0x37) as u32
        } else if 0x61 <= b && b <= 0x66 {
            (b - 0x57) as u32
        } else {
            return None;
        };
        let step: u32 = acc * 16 + d;
        proof {
            assert(digits@.subrange(0, i + 1).drop_last() =~= digits@.subrange(0, i as int));
            assert(hex_val(digits@.subrange(0, i + 1)) == step);
        }
        if step > 0x10ffff {
            proof {
                lemma_hex_val_mono(digits@, i + 1);
            }
            return None;
        }
        acc = step;
        i = i + 1;
    }
    proof {
        assert(digits@.subrange(0, n as int) =~= digits@);
    }
    Some(acc)
}

/// UTF-8 encodes one unicode scalar value.
fn utf8_encode(v: u32) -> (r: Vec<u8>)
    requires
        v <= 0x10ffff,
    ensures
        r@ == utf8_bytes(v as nat),
{
    let mut out: Vec<u8> = Vec::new();
    if v < 0x80 {
        out.push(v as u8);
        proof {
            assert(out@ =~= utf8_bytes(v as nat));
        }
    } else if v < 0x800 {
        out.push((0xc0 + v / 0x40) as u8);
        out.push((0x80 + v % 0x40) as u8);
        proof {
            assert(out@ =~= utf8_bytes(v as nat));
        }
    } else if v < 0x10000 {
        out.push((0xe0 + v / 0x1000) as u8);
        out.push((0x80 + (v / 0x40) % 0x40) as u8);
        out.push((0x80 + v % 0x40) as u8);
        proof {
            assert(out@ =~= utf8_bytes(v as nat));
        }
    } else {
        out.push((0xf0 + v / 0x40000) as u8);
        out.push((0x80 + (v / 0x1000) % 0x40) as u8);
        out.push((0x80 + (v / 0x40) % 0x40) as u8);
        out.push((0x80 + v % 0x40) as u8);
        proof {
            assert(out@ =~= utf8_bytes(v as nat));
        }
    }
    out
}

/// Decodes the bytes found between `&` and `;`.
fn decode_entity(e: &[u8]) -> (r: Option<Vec<u8>>)
    ensures
        match r {
            Some(v) => spec_decode_entity(e@) == Some(v@),
            None => spec_decode_entity(e@) is None,
        },
{
    let n = e.len();
    if n == 2 && e[0] == 0x6c && e[1] == 0x74 {
        proof {
            assert(e@ =~= seq![0x6cu8, 0x74u8]);
        }
        let mut out: Vec<u8> = Vec::new();
        out.push(0x3c);
        proof {
            assert(out@ =~= seq![0x3cu8]);
        }
        Some(out)
    } else if n == 2 && e[0] == 0x67 && e[1] == 0x74 {
        proof {
            assert(e@ =~= seq![0x67u8, 0x74u8]);
        }
        let mut out: Vec<u8> = Vec::new();
        out.push(0x3e);
        proof {
            assert(out@ =~= seq![0x3eu8]);
        }
        Some(out)
    } else if n == 3 && e[0] == 0x61 && e[1] == 0x6d && e[2] == 0x70 {
        proof {
            assert(e@ =~= seq![0x61u8, 0x6du8, 0x70u8]);
        }
        let mut out: Vec<u8> = Vec::new();
        out.push(0x26);
        proof {
            assert(out@ =~= seq![0x26u8]);
        }
        Some(out)
    } else if n == 4 && e[0] == 0x61 && e[1] == 0x70 && e[2] == 0x6f && e[3] == 0x73 {
        proof {
            assert(e@ =~= seq![0x61u8, 0x70u8, 0x6fu8, 0x73u8]);
        }
        let mut out: Vec<u8> = Vec::new();
        out.push(0x27);
        proof {
            assert(out@ =~= seq![0x27u8]);
        }
        Some(out)
    } else if n == 4 && e[0] == 0x71 && e[1] == 0x75 && e[2] == 0x6f && e[3] == 0x74 {
        proof {
            assert(e@ =~= seq![0x71u8, 0x75u8, 0x6fu8, 0x74u8]);
        }
        let mut out: Vec<u8> = Vec::new();
        out.push(0x22);
        proof {
            assert(out@ =~= seq![0x22u8]);
        }
        Some(out)
    } else if n >= 2 && e[0] == 0x23 && e[1] == 0x78 {
        let digits = slice_subrange(e, 2, n);
        match parse_hex(digits) {
            Some(v) => {
                if 0xd800 <= v && v <= 0xdfff {
                    None
                } else {
                    Some(utf8_encode(v))
                }
            },
            None => None,
        }
    } else if n >= 1 && e[0] == 0x23 {
        let digits = slice_subrange(e, 1, n);
        match parse_dec(digits) {
            Some(v) => {
                if 0xd800 <= v && v <= 0xdfff {
                    None
                } else {
                    Some(utf8_encode(v))
                }
            },
            None => None,
        }
    } else {
        None
    }
}

/// Decodes entity references, the inverse of `escape`. On a malformed
/// or unrecognized `&` sequence the error carries the byte offset of
/// that `&` within `raw`.
pub fn unescape(raw: &[u8]) -> (r: Result<Vec<u8>, EscapeError>)
    ensures
        match r {
            Ok(v) => spec_unescape(raw@) == Ok::<Seq<u8>, int>(v@),
            Err(e) => spec_unescape(raw@) == Err::<Seq<u8>, int>(e.0 as int),
        },
{
    let mut out: Vec<u8> = Vec::new();
    let mut i: usize = 0;
    let n = raw.len();
    while i < n
        invariant
            n == raw@.len(),
            i <= n,
            match spec_unescape_from(raw@, i as int) {
                Ok(t) => spec_unescape(raw@) == Ok::<Seq<u8>, int>(out@ + t),
                Err(e) => spec_unescape(raw@) == Err::<Seq<u8>, int>(e),
            },
        decreases n - i,
    {
        let b = raw[i];
        if b != 0x26 {
            let ghost prev = out@;
            out.push(b);
            proof {
                if spec_unescape_from(raw@, i + 1) is Ok {
                    let t = spec_unescape_from(raw@, i + 1)->Ok_0;
                    assert(spec_unescape_from(raw@, i as int)
                        == Ok::<Seq<u8>, int>(seq![raw@[i as int]] + t));
                    assert(out@ + t =~= prev + (seq![raw@[i as int]] + t));
                } else {
                    assert(spec_unescape_from(raw@, i as int)
                        == spec_unescape_from(raw@, i + 1));
                }
            }
            i = i + 1;
        } else {
            let mut j = i + 1;
            while j < n && raw[j] != 0x3b
                invariant
                    n == raw@.len(),
                    i + 1 <= j <= n,
                    forall|m: int| i + 1 <= m < j ==> raw@[m] != 0x3b,
                decreases n - j,
            {
                j = j + 1;
            }
            proof {
                lemma_scan_to_exact(raw@, i + 1, j as int, 0x3b);
            }
            if j >= n {
                return Err(EscapeError(i));
            }
            let ent = slice_subrange(raw, i + 1, j);
            match decode_entity(ent) {
                Some(mut bs) => {
                    let ghost prev = out@;
                    let ghost decoded = bs@;
                    out.append(&mut bs);
                    proof {
                        if spec_unescape_from(raw@, j + 1) is Ok {
                            let t = spec_unescape_from(raw@, j + 1)->Ok_0;
                            assert(out@ + t =~= prev + (decoded + t));
                        }
                    }
                    i = j + 1;
                },
                None => {
                    return Err(EscapeError(i));
                },
            }
        }
    }
    proof {
        assert(spec_unescape_from(raw@, i as int) == Ok::<Seq<u8>, int>(Seq::<u8>::empty()));
        assert(out@ + Seq::<u8>::empty() =~= out@);
    }
    Ok(out)
}

} // verus!

