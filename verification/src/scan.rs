//! Byte-scanning primitives shared by the entity codec and the attribute
//! scanner: "first index at or after `i` where ..." spec functions, with
//! the two lemmas each that loops and parsing proofs need.

use vstd::prelude::*;

verus! {

/// XML whitespace: space, tab, line feed, carriage return.
pub open spec fn is_ws(b: u8) -> bool {
    b == 0x20 || b == 0x09 || b == 0x0a || b == 0x0d
}

/// First index at or after `i` holding exactly byte `b`, or `s.len()`.
pub open spec fn scan_to(s: Seq<u8>, i: int, b: u8) -> int
    decreases s.len() - i,
{
    if i < 0 || i >= s.len() {
        s.len() as int
    } else if s[i] == b {
        i
    } else {
        scan_to(s, i + 1, b)
    }
}

pub proof fn lemma_scan_to_props(s: Seq<u8>, i: int, b: u8)
    requires
        0 <= i <= s.len(),
    ensures
        i <= scan_to(s, i, b) <= s.len(),
        forall|m: int| i <= m < scan_to(s, i, b) ==> s[m] != b,
        scan_to(s, i, b) < s.len() ==> s[scan_to(s, i, b)] == b,
    decreases s.len() - i,
{
    if i < s.len() && s[i] != b {
        lemma_scan_to_props(s, i + 1, b);
    }
}

pub proof fn lemma_scan_to_exact(s: Seq<u8>, i: int, j: int, b: u8)
    requires
        0 <= i <= j <= s.len(),
        forall|m: int| i <= m < j ==> s[m] != b,
        j == s.len() || s[j] == b,
    ensures
        scan_to(s, i, b) == j,
    decreases j - i,
{
    if i < j {
        lemma_scan_to_exact(s, i + 1, j, b);
    }
}

/// First index at or after `i` holding a non-whitespace byte, or `s.len()`.
pub open spec fn skip_ws(s: Seq<u8>, i: int) -> int
    decreases s.len() - i,
{
    if i < 0 || i >= s.len() {
        s.len() as int
    } else if is_ws(s[i]) {
        skip_ws(s, i + 1)
    } else {
        i
    }
}

pub proof fn lemma_skip_ws_props(s: Seq<u8>, i: int)
    requires
        0 <= i <= s.len(),
    ensures
        i <= skip_ws(s, i) <= s.len(),
        forall|m: int| i <= m < skip_ws(s, i) ==> is_ws(s[m]),
        skip_ws(s, i) < s.len() ==> !is_ws(s[skip_ws(s, i)]),
    decreases s.len() - i,
{
    if i < s.len() && is_ws(s[i]) {
        lemma_skip_ws_props(s, i + 1);
    }
}

pub proof fn lemma_skip_ws_exact(s: Seq<u8>, i: int, j: int)
    requires
        0 <= i <= j <= s.len(),
        forall|m: int| i <= m < j ==> is_ws(s[m]),
        j == s.len() || !is_ws(s[j]),
    ensures
        skip_ws(s, i) == j,
    decreases j - i,
{
    if i < j {
        lemma_skip_ws_exact(s, i + 1, j);
    }
}

/// First index at or after `i` holding a whitespace byte, or `s.len()`.
pub open spec fn ws_start(s: Seq<u8>, i: int) -> int
    decreases s.len() - i,
{
    if i < 0 || i >= s.len() {
        s.len() as int
    } else if is_ws(s[i]) {
        i
    } else {
        ws_start(s, i + 1)
    }
}

pub proof fn lemma_ws_start_props(s: Seq<u8>, i: int)
    requires
        0 <= i <= s.len(),
    ensures
        i <= ws_start(s, i) <= s.len(),
        forall|m: int| i <= m < ws_start(s, i) ==> !is_ws(s[m]),
        ws_start(s, i) < s.len() ==> is_ws(s[ws_start(s, i)]),
    decreases s.len() - i,
{
    if i < s.len() && !is_ws(s[i]) {
        lemma_ws_start_props(s, i + 1);
    }
}

pub proof fn lemma_ws_start_exact(s: Seq<u8>, i: int, j: int)
    requires
        0 <= i <= j <= s.len(),
        forall|m: int| i <= m < j ==> !is_ws(s[m]),
        j == s.len() || is_ws(s[j]),
    ensures
        ws_start(s, i) == j,
    decreases j - i,
{
    if i < j {
        lemma_ws_start_exact(s, i + 1, j);
    }
}

/// End of an attribute key that starts at `i`: the first index at or
/// after `i` holding whitespace or `=`, or `s.len()`.
pub open spec fn key_end(s: Seq<u8>, i: int) -> int
    decreases s.len() - i,
{
    if i < 0 || i >= s.len() {
        s.len() as int
    } else if is_ws(s[i]) || s[i] == 0x3d {
        i
    } else {
        key_end(s, i + 1)
    }
}

pub proof fn lemma_key_end_props(s: Seq<u8>, i: int)
    requires
        0 <= i <= s.len(),
    ensures
        i <= key_end(s, i) <= s.len(),
        forall|m: int| i <= m < key_end(s, i) ==> !is_ws(s[m]) && s[m] != 0x3d,
        key_end(s, i) < s.len() ==> (is_ws(s[key_end(s, i)]) || s[key_end(s, i)] == 0x3d),
    decreases s.len() - i,
{
    if i < s.len() && !(is_ws(s[i]) || s[i] == 0x3d) {
        lemma_key_end_props(s, i + 1);
    }
}

pub proof fn lemma_key_end_exact(s: Seq<u8>, i: int, j: int)
    requires
        0 <= i <= j <= s.len(),
        forall|m: int| i <= m < j ==> !is_ws(s[m]) && s[m] != 0x3d,
        j == s.len() || is_ws(s[j]) || s[j] == 0x3d,
    ensures
        key_end(s, i) == j,
    decreases j - i,
{
    if i < j {
        lemma_key_end_exact(s, i + 1, j);
    }
}

} // verus!
