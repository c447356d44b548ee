//! Buffer-ownership primitive: a byte buffer that either borrows from a
//! caller-owned slice (zero allocation) or owns an independent allocation.
//!
//! A value's variant is decided at construction and governs every later
//! read; promotion from `Borrowed` to `Owned` is one-directional and
//! allocates exactly once. Mutation never touches a borrowed slice in
//! place: it first copies the bytes into an owned buffer (copy-on-write).

use vstd::prelude::*;
use vstd::slice::slice_to_vec;

verus! {

/// Either a view into a caller-owned byte slice or an owned byte buffer.
#[derive(Clone, Debug)]
pub enum XmlBytes<'a> {
    /// Borrows a slice whose owner is the caller; valid only while that
    /// buffer lives, but costs no allocation.
    Borrowed(&'a [u8]),
    /// Owns an independently allocated, mutable byte sequence.
    Owned(Vec<u8>),
}

impl<'a> View for XmlBytes<'a> {
    type V = Seq<u8>;

    open spec fn view(&self) -> Seq<u8> {
        match self {
            XmlBytes::Borrowed(s) => s@,
            XmlBytes::Owned(v) => v@,
        }
    }
}

impl<'a> XmlBytes<'a> {
    /// True when the buffer owns its bytes.
    pub open spec fn is_owned(&self) -> bool {
        self is Owned
    }

    /// The bytes of the buffer, wherever they live.
    pub fn as_bytes(&self) -> (r: &[u8])
        ensures
            r@ == self@,
    {
        match self {
            XmlBytes::Borrowed(s) => s,
            XmlBytes::Owned(v) => v.as_slice(),
        }
    }

    /// Length of the buffer in bytes.
    pub fn len(&self) -> (r: usize)
        ensures
            r == self@.len(),
    {
        match self {
            XmlBytes::Borrowed(s) => s.len(),
            XmlBytes::Owned(v) => v.len(),
        }
    }

    /// Promotes the buffer to the `Owned` variant, copying the borrowed
    /// bytes exactly once; an already-owned buffer moves without a copy.
    pub fn into_owned(self) -> (r: XmlBytes<'static>)
        ensures
            r@ == self@,
            r.is_owned(),
    {
        match self {
            XmlBytes::Borrowed(s) => XmlBytes::Owned(slice_to_vec(s)),
            XmlBytes::Owned(v) => XmlBytes::Owned(v),
        }
    }

    /// Copy-on-write step: after this call the buffer owns its bytes,
    /// which are unchanged. A borrowed buffer is copied; an owned one is
    /// left alone.
    pub fn make_owned(&mut self)
        ensures
            final(self)@ == old(self)@,
            final(self).is_owned(),
    {
        match self {
            XmlBytes::Borrowed(s) => {
                let v = slice_to_vec(s);
                *self = XmlBytes::Owned(v);
            },
            XmlBytes::Owned(_) => {},
        }
    }

    /// Appends one byte, copying a borrowed buffer first (copy-on-write).
    pub fn push_byte(&mut self, b: u8)
        ensures
            final(self)@ == old(self)@.push(b),
            final(self).is_owned(),
    {
        self.make_owned();
        match self {
            XmlBytes::Owned(v) => {
                v.push(b);
            },
            XmlBytes::Borrowed(_) => {
                proof {
                    assert(false);
                }
            },
        }
    }

    /// Appends a whole slice, copying a borrowed buffer first
    /// (copy-on-write).
    pub fn extend_bytes(&mut self, s: &[u8])
        ensures
            final(self)@ == old(self)@ + s@,
            final(self).is_owned(),
    {
        self.make_owned();
        match self {
            XmlBytes::Owned(v) => {
                let mut i: usize = 0;
                while i < s.len()
                    invariant
                        i <= s@.len(),
                        v@ == old(self)@ + s@.subrange(0, i as int),
                    decreases s@.len() - i,
                {
                    v.push(s[i]);
                    i = i + 1;
                    proof {
                        assert(s@.subrange(0, i as int)
                            == s@.subrange(0, i - 1).push(s@[i - 1]));
                    }
                }
                proof {
                    assert(s@.subrange(0, s@.len() as int) == s@);
                }
            },
            XmlBytes::Borrowed(_) => {
                proof {
                    assert(false);
                }
            },
        }
    }
}

} // verus!
