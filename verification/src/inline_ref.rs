//! A byte-string reference that owns short strings inline: strings of up to
//! 30 bytes are copied into the value, longer ones are borrowed.

use vstd::prelude::*;

verus! {

/// An owned copy of a byte string of at most 30 bytes.
pub struct InlineRefOwned {
    bytes: Vec<u8>,
}

#[verifier::type_invariant]
spec fn inline_ref_owned_inv(r: InlineRefOwned) -> bool {
    r.bytes@.len() <= 30
}

impl View for InlineRefOwned {
    type V = Seq<u8>;

    closed spec fn view(&self) -> Seq<u8> {
        self.bytes@
    }
}

impl InlineRefOwned {
    pub fn as_ref(&self) -> (r: &[u8])
        ensures
            r@ == self@,
    {
        self.bytes.as_slice()
    }
}

/// A byte string, owned inline when short and borrowed when long.
pub enum InlineRef<'a> {
    Borrowed(&'a [u8]),
    Owned(InlineRefOwned),
}

impl<'a> View for InlineRef<'a> {
    type V = Seq<u8>;

    closed spec fn view(&self) -> Seq<u8> {
        match self {
            InlineRef::Borrowed(b) => b@,
            InlineRef::Owned(o) => o@,
        }
    }
}

impl<'a> InlineRef<'a> {
    /// Copies a short byte string inline; borrows a long one.
    pub fn new(bytes: &'a [u8]) -> (r: Self)
        ensures
            r@ == bytes@,
            bytes@.len() <= 30 ==> r is Owned,
            bytes@.len() > 30 ==> r is Borrowed,
    {
        if bytes.len() <= 30 {
            InlineRef::Owned(InlineRefOwned { bytes: crate::adaptive_hashtable::copy_bytes(bytes) })
        } else {
            InlineRef::Borrowed(bytes)
        }
    }

    /// Copies a short byte string inline; a long one cannot be owned.
    pub fn new_owned(bytes: &[u8]) -> (r: Option<Self>)
        ensures
            bytes@.len() <= 30 ==> r is Some && r.unwrap()@ == bytes@ && r.unwrap() is Owned,
            bytes@.len() > 30 ==> r is None,
    {
        if bytes.len() <= 30 {
            Some(
                InlineRef::Owned(
                    InlineRefOwned { bytes: crate::adaptive_hashtable::copy_bytes(bytes) },
                ),
            )
        } else {
            None
        }
    }

    pub fn as_ref(&self) -> (r: &[u8])
        ensures
            r@ == self@,
    {
        match self {
            InlineRef::Borrowed(b) => b,
            InlineRef::Owned(o) => o.as_ref(),
        }
    }
}

} // verus!
