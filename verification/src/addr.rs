//! A borrowed address, usable as a storage key without copying it.
use vstd::prelude::*;
use vstd::string::StringSliceAdditionalSpecFns;

verus! {

/// An address held by reference. Its key bytes are the UTF-8 bytes of the address.
#[derive(Debug, Clone, Copy)]
pub struct AddrRef<'a>(&'a str);

impl<'a> AddrRef<'a> {
    /// The address text.
    pub closed spec fn text(&self) -> Seq<char> {
        self.0@
    }

    /// Wraps a validated address.
    pub fn new(addr: &'a String) -> (r: Self)
        ensures
            r.text() == addr@,
    {
        AddrRef(addr.as_str())
    }

    /// Wraps any text, without validating it as an address.
    pub fn unchecked(addr: &'a str) -> (r: Self)
        ensures
            r.text() == addr@,
    {
        AddrRef(addr)
    }

    pub fn as_str(&self) -> (r: &str)
        ensures
            r@ == self.text(),
    {
        self.0
    }

    pub fn as_bytes(&self) -> (r: &[u8])
        ensures
            r@ == vstd::utf8::encode_utf8(self.text()),
    {
        let b = self.0.as_bytes();
        assert(b@ == self.0.spec_bytes());
        b
    }

    /// An owned copy of the address.
    pub fn to_owned(&self) -> (r: String)
        ensures
            r@ == self.text(),
    {
        self.0.to_owned()
    }
}

} // verus!
