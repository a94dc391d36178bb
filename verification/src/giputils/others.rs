//! Optional small integers that take no more room than the integer: the
//! largest value of the type stands for "nothing".

use vstd::prelude::*;

verus! {

/// An optional `u8` in one byte. `u8::MAX` stands for "nothing", so it
/// cannot itself be held.
#[derive(Clone, Copy, Debug, PartialEq, Eq, Structural)]
pub struct OptionU8(pub u8);

impl View for OptionU8 {
    type V = Option<u8>;

    open spec fn view(&self) -> Option<u8> {
        if self.0 == u8::MAX {
            None
        } else {
            Some(self.0)
        }
    }
}

impl OptionU8 {
    /// Holds `v`; holds nothing if `v` is `u8::MAX`.
    #[inline]
    pub fn some(v: u8) -> (r: Self)
        ensures
            r.0 == v,
            v != u8::MAX ==> r@ == Some(v),
            v == u8::MAX ==> r@ is None,
    {
        Self(v)
    }

    /// The value that holds nothing.
    #[inline]
    pub fn none() -> (r: Self)
        ensures
            r@ is None,
            r.0 == u8::MAX,
    {
        Self(u8::MAX)
    }

    /// Whether a value is held.
    #[inline]
    pub fn is_some(&self) -> (b: bool)
        ensures
            b == self@ is Some,
    {
        self.0 != u8::MAX
    }

    /// Whether nothing is held.
    #[inline]
    pub fn is_none(&self) -> (b: bool)
        ensures
            b == self@ is None,
    {
        self.0 == u8::MAX
    }

    /// The byte as stored: the value held, or `u8::MAX` for nothing.
    #[inline]
    pub fn get(&self) -> (v: u8)
        ensures
            v == self.0,
            self@ matches Some(x) ==> v == x,
    {
        self.0
    }
}

impl Default for OptionU8 {
    /// Holds nothing.
    #[inline]
    fn default() -> (r: Self)
        ensures
            r@ is None,
    {
        Self(u8::MAX)
    }
}

/// An optional `u32` in four bytes. `u32::MAX` stands for "nothing", so it
/// cannot itself be held.
#[derive(Clone, Copy, Debug, PartialEq, Eq, Structural)]
pub struct OptionU32(pub u32);

impl View for OptionU32 {
    type V = Option<u32>;

    open spec fn view(&self) -> Option<u32> {
        if self.0 == u32::MAX {
            None
        } else {
            Some(self.0)
        }
    }
}

impl OptionU32 {
    /// Holds `v`; holds nothing if `v` is `u32::MAX`.
    #[inline]
    pub fn some(v: u32) -> (r: Self)
        ensures
            r.0 == v,
            v != u32::MAX ==> r@ == Some(v),
            v == u32::MAX ==> r@ is None,
    {
        Self(v)
    }

    /// The value that holds nothing.
    #[inline]
    pub fn none() -> (r: Self)
        ensures
            r@ is None,
            r.0 == u32::MAX,
    {
        Self(u32::MAX)
    }

    /// Whether a value is held.
    #[inline]
    pub fn is_some(&self) -> (b: bool)
        ensures
            b == self@ is Some,
    {
        self.0 != u32::MAX
    }

    /// Whether nothing is held.
    #[inline]
    pub fn is_none(&self) -> (b: bool)
        ensures
            b == self@ is None,
    {
        self.0 == u32::MAX
    }

    /// The integer as stored: the value held, or `u32::MAX` for nothing.
    #[inline]
    pub fn get(&self) -> (v: u32)
        ensures
            v == self.0,
            self@ matches Some(x) ==> v == x,
    {
        self.0
    }
}

impl Default for OptionU32 {
    /// Holds nothing.
    #[inline]
    fn default() -> (r: Self)
        ensures
            r@ is None,
    {
        Self(u32::MAX)
    }
}

} // verus!
