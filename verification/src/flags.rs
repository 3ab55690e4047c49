//! Sets of flags, kept as bits.

use vstd::prelude::*;

verus! {

/// A small set of flags, one bit each.
#[derive(Clone, Copy, Debug, PartialEq, Eq, Structural)]
pub struct Flags {
    bits: u32,
}

impl View for Flags {
    type V = u32;

    closed spec fn view(&self) -> u32 {
        self.bits
    }
}

impl Flags {
    /// No flag at all.
    pub fn empty() -> (flags: Flags)
        ensures
            flags@ == 0,
    {
        Flags { bits: 0 }
    }

    /// The flags with the given bits.
    pub fn from_bits(bits: u32) -> (flags: Flags)
        ensures
            flags@ == bits,
    {
        Flags { bits }
    }

    /// The bits of the flags.
    pub fn bits(self) -> (bits: u32)
        ensures
            bits == self@,
    {
        self.bits
    }

    /// Whether every bit of `mask` is set.
    pub fn contains(self, mask: u32) -> (all: bool)
        ensures
            all == (self@ & mask == mask),
    {
        self.bits & mask == mask
    }

    /// Whether some bit of `mask` is set.
    pub fn intersects(self, mask: u32) -> (some: bool)
        ensures
            some == (self@ & mask != 0),
    {
        self.bits & mask != 0
    }

    /// Sets every bit of `mask`.
    pub fn insert(&mut self, mask: u32)
        ensures
            final(self)@ == old(self)@ | mask,
    {
        self.bits = self.bits | mask;
    }

    /// Clears every bit of `mask`.
    pub fn remove(&mut self, mask: u32)
        ensures
            final(self)@ == old(self)@ & !mask,
    {
        self.bits = self.bits & !mask;
    }
}

} // verus!
