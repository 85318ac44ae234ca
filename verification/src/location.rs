//! Addressable units of state and the integer keys that index them.

use vstd::prelude::*;

verus! {

/// A 160-bit account address, held as its high 32 and low 128 bits.
#[derive(Clone, Copy, Debug, PartialEq, Eq, Structural, PartialOrd, Ord, Hash)]
pub struct Address {
    pub high: u32,
    pub low: u128,
}

/// A 256-bit storage slot index, held as its high and low 128 bits.
#[derive(Clone, Copy, Debug, PartialEq, Eq, Structural, PartialOrd, Ord, Hash)]
pub struct U256 {
    pub high: u128,
    pub low: u128,
}

/// A unit of state that a transaction reads or writes.
#[derive(Clone, Copy, Debug, PartialEq, Eq, Structural, PartialOrd, Ord, Hash)]
pub enum LocationAndType {
    /// Balance, nonce and code hash of an account.
    Basic(Address),
    /// One storage slot of an account.
    Storage(Address, U256),
    /// The bytecode of an account.
    Code(Address),
}

/// A location flattened to integers: variant tag, address halves, slot halves.
pub type LocationKey = (u8, u32, u128, u128, u128);

impl LocationAndType {
    /// The integer key of a location. Distinct locations have distinct keys.
    pub open spec fn spec_key(self) -> LocationKey {
        match self {
            LocationAndType::Basic(a) => (0u8, a.high, a.low, 0u128, 0u128),
            LocationAndType::Storage(a, s) => (1u8, a.high, a.low, s.high, s.low),
            LocationAndType::Code(a) => (2u8, a.high, a.low, 0u128, 0u128),
        }
    }

    /// Flattens the location to the integer key under which maps hold it.
    pub fn key(&self) -> (k: LocationKey)
        ensures
            k == self.spec_key(),
    {
        match self {
            LocationAndType::Basic(a) => (0u8, a.high, a.low, 0u128, 0u128),
            LocationAndType::Storage(a, s) => (1u8, a.high, a.low, s.high, s.low),
            LocationAndType::Code(a) => (2u8, a.high, a.low, 0u128, 0u128),
        }
    }

    /// Two locations share a key only if they are the same location.
    pub proof fn lemma_key_injective(a: LocationAndType, b: LocationAndType)
        ensures
            a.spec_key() == b.spec_key() <==> a == b,
    {
    }
}

} // verus!
