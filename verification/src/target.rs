use vstd::prelude::*;

verus! {

/// The capabilities of a target machine, as a set of bits.
#[derive(Clone, Copy, Debug, Default, PartialEq, Eq, Structural, Hash)]
pub struct TargetCapabilityFlags {
    pub bits: u32,
}

/// The bit of each capability.
pub const ADAPTIVE_BIT: u32 = 1;

pub const INTEGER_COMPUTATIONS_BIT: u32 = 2;

pub const FLOATING_POINT_COMPUTATIONS_BIT: u32 = 4;

pub const BACKWARDS_BRANCHING_BIT: u32 = 8;

pub const HIGHER_LEVEL_CONSTRUCTS_BIT: u32 = 16;

pub const STATIC_SIZED_ARRAYS_BIT: u32 = 32;

pub const CALL_SUPPORT_BIT: u32 = 64;

pub const DYNAMIC_QUBIT_ALLOCATION_BIT: u32 = 128;

/// Every capability bit at once.
pub const ALL_CAPABILITY_BITS: u32 = 255;

/// A named target profile.
#[derive(Clone, Copy, Debug, PartialEq, Eq, Structural)]
pub enum Profile {
    Unrestricted,
    Base,
    AdaptiveRI,
    AdaptiveRIF,
}

/// The capability bits of a profile.
pub open spec fn profile_bits(p: Profile) -> u32 {
    match p {
        Profile::Unrestricted => ALL_CAPABILITY_BITS,
        Profile::Base => 0,
        Profile::AdaptiveRI => (ADAPTIVE_BIT | INTEGER_COMPUTATIONS_BIT),
        Profile::AdaptiveRIF => (ADAPTIVE_BIT | INTEGER_COMPUTATIONS_BIT | FLOATING_POINT_COMPUTATIONS_BIT),
    }
}

impl TargetCapabilityFlags {
    pub fn empty() -> (r: Self)
        ensures
            r.bits == 0,
    {
        TargetCapabilityFlags { bits: 0 }
    }

    pub fn all() -> (r: Self)
        ensures
            r.bits == ALL_CAPABILITY_BITS,
    {
        TargetCapabilityFlags { bits: ALL_CAPABILITY_BITS }
    }

    pub fn from_bits(bits: u32) -> (r: Self)
        ensures
            r.bits == bits,
    {
        TargetCapabilityFlags { bits }
    }

    pub fn adaptive() -> (r: Self)
        ensures
            r.bits == ADAPTIVE_BIT,
    {
        TargetCapabilityFlags { bits: ADAPTIVE_BIT }
    }

    pub fn integer_computations() -> (r: Self)
        ensures
            r.bits == INTEGER_COMPUTATIONS_BIT,
    {
        TargetCapabilityFlags { bits: INTEGER_COMPUTATIONS_BIT }
    }

    pub fn floating_point_computations() -> (r: Self)
        ensures
            r.bits == FLOATING_POINT_COMPUTATIONS_BIT,
    {
        TargetCapabilityFlags { bits: FLOATING_POINT_COMPUTATIONS_BIT }
    }

    pub fn backwards_branching() -> (r: Self)
        ensures
            r.bits == BACKWARDS_BRANCHING_BIT,
    {
        TargetCapabilityFlags { bits: BACKWARDS_BRANCHING_BIT }
    }

    pub fn higher_level_constructs() -> (r: Self)
        ensures
            r.bits == HIGHER_LEVEL_CONSTRUCTS_BIT,
    {
        TargetCapabilityFlags { bits: HIGHER_LEVEL_CONSTRUCTS_BIT }
    }

    pub fn static_sized_arrays() -> (r: Self)
        ensures
            r.bits == STATIC_SIZED_ARRAYS_BIT,
    {
        TargetCapabilityFlags { bits: STATIC_SIZED_ARRAYS_BIT }
    }

    pub fn call_support() -> (r: Self)
        ensures
            r.bits == CALL_SUPPORT_BIT,
    {
        TargetCapabilityFlags { bits: CALL_SUPPORT_BIT }
    }

    pub fn dynamic_qubit_allocation() -> (r: Self)
        ensures
            r.bits == DYNAMIC_QUBIT_ALLOCATION_BIT,
    {
        TargetCapabilityFlags { bits: DYNAMIC_QUBIT_ALLOCATION_BIT }
    }

    /// The capabilities of a named profile.
    pub fn from_profile(p: Profile) -> (r: Self)
        ensures
            r.bits == profile_bits(p),
    {
        match p {
            Profile::Unrestricted => TargetCapabilityFlags { bits: ALL_CAPABILITY_BITS },
            Profile::Base => TargetCapabilityFlags { bits: 0 },
            Profile::AdaptiveRI => TargetCapabilityFlags { bits: ADAPTIVE_BIT | INTEGER_COMPUTATIONS_BIT },
            Profile::AdaptiveRIF => TargetCapabilityFlags {
                bits: ADAPTIVE_BIT | INTEGER_COMPUTATIONS_BIT | FLOATING_POINT_COMPUTATIONS_BIT,
            },
        }
    }

    pub fn is_empty(&self) -> (r: bool)
        ensures
            r == (self.bits == 0),
    {
        self.bits == 0
    }

    /// Whether every capability of `other` is in `self`.
    pub fn contains(&self, other: Self) -> (r: bool)
        ensures
            r == (self.bits & other.bits == other.bits),
    {
        self.bits & other.bits == other.bits
    }

    /// Whether `self` and `other` share a capability.
    pub fn intersects(&self, other: Self) -> (r: bool)
        ensures
            r == (self.bits & other.bits != 0),
    {
        self.bits & other.bits != 0
    }

    /// The capabilities of either.
    pub fn union(self, other: Self) -> (r: Self)
        ensures
            r.bits == self.bits | other.bits,
    {
        TargetCapabilityFlags { bits: self.bits | other.bits }
    }
}

} // verus!
