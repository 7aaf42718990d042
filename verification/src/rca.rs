//! Runtime capabilities analysis: the compute kind of program elements, the runtime features
//! they use, and the target capabilities that those features need.
use crate::target::{
    TargetCapabilityFlags, ADAPTIVE_BIT, BACKWARDS_BRANCHING_BIT, FLOATING_POINT_COMPUTATIONS_BIT,
    HIGHER_LEVEL_CONSTRUCTS_BIT, INTEGER_COMPUTATIONS_BIT, STATIC_SIZED_ARRAYS_BIT,
};
use vstd::prelude::*;

verus! {

/// Runtime features: anything a program can do that is more complex than executing quantum
/// operations on statically allocated qubits with constant arguments. Each feature is one bit.
#[derive(Clone, Copy, Debug, PartialEq, Eq, Structural, Hash)]
pub struct RuntimeFeatureFlags {
    pub bits: u64,
}

/// Use of a dynamic `Bool`.
pub const USE_OF_DYNAMIC_BOOL: u64 = 0x1;

/// Use of a dynamic `Int`.
pub const USE_OF_DYNAMIC_INT: u64 = 0x2;

/// Use of a dynamic `Pauli`.
pub const USE_OF_DYNAMIC_PAULI: u64 = 0x4;

/// Use of a dynamic `Range`.
pub const USE_OF_DYNAMIC_RANGE: u64 = 0x8;

/// Use of a dynamic `Double`.
pub const USE_OF_DYNAMIC_DOUBLE: u64 = 0x10;

/// Use of a dynamic `Qubit`.
pub const USE_OF_DYNAMIC_QUBIT: u64 = 0x20;

/// Use of a dynamic `BigInt`.
pub const USE_OF_DYNAMIC_BIG_INT: u64 = 0x40;

/// Use of a dynamic `String`.
pub const USE_OF_DYNAMIC_STRING: u64 = 0x80;

/// Use of a dynamic array with static size.
pub const USE_OF_DYNAMIC_ARRAY: u64 = 0x100;

/// Use of a dynamic array with dynamic size.
pub const USE_OF_DYNAMICALLY_SIZED_ARRAY: u64 = 0x200;

/// Use of a dynamic UDT.
pub const USE_OF_DYNAMIC_UDT: u64 = 0x400;

/// Use of a dynamic arrow function.
pub const USE_OF_DYNAMIC_ARROW_FUNCTION: u64 = 0x800;

/// Use of a dynamic arrow operation.
pub const USE_OF_DYNAMIC_ARROW_OPERATION: u64 = 0x1000;

/// A function with cycles used with a dynamic argument.
pub const CALL_TO_CYCLIC_FUNCTION_WITH_DYNAMIC_ARG: u64 = 0x2000;

/// An operation specialization with cycles exists.
pub const CYCLIC_OPERATION_SPEC: u64 = 0x4000;

/// A call to an operation with cycles.
pub const CALL_TO_CYCLIC_OPERATION: u64 = 0x8000;

/// A callee expression is dynamic.
pub const CALL_TO_DYNAMIC_CALLEE: u64 = 0x1_0000;

/// A callee expression could not be resolved to a specific callable.
pub const CALL_TO_UNRESOLVED_CALLEE: u64 = 0x2_0000;

/// Performing a measurement within a dynamic scope.
pub const MEASUREMENT_WITHIN_DYNAMIC_SCOPE: u64 = 0x4_0000;

/// Use of a dynamic index to access or update an array.
pub const USE_OF_DYNAMIC_INDEX: u64 = 0x8_0000;

/// A return expression within a dynamic scope.
pub const RETURN_WITHIN_DYNAMIC_SCOPE: u64 = 0x10_0000;

/// A loop with a dynamic condition.
pub const LOOP_WITH_DYNAMIC_CONDITION: u64 = 0x20_0000;

/// Use of an advanced type as output of a computation.
pub const USE_OF_ADVANCED_OUTPUT: u64 = 0x40_0000;

/// Use of a `Bool` as output of a computation.
pub const USE_OF_BOOL_OUTPUT: u64 = 0x80_0000;

/// Use of a `Double` as output of a computation.
pub const USE_OF_DOUBLE_OUTPUT: u64 = 0x100_0000;

/// Use of an `Int` as output of a computation.
pub const USE_OF_INT_OUTPUT: u64 = 0x200_0000;

/// Use of a dynamic exponent in a computation.
pub const USE_OF_DYNAMIC_EXPONENT: u64 = 0x400_0000;

/// Use of a dynamic `Result` variable in a computation.
pub const USE_OF_DYNAMIC_RESULT: u64 = 0x800_0000;

/// Use of a dynamic tuple variable.
pub const USE_OF_DYNAMIC_TUPLE: u64 = 0x1000_0000;

/// A callee expression to a measurement.
pub const CALL_TO_CUSTOM_MEASUREMENT: u64 = 0x2000_0000;

/// A callee expression to a reset.
pub const CALL_TO_CUSTOM_RESET: u64 = 0x4000_0000;

/// Use of a dynamic generic parameter.
pub const USE_OF_DYNAMIC_GENERIC: u64 = 0x8000_0000;

/// A callable allocates qubits (directly or transitively).
pub const QUBIT_ALLOCATION: u64 = 0x1_0000_0000;

/// Every named feature at once.
pub const ALL_FEATURES: u64 = 0x1_ffff_ffff;

/// The features that need the adaptive capability.
pub const ADAPTIVE_FEATURES: u64 = 0x6084_0001;

/// The features that need integer computations.
pub const INTEGER_FEATURES: u64 = 0x200_0002;

/// The features that need floating point computations.
pub const FLOAT_FEATURES: u64 = 0x100_0010;

/// The features that need backwards branching.
pub const BACKWARDS_BRANCHING_FEATURES: u64 = 0x20_0000;

/// The features that need higher level constructs.
pub const HIGHER_LEVEL_FEATURES: u64 = 0x9c51_ffcc;

/// The features that need statically sized arrays.
pub const STATIC_SIZED_ARRAY_FEATURES: u64 = 0x8_0020;

/// The target capabilities that the features `bits` need: a capability is needed when one of
/// the features that need it is present.
pub open spec fn capabilities_of(bits: u64) -> u32 {
    (if bits & ADAPTIVE_FEATURES != 0 {
        ADAPTIVE_BIT
    } else {
        0
    }) | (if bits & INTEGER_FEATURES != 0 {
        INTEGER_COMPUTATIONS_BIT
    } else {
        0
    }) | (if bits & FLOAT_FEATURES != 0 {
        FLOATING_POINT_COMPUTATIONS_BIT
    } else {
        0
    }) | (if bits & BACKWARDS_BRANCHING_FEATURES != 0 {
        BACKWARDS_BRANCHING_BIT
    } else {
        0
    }) | (if bits & HIGHER_LEVEL_FEATURES != 0 {
        HIGHER_LEVEL_CONSTRUCTS_BIT
    } else {
        0
    }) | (if bits & STATIC_SIZED_ARRAY_FEATURES != 0 {
        STATIC_SIZED_ARRAYS_BIT
    } else {
        0
    })
}

/// The features that contribute to some capability of `caps`.
pub open spec fn contributing_mask(caps: u32) -> u64 {
    (if caps & ADAPTIVE_BIT != 0 {
        ADAPTIVE_FEATURES
    } else {
        0
    }) | (if caps & INTEGER_COMPUTATIONS_BIT != 0 {
        INTEGER_FEATURES
    } else {
        0
    }) | (if caps & FLOATING_POINT_COMPUTATIONS_BIT != 0 {
        FLOAT_FEATURES
    } else {
        0
    }) | (if caps & BACKWARDS_BRANCHING_BIT != 0 {
        BACKWARDS_BRANCHING_FEATURES
    } else {
        0
    }) | (if caps & HIGHER_LEVEL_CONSTRUCTS_BIT != 0 {
        HIGHER_LEVEL_FEATURES
    } else {
        0
    }) | (if caps & STATIC_SIZED_ARRAYS_BIT != 0 {
        STATIC_SIZED_ARRAY_FEATURES
    } else {
        0
    })
}

/// Feature `i` in the order in which `target_capabilities` asks for it.
spec fn feature_at(i: nat) -> u64 {
    if i == 0 {
        USE_OF_DYNAMIC_BOOL
    } else if i == 1 {
        USE_OF_DYNAMIC_INT
    } else if i == 2 {
        USE_OF_DYNAMIC_PAULI
    } else if i == 3 {
        USE_OF_DYNAMIC_RANGE
    } else if i == 4 {
        USE_OF_DYNAMIC_DOUBLE
    } else if i == 5 {
        USE_OF_DYNAMIC_QUBIT
    } else if i == 6 {
        USE_OF_DYNAMIC_BIG_INT
    } else if i == 7 {
        USE_OF_DYNAMIC_STRING
    } else if i == 8 {
        USE_OF_DYNAMIC_ARRAY
    } else if i == 9 {
        USE_OF_DYNAMICALLY_SIZED_ARRAY
    } else if i == 10 {
        USE_OF_DYNAMIC_UDT
    } else if i == 11 {
        USE_OF_DYNAMIC_ARROW_FUNCTION
    } else if i == 12 {
        USE_OF_DYNAMIC_ARROW_OPERATION
    } else if i == 13 {
        CALL_TO_CYCLIC_FUNCTION_WITH_DYNAMIC_ARG
    } else if i == 14 {
        CYCLIC_OPERATION_SPEC
    } else if i == 15 {
        CALL_TO_CYCLIC_OPERATION
    } else if i == 16 {
        CALL_TO_DYNAMIC_CALLEE
    } else if i == 17 {
        MEASUREMENT_WITHIN_DYNAMIC_SCOPE
    } else if i == 18 {
        USE_OF_DYNAMIC_INDEX
    } else if i == 19 {
        RETURN_WITHIN_DYNAMIC_SCOPE
    } else if i == 20 {
        LOOP_WITH_DYNAMIC_CONDITION
    } else if i == 21 {
        USE_OF_BOOL_OUTPUT
    } else if i == 22 {
        USE_OF_DOUBLE_OUTPUT
    } else if i == 23 {
        USE_OF_INT_OUTPUT
    } else if i == 24 {
        USE_OF_ADVANCED_OUTPUT
    } else if i == 25 {
        USE_OF_DYNAMIC_EXPONENT
    } else if i == 26 {
        USE_OF_DYNAMIC_RESULT
    } else if i == 27 {
        USE_OF_DYNAMIC_TUPLE
    } else if i == 28 {
        CALL_TO_CUSTOM_MEASUREMENT
    } else if i == 29 {
        CALL_TO_CUSTOM_RESET
    } else if i == 30 {
        USE_OF_DYNAMIC_GENERIC
    } else {
        0
    }
}

/// The capability that feature `i` needs.
spec fn capability_at(i: nat) -> u32 {
    if i == 0 {
        ADAPTIVE_BIT
    } else if i == 1 {
        INTEGER_COMPUTATIONS_BIT
    } else if i == 2 {
        HIGHER_LEVEL_CONSTRUCTS_BIT
    } else if i == 3 {
        HIGHER_LEVEL_CONSTRUCTS_BIT
    } else if i == 4 {
        FLOATING_POINT_COMPUTATIONS_BIT
    } else if i == 5 {
        STATIC_SIZED_ARRAYS_BIT
    } else if i == 6 {
        HIGHER_LEVEL_CONSTRUCTS_BIT
    } else if i == 7 {
        HIGHER_LEVEL_CONSTRUCTS_BIT
    } else if i == 8 {
        HIGHER_LEVEL_CONSTRUCTS_BIT
    } else if i == 9 {
        HIGHER_LEVEL_CONSTRUCTS_BIT
    } else if i == 10 {
        HIGHER_LEVEL_CONSTRUCTS_BIT
    } else if i == 11 {
        HIGHER_LEVEL_CONSTRUCTS_BIT
    } else if i == 12 {
        HIGHER_LEVEL_CONSTRUCTS_BIT
    } else if i == 13 {
        HIGHER_LEVEL_CONSTRUCTS_BIT
    } else if i == 14 {
        HIGHER_LEVEL_CONSTRUCTS_BIT
    } else if i == 15 {
        HIGHER_LEVEL_CONSTRUCTS_BIT
    } else if i == 16 {
        HIGHER_LEVEL_CONSTRUCTS_BIT
    } else if i == 17 {
        ADAPTIVE_BIT
    } else if i == 18 {
        STATIC_SIZED_ARRAYS_BIT
    } else if i == 19 {
        HIGHER_LEVEL_CONSTRUCTS_BIT
    } else if i == 20 {
        BACKWARDS_BRANCHING_BIT
    } else if i == 21 {
        ADAPTIVE_BIT
    } else if i == 22 {
        FLOATING_POINT_COMPUTATIONS_BIT
    } else if i == 23 {
        INTEGER_COMPUTATIONS_BIT
    } else if i == 24 {
        HIGHER_LEVEL_CONSTRUCTS_BIT
    } else if i == 25 {
        HIGHER_LEVEL_CONSTRUCTS_BIT
    } else if i == 26 {
        HIGHER_LEVEL_CONSTRUCTS_BIT
    } else if i == 27 {
        HIGHER_LEVEL_CONSTRUCTS_BIT
    } else if i == 28 {
        ADAPTIVE_BIT
    } else if i == 29 {
        ADAPTIVE_BIT
    } else if i == 30 {
        HIGHER_LEVEL_CONSTRUCTS_BIT
    } else {
        0
    }
}

/// The capabilities that the first `k` features ask for, when present in `bits`.
spec fn capabilities_gathered(bits: u64, k: nat) -> u32
    decreases k,
{
    if k == 0 {
        0
    } else {
        capabilities_gathered(bits, (k - 1) as nat) | (if bits & feature_at((k - 1) as nat) == feature_at((k - 1) as nat) {
            capability_at((k - 1) as nat)
        } else {
            0
        })
    }
}

/// The same capabilities, written out.
spec fn capabilities_written_out(bits: u64) -> u32 {
    let c0: u32 = 0;
    let c1: u32 = c0 | (if bits & USE_OF_DYNAMIC_BOOL == USE_OF_DYNAMIC_BOOL { ADAPTIVE_BIT } else { 0 });
    let c2: u32 = c1 | (if bits & USE_OF_DYNAMIC_INT == USE_OF_DYNAMIC_INT { INTEGER_COMPUTATIONS_BIT } else { 0 });
    let c3: u32 = c2 | (if bits & USE_OF_DYNAMIC_PAULI == USE_OF_DYNAMIC_PAULI { HIGHER_LEVEL_CONSTRUCTS_BIT } else { 0 });
    let c4: u32 = c3 | (if bits & USE_OF_DYNAMIC_RANGE == USE_OF_DYNAMIC_RANGE { HIGHER_LEVEL_CONSTRUCTS_BIT } else { 0 });
    let c5: u32 = c4 | (if bits & USE_OF_DYNAMIC_DOUBLE == USE_OF_DYNAMIC_DOUBLE { FLOATING_POINT_COMPUTATIONS_BIT } else { 0 });
    let c6: u32 = c5 | (if bits & USE_OF_DYNAMIC_QUBIT == USE_OF_DYNAMIC_QUBIT { STATIC_SIZED_ARRAYS_BIT } else { 0 });
    let c7: u32 = c6 | (if bits & USE_OF_DYNAMIC_BIG_INT == USE_OF_DYNAMIC_BIG_INT { HIGHER_LEVEL_CONSTRUCTS_BIT } else { 0 });
    let c8: u32 = c7 | (if bits & USE_OF_DYNAMIC_STRING == USE_OF_DYNAMIC_STRING { HIGHER_LEVEL_CONSTRUCTS_BIT } else { 0 });
    let c9: u32 = c8 | (if bits & USE_OF_DYNAMIC_ARRAY == USE_OF_DYNAMIC_ARRAY { HIGHER_LEVEL_CONSTRUCTS_BIT } else { 0 });
    let c10: u32 = c9 | (if bits & USE_OF_DYNAMICALLY_SIZED_ARRAY == USE_OF_DYNAMICALLY_SIZED_ARRAY { HIGHER_LEVEL_CONSTRUCTS_BIT } else { 0 });
    let c11: u32 = c10 | (if bits & USE_OF_DYNAMIC_UDT == USE_OF_DYNAMIC_UDT { HIGHER_LEVEL_CONSTRUCTS_BIT } else { 0 });
    let c12: u32 = c11 | (if bits & USE_OF_DYNAMIC_ARROW_FUNCTION == USE_OF_DYNAMIC_ARROW_FUNCTION { HIGHER_LEVEL_CONSTRUCTS_BIT } else { 0 });
    let c13: u32 = c12 | (if bits & USE_OF_DYNAMIC_ARROW_OPERATION == USE_OF_DYNAMIC_ARROW_OPERATION { HIGHER_LEVEL_CONSTRUCTS_BIT } else { 0 });
    let c14: u32 = c13 | (if bits & CALL_TO_CYCLIC_FUNCTION_WITH_DYNAMIC_ARG == CALL_TO_CYCLIC_FUNCTION_WITH_DYNAMIC_ARG { HIGHER_LEVEL_CONSTRUCTS_BIT } else { 0 });
    let c15: u32 = c14 | (if bits & CYCLIC_OPERATION_SPEC == CYCLIC_OPERATION_SPEC { HIGHER_LEVEL_CONSTRUCTS_BIT } else { 0 });
    let c16: u32 = c15 | (if bits & CALL_TO_CYCLIC_OPERATION == CALL_TO_CYCLIC_OPERATION { HIGHER_LEVEL_CONSTRUCTS_BIT } else { 0 });
    let c17: u32 = c16 | (if bits & CALL_TO_DYNAMIC_CALLEE == CALL_TO_DYNAMIC_CALLEE { HIGHER_LEVEL_CONSTRUCTS_BIT } else { 0 });
    let c18: u32 = c17 | (if bits & MEASUREMENT_WITHIN_DYNAMIC_SCOPE == MEASUREMENT_WITHIN_DYNAMIC_SCOPE { ADAPTIVE_BIT } else { 0 });
    let c19: u32 = c18 | (if bits & USE_OF_DYNAMIC_INDEX == USE_OF_DYNAMIC_INDEX { STATIC_SIZED_ARRAYS_BIT } else { 0 });
    let c20: u32 = c19 | (if bits & RETURN_WITHIN_DYNAMIC_SCOPE == RETURN_WITHIN_DYNAMIC_SCOPE { HIGHER_LEVEL_CONSTRUCTS_BIT } else { 0 });
    let c21: u32 = c20 | (if bits & LOOP_WITH_DYNAMIC_CONDITION == LOOP_WITH_DYNAMIC_CONDITION { BACKWARDS_BRANCHING_BIT } else { 0 });
    let c22: u32 = c21 | (if bits & USE_OF_BOOL_OUTPUT == USE_OF_BOOL_OUTPUT { ADAPTIVE_BIT } else { 0 });
    let c23: u32 = c22 | (if bits & USE_OF_DOUBLE_OUTPUT == USE_OF_DOUBLE_OUTPUT { FLOATING_POINT_COMPUTATIONS_BIT } else { 0 });
    let c24: u32 = c23 | (if bits & USE_OF_INT_OUTPUT == USE_OF_INT_OUTPUT { INTEGER_COMPUTATIONS_BIT } else { 0 });
    let c25: u32 = c24 | (if bits & USE_OF_ADVANCED_OUTPUT == USE_OF_ADVANCED_OUTPUT { HIGHER_LEVEL_CONSTRUCTS_BIT } else { 0 });
    let c26: u32 = c25 | (if bits & USE_OF_DYNAMIC_EXPONENT == USE_OF_DYNAMIC_EXPONENT { HIGHER_LEVEL_CONSTRUCTS_BIT } else { 0 });
    let c27: u32 = c26 | (if bits & USE_OF_DYNAMIC_RESULT == USE_OF_DYNAMIC_RESULT { HIGHER_LEVEL_CONSTRUCTS_BIT } else { 0 });
    let c28: u32 = c27 | (if bits & USE_OF_DYNAMIC_TUPLE == USE_OF_DYNAMIC_TUPLE { HIGHER_LEVEL_CONSTRUCTS_BIT } else { 0 });
    let c29: u32 = c28 | (if bits & CALL_TO_CUSTOM_MEASUREMENT == CALL_TO_CUSTOM_MEASUREMENT { ADAPTIVE_BIT } else { 0 });
    let c30: u32 = c29 | (if bits & CALL_TO_CUSTOM_RESET == CALL_TO_CUSTOM_RESET { ADAPTIVE_BIT } else { 0 });
    let c31: u32 = c30 | (if bits & USE_OF_DYNAMIC_GENERIC == USE_OF_DYNAMIC_GENERIC { HIGHER_LEVEL_CONSTRUCTS_BIT } else { 0 });
    c31
}


proof fn lemma_capabilities_gathered(bits: u64)
    ensures
        capabilities_gathered(bits, 31) == capabilities_of(bits),
{
    reveal_with_fuel(capabilities_gathered, 32);
    assert(capabilities_gathered(bits, 31) == capabilities_written_out(bits));
    assert(capabilities_written_out(bits) == capabilities_of(bits)) by (bit_vector);
}

/// `caps` with the capabilities `more` added when `present` holds.
fn add_if_present(caps: TargetCapabilityFlags, present: bool, more: TargetCapabilityFlags) -> (r: TargetCapabilityFlags)
    ensures
        r.bits == caps.bits | (if present {
            more.bits
        } else {
            0
        }),
{
    if present {
        caps.union(more)
    } else {
        let b = caps.bits;
        assert(b | 0 == b) by (bit_vector);
        caps
    }
}

impl RuntimeFeatureFlags {
    /// No feature.
    pub fn empty() -> (r: Self)
        ensures
            r.bits == 0,
    {
        RuntimeFeatureFlags { bits: 0 }
    }

    /// The features with the given bits.
    pub fn from_bits(bits: u64) -> (r: Self)
        ensures
            r.bits == bits,
    {
        RuntimeFeatureFlags { bits }
    }

    /// Whether no feature is present.
    pub fn is_empty(&self) -> (r: bool)
        ensures
            r == (self.bits == 0),
    {
        self.bits == 0
    }

    /// Whether every feature of `other` is in `self`.
    pub fn contains(&self, other: Self) -> (r: bool)
        ensures
            r == (self.bits & other.bits == other.bits),
    {
        self.bits & other.bits == other.bits
    }

    /// Whether `self` and `other` share a feature.
    pub fn intersects(&self, other: Self) -> (r: bool)
        ensures
            r == (self.bits & other.bits != 0),
    {
        self.bits & other.bits != 0
    }

    /// The features of either.
    pub fn union(self, other: Self) -> (r: Self)
        ensures
            r.bits == self.bits | other.bits,
    {
        RuntimeFeatureFlags { bits: self.bits | other.bits }
    }

    /// The target capabilities that these features need.
    pub fn target_capabilities(&self) -> (r: TargetCapabilityFlags)
        ensures
            r.bits == capabilities_of(self.bits),
    {
        let mut capabilities = TargetCapabilityFlags::empty();
        assert(capabilities.bits == capabilities_gathered(self.bits, 0));
        capabilities = add_if_present(
            capabilities,
            self.contains(RuntimeFeatureFlags { bits: USE_OF_DYNAMIC_BOOL }),
            TargetCapabilityFlags::adaptive(),
        );
        assert(capabilities.bits == capabilities_gathered(self.bits, 1));
        capabilities = add_if_present(
            capabilities,
            self.contains(RuntimeFeatureFlags { bits: USE_OF_DYNAMIC_INT }),
            TargetCapabilityFlags::integer_computations(),
        );
        assert(capabilities.bits == capabilities_gathered(self.bits, 2));
        capabilities = add_if_present(
            capabilities,
            self.contains(RuntimeFeatureFlags { bits: USE_OF_DYNAMIC_PAULI }),
            TargetCapabilityFlags::higher_level_constructs(),
        );
        assert(capabilities.bits == capabilities_gathered(self.bits, 3));
        capabilities = add_if_present(
            capabilities,
            self.contains(RuntimeFeatureFlags { bits: USE_OF_DYNAMIC_RANGE }),
            TargetCapabilityFlags::higher_level_constructs(),
        );
        assert(capabilities.bits == capabilities_gathered(self.bits, 4));
        capabilities = add_if_present(
            capabilities,
            self.contains(RuntimeFeatureFlags { bits: USE_OF_DYNAMIC_DOUBLE }),
            TargetCapabilityFlags::floating_point_computations(),
        );
        assert(capabilities.bits == capabilities_gathered(self.bits, 5));
        capabilities = add_if_present(
            capabilities,
            self.contains(RuntimeFeatureFlags { bits: USE_OF_DYNAMIC_QUBIT }),
            TargetCapabilityFlags::static_sized_arrays(),
        );
        assert(capabilities.bits == capabilities_gathered(self.bits, 6));
        capabilities = add_if_present(
            capabilities,
            self.contains(RuntimeFeatureFlags { bits: USE_OF_DYNAMIC_BIG_INT }),
            TargetCapabilityFlags::higher_level_constructs(),
        );
        assert(capabilities.bits == capabilities_gathered(self.bits, 7));
        capabilities = add_if_present(
            capabilities,
            self.contains(RuntimeFeatureFlags { bits: USE_OF_DYNAMIC_STRING }),
            TargetCapabilityFlags::higher_level_constructs(),
        );
        assert(capabilities.bits == capabilities_gathered(self.bits, 8));
        capabilities = add_if_present(
            capabilities,
            self.contains(RuntimeFeatureFlags { bits: USE_OF_DYNAMIC_ARRAY }),
            TargetCapabilityFlags::higher_level_constructs(),
        );
        assert(capabilities.bits == capabilities_gathered(self.bits, 9));
        capabilities = add_if_present(
            capabilities,
            self.contains(RuntimeFeatureFlags { bits: USE_OF_DYNAMICALLY_SIZED_ARRAY }),
            TargetCapabilityFlags::higher_level_constructs(),
        );
        assert(capabilities.bits == capabilities_gathered(self.bits, 10));
        capabilities = add_if_present(
            capabilities,
            self.contains(RuntimeFeatureFlags { bits: USE_OF_DYNAMIC_UDT }),
            TargetCapabilityFlags::higher_level_constructs(),
        );
        assert(capabilities.bits == capabilities_gathered(self.bits, 11));
        capabilities = add_if_present(
            capabilities,
            self.contains(RuntimeFeatureFlags { bits: USE_OF_DYNAMIC_ARROW_FUNCTION }),
            TargetCapabilityFlags::higher_level_constructs(),
        );
        assert(capabilities.bits == capabilities_gathered(self.bits, 12));
        capabilities = add_if_present(
            capabilities,
            self.contains(RuntimeFeatureFlags { bits: USE_OF_DYNAMIC_ARROW_OPERATION }),
            TargetCapabilityFlags::higher_level_constructs(),
        );
        assert(capabilities.bits == capabilities_gathered(self.bits, 13));
        capabilities = add_if_present(
            capabilities,
            self.contains(RuntimeFeatureFlags { bits: CALL_TO_CYCLIC_FUNCTION_WITH_DYNAMIC_ARG }),
            TargetCapabilityFlags::higher_level_constructs(),
        );
        assert(capabilities.bits == capabilities_gathered(self.bits, 14));
        capabilities = add_if_present(
            capabilities,
            self.contains(RuntimeFeatureFlags { bits: CYCLIC_OPERATION_SPEC }),
            TargetCapabilityFlags::higher_level_constructs(),
        );
        assert(capabilities.bits == capabilities_gathered(self.bits, 15));
        capabilities = add_if_present(
            capabilities,
            self.contains(RuntimeFeatureFlags { bits: CALL_TO_CYCLIC_OPERATION }),
            TargetCapabilityFlags::higher_level_constructs(),
        );
        assert(capabilities.bits == capabilities_gathered(self.bits, 16));
        capabilities = add_if_present(
            capabilities,
            self.contains(RuntimeFeatureFlags { bits: CALL_TO_DYNAMIC_CALLEE }),
            TargetCapabilityFlags::higher_level_constructs(),
        );
        assert(capabilities.bits == capabilities_gathered(self.bits, 17));
        capabilities = add_if_present(
            capabilities,
            self.contains(RuntimeFeatureFlags { bits: MEASUREMENT_WITHIN_DYNAMIC_SCOPE }),
            TargetCapabilityFlags::adaptive(),
        );
        assert(capabilities.bits == capabilities_gathered(self.bits, 18));
        capabilities = add_if_present(
            capabilities,
            self.contains(RuntimeFeatureFlags { bits: USE_OF_DYNAMIC_INDEX }),
            TargetCapabilityFlags::static_sized_arrays(),
        );
        assert(capabilities.bits == capabilities_gathered(self.bits, 19));
        capabilities = add_if_present(
            capabilities,
            self.contains(RuntimeFeatureFlags { bits: RETURN_WITHIN_DYNAMIC_SCOPE }),
            TargetCapabilityFlags::higher_level_constructs(),
        );
        assert(capabilities.bits == capabilities_gathered(self.bits, 20));
        capabilities = add_if_present(
            capabilities,
            self.contains(RuntimeFeatureFlags { bits: LOOP_WITH_DYNAMIC_CONDITION }),
            TargetCapabilityFlags::backwards_branching(),
        );
        assert(capabilities.bits == capabilities_gathered(self.bits, 21));
        capabilities = add_if_present(
            capabilities,
            self.contains(RuntimeFeatureFlags { bits: USE_OF_BOOL_OUTPUT }),
            TargetCapabilityFlags::adaptive(),
        );
        assert(capabilities.bits == capabilities_gathered(self.bits, 22));
        capabilities = add_if_present(
            capabilities,
            self.contains(RuntimeFeatureFlags { bits: USE_OF_DOUBLE_OUTPUT }),
            TargetCapabilityFlags::floating_point_computations(),
        );
        assert(capabilities.bits == capabilities_gathered(self.bits, 23));
        capabilities = add_if_present(
            capabilities,
            self.contains(RuntimeFeatureFlags { bits: USE_OF_INT_OUTPUT }),
            TargetCapabilityFlags::integer_computations(),
        );
        assert(capabilities.bits == capabilities_gathered(self.bits, 24));
        capabilities = add_if_present(
            capabilities,
            self.contains(RuntimeFeatureFlags { bits: USE_OF_ADVANCED_OUTPUT }),
            TargetCapabilityFlags::higher_level_constructs(),
        );
        assert(capabilities.bits == capabilities_gathered(self.bits, 25));
        capabilities = add_if_present(
            capabilities,
            self.contains(RuntimeFeatureFlags { bits: USE_OF_DYNAMIC_EXPONENT }),
            TargetCapabilityFlags::higher_level_constructs(),
        );
        assert(capabilities.bits == capabilities_gathered(self.bits, 26));
        capabilities = add_if_present(
            capabilities,
            self.contains(RuntimeFeatureFlags { bits: USE_OF_DYNAMIC_RESULT }),
            TargetCapabilityFlags::higher_level_constructs(),
        );
        assert(capabilities.bits == capabilities_gathered(self.bits, 27));
        capabilities = add_if_present(
            capabilities,
            self.contains(RuntimeFeatureFlags { bits: USE_OF_DYNAMIC_TUPLE }),
            TargetCapabilityFlags::higher_level_constructs(),
        );
        assert(capabilities.bits == capabilities_gathered(self.bits, 28));
        capabilities = add_if_present(
            capabilities,
            self.contains(RuntimeFeatureFlags { bits: CALL_TO_CUSTOM_MEASUREMENT }),
            TargetCapabilityFlags::adaptive(),
        );
        assert(capabilities.bits == capabilities_gathered(self.bits, 29));
        capabilities = add_if_present(
            capabilities,
            self.contains(RuntimeFeatureFlags { bits: CALL_TO_CUSTOM_RESET }),
            TargetCapabilityFlags::adaptive(),
        );
        assert(capabilities.bits == capabilities_gathered(self.bits, 30));
        capabilities = add_if_present(
            capabilities,
            self.contains(RuntimeFeatureFlags { bits: USE_OF_DYNAMIC_GENERIC }),
            TargetCapabilityFlags::higher_level_constructs(),
        );
        assert(capabilities.bits == capabilities_gathered(self.bits, 31));
        proof {
            lemma_capabilities_gathered(self.bits);
        }
        capabilities
    }

    /// The features of `self` that need some capability of `capabilities`.
    pub fn contributing_features(&self, capabilities: TargetCapabilityFlags) -> (r: Self)
        ensures
            r.bits == self.bits & contributing_mask(capabilities.bits),
    {
        let mut contributing = Self::empty();
        let ghost m = contributing_mask(capabilities.bits);
        let ghost bits = self.bits;
        let mut i: u64 = 0;
        proof {
            assert(bits & m & low_bits(0) == 0) by (bit_vector);
        }
        while i < 33
            invariant
                i <= 33,
                bits == self.bits,
                m == contributing_mask(capabilities.bits),
                contributing.bits == bits & m & low_bits(i),
            decreases 33 - i,
        {
            let feature = RuntimeFeatureFlags { bits: 1u64 << i };
            let present = self.contains(feature);
            if present && feature.target_capabilities().intersects(capabilities) {
                contributing = contributing.union(feature);
            }
            proof {
                lemma_contributing_step(bits, capabilities.bits, i);
            }
            i = i + 1;
        }
        proof {
            let caps = capabilities.bits;
            assert(bits & contributing_mask(caps) & low_bits(33) == bits & contributing_mask(caps)) by (bit_vector);
        }
        contributing
    }

    /// The features that record output.
    pub fn output_recording_flags() -> (r: Self)
        ensures
            r.bits == USE_OF_INT_OUTPUT | USE_OF_DOUBLE_OUTPUT | USE_OF_BOOL_OUTPUT
                | USE_OF_ADVANCED_OUTPUT,
    {
        RuntimeFeatureFlags {
            bits: USE_OF_INT_OUTPUT | USE_OF_DOUBLE_OUTPUT | USE_OF_BOOL_OUTPUT | USE_OF_ADVANCED_OUTPUT,
        }
    }
}

/// The bits below bit `i`.
pub open spec fn low_bits(i: u64) -> u64 {
    ((1u64 << i) - 1) as u64
}

/// One more feature, bit `i`, is taken when it is present and needs one of `caps`.
proof fn lemma_contributing_step(bits: u64, caps: u32, i: u64)
    requires
        i < 33,
    ensures
        (if bits & (1u64 << i) == (1u64 << i) && capabilities_of(1u64 << i) & caps != 0 {
            (bits & contributing_mask(caps) & low_bits(i)) | (1u64 << i)
        } else {
            bits & contributing_mask(caps) & low_bits(i)
        }) == bits & contributing_mask(caps) & low_bits((i + 1) as u64),
{
    assert((if bits & (1u64 << i) == (1u64 << i) && capabilities_of(1u64 << i) & caps != 0 {
        (bits & contributing_mask(caps) & low_bits(i)) | (1u64 << i)
    } else {
        bits & contributing_mask(caps) & low_bits(i)
    }) == bits & contributing_mask(caps) & low_bits((i + 1) as u64)) by (bit_vector)
        requires
            i < 33,
    ;
}

/// The kind of value of a program element: constant over the run, or varying.
#[derive(Clone, Copy, Debug, PartialEq, Eq, Structural)]
pub enum ValueKind {
    /// A value that is constant during execution.
    Constant,
    /// A value that can vary during execution.
    Variable,
}

/// The value kind of two elements taken together: variable when either is.
pub open spec fn value_kind_join(a: ValueKind, b: ValueKind) -> ValueKind {
    match b {
        ValueKind::Constant => a,
        ValueKind::Variable => ValueKind::Variable,
    }
}

impl ValueKind {
    /// This value kind taken together with `value`.
    pub fn aggregate(self, value: ValueKind) -> (r: Self)
        ensures
            r == value_kind_join(self, value),
    {
        match value {
            ValueKind::Constant => self,
            ValueKind::Variable => ValueKind::Variable,
        }
    }
}

/// Whether a program element is computed while code is generated (static) or emitted into
/// the generated code (dynamic), in which case it records the runtime features it uses and the
/// kind of value it produces.
#[derive(Clone, Copy, Debug, PartialEq, Eq, Structural)]
pub enum ComputeKind {
    Static,
    Dynamic { runtime_features: RuntimeFeatureFlags, value_kind: ValueKind },
}

/// The compute kind of `a` with `b` aggregated into it: static parts add nothing, features
/// are united and value kinds joined.
pub open spec fn aggregate_spec(a: ComputeKind, b: ComputeKind) -> ComputeKind {
    match b {
        ComputeKind::Static => a,
        ComputeKind::Dynamic { runtime_features: bf, value_kind: bv } => match a {
            ComputeKind::Static => b,
            ComputeKind::Dynamic { runtime_features: af, value_kind: av } => ComputeKind::Dynamic {
                runtime_features: RuntimeFeatureFlags { bits: af.bits | bf.bits },
                value_kind: value_kind_join(av, bv),
            },
        },
    }
}

/// The compute kind of `a` with the runtime features of `b` aggregated into it, keeping the
/// value kind of `a`, or `default_value_kind` when `a` is static.
pub open spec fn aggregate_features_spec(a: ComputeKind, b: ComputeKind, default_value_kind: ValueKind) -> ComputeKind {
    match b {
        ComputeKind::Static => a,
        ComputeKind::Dynamic { runtime_features: bf, .. } => match a {
            ComputeKind::Static => ComputeKind::Dynamic { runtime_features: bf, value_kind: default_value_kind },
            ComputeKind::Dynamic { runtime_features: af, value_kind: av } => ComputeKind::Dynamic {
                runtime_features: RuntimeFeatureFlags { bits: af.bits | bf.bits },
                value_kind: av,
            },
        },
    }
}

/// Whether a compute kind is dynamic with a variable value.
pub open spec fn is_variable_spec(c: ComputeKind) -> bool {
    c matches ComputeKind::Dynamic { value_kind: ValueKind::Variable, .. }
}

impl ComputeKind {
    /// This compute kind with `value` aggregated into it.
    pub fn aggregate(self, value: Self) -> (r: Self)
        ensures
            r == aggregate_spec(self, value),
    {
        match value {
            ComputeKind::Static => self,
            ComputeKind::Dynamic { runtime_features, value_kind } => match self {
                ComputeKind::Static => ComputeKind::Dynamic { runtime_features, value_kind },
                ComputeKind::Dynamic { runtime_features: self_runtime_features, value_kind: self_value_kind } => {
                    ComputeKind::Dynamic {
                        runtime_features: self_runtime_features.union(runtime_features),
                        value_kind: self_value_kind.aggregate(value_kind),
                    }
                },
            },
        }
    }

    /// This compute kind with the runtime features of `value` aggregated into it.
    pub fn aggregate_runtime_features(self, value: ComputeKind, default_value_kind: ValueKind) -> (r: Self)
        ensures
            r == aggregate_features_spec(self, value, default_value_kind),
    {
        match value {
            ComputeKind::Static => self,
            ComputeKind::Dynamic { runtime_features, .. } => match self {
                ComputeKind::Static => ComputeKind::Dynamic { runtime_features, value_kind: default_value_kind },
                ComputeKind::Dynamic { runtime_features: self_runtime_features, value_kind: self_value_kind } => {
                    ComputeKind::Dynamic {
                        runtime_features: self_runtime_features.union(runtime_features),
                        value_kind: self_value_kind,
                    }
                },
            },
        }
    }

    /// Joins `value` into the value kind of this dynamic compute kind.
    pub fn aggregate_value_kind(&mut self, value: ValueKind)
        requires
            *old(self) is Dynamic,
        ensures
            *final(self) == (ComputeKind::Dynamic {
                runtime_features: (*old(self))->runtime_features,
                value_kind: value_kind_join((*old(self))->value_kind, value),
            }),
    {
        if let ComputeKind::Dynamic { runtime_features, value_kind } = *self {
            *self = ComputeKind::Dynamic { runtime_features, value_kind: value_kind.aggregate(value) };
        }
    }

    /// Makes the value kind of this dynamic compute kind variable.
    pub fn set_variable_value_kind(&mut self)
        requires
            *old(self) is Dynamic,
        ensures
            *final(self) == (ComputeKind::Dynamic {
                runtime_features: (*old(self))->runtime_features,
                value_kind: ValueKind::Variable,
            }),
    {
        if let ComputeKind::Dynamic { runtime_features, .. } = *self {
            *self = ComputeKind::Dynamic { runtime_features, value_kind: ValueKind::Variable };
        }
    }

    /// Whether this compute kind is dynamic with a variable value.
    pub fn is_variable_value_kind(self) -> (r: bool)
        ensures
            r == is_variable_spec(self),
    {
        match self {
            ComputeKind::Dynamic { value_kind: ValueKind::Variable, .. } => true,
            _ => false,
        }
    }
}

/// How an array parameter bound to a dynamic value affects the compute kind of a call:
/// differently for arrays of static and of dynamic size.
#[derive(Clone, Copy, Debug)]
pub struct ArrayParamApplication {
    pub static_size: ComputeKind,
    pub dynamic_size: ComputeKind,
}

/// How a parameter bound to a dynamic value affects the compute kind of a call.
#[derive(Clone, Copy, Debug)]
pub enum ParamApplication {
    Element(ComputeKind),
    Array(ArrayParamApplication),
}

/// The compute properties of a callable or one of its elements, from which the compute kind
/// of any call can be derived.
#[derive(Clone, Debug)]
pub struct ApplicationGeneratorSet {
    /// The compute kind when every parameter it depends on is bound to a static value.
    pub inherent: ComputeKind,
    /// For each parameter, by position, the compute kind of a call when that parameter is
    /// bound to a dynamic value.
    pub dynamic_param_applications: Vec<ParamApplication>,
}

impl Default for ApplicationGeneratorSet {
    fn default() -> (r: Self)
        ensures
            r.inherent == ComputeKind::Static,
            r.dynamic_param_applications@.len() == 0,
    {
        ApplicationGeneratorSet { inherent: ComputeKind::Static, dynamic_param_applications: Vec::new() }
    }
}

/// The compute kind after one more argument: an element parameter adds its compute kind when
/// the argument is a variable; an array parameter adds the compute kind for its size when the
/// argument is a dynamic variable, the dynamic size one when the argument uses dynamically
/// sized arrays.
pub open spec fn application_step(c: ComputeKind, arg: ComputeKind, app: ParamApplication) -> ComputeKind {
    match app {
        ParamApplication::Element(pc) => if is_variable_spec(arg) {
            aggregate_spec(c, pc)
        } else {
            c
        },
        ParamApplication::Array(a) => match arg {
            ComputeKind::Dynamic { runtime_features: rf, value_kind: ValueKind::Variable } => {
                if rf.bits & USE_OF_DYNAMICALLY_SIZED_ARRAY == USE_OF_DYNAMICALLY_SIZED_ARRAY {
                    aggregate_spec(c, a.dynamic_size)
                } else {
                    aggregate_spec(c, a.static_size)
                }
            },
            _ => c,
        },
    }
}

/// The compute kind after the arguments `args`, paired with the applications `apps`, from `c`.
pub open spec fn application_fold(c: ComputeKind, args: Seq<ComputeKind>, apps: Seq<ParamApplication>) -> ComputeKind
    decreases args.len(),
{
    if args.len() == 0 || apps.len() == 0 {
        c
    } else {
        application_step(
            application_fold(c, args.drop_last(), apps.drop_last()),
            args.last(),
            apps.last(),
        )
    }
}

impl ApplicationGeneratorSet {
    /// The compute kind of a call whose arguments have the given compute kinds, one for each
    /// parameter.
    pub fn generate_application_compute_kind(&self, args_compute_kinds: &[ComputeKind]) -> (r: ComputeKind)
        requires
            self.dynamic_param_applications@.len() == args_compute_kinds@.len(),
        ensures
            r == application_fold(self.inherent, args_compute_kinds@, self.dynamic_param_applications@),
    {
        let mut compute_kind = self.inherent;
        let ghost args = args_compute_kinds@;
        let ghost apps = self.dynamic_param_applications@;
        for i in 0..args_compute_kinds.len()
            invariant
                args == args_compute_kinds@,
                apps == self.dynamic_param_applications@,
                apps.len() == args.len(),
                compute_kind == application_fold(self.inherent, args.take(i as int), apps.take(i as int)),
        {
            let arg_compute_kind = args_compute_kinds[i];
            let param_application = &self.dynamic_param_applications[i];
            proof {
                assert(args.take(i + 1).drop_last() =~= args.take(i as int));
                assert(apps.take(i + 1).drop_last() =~= apps.take(i as int));
            }
            match param_application {
                ParamApplication::Element(param_compute_kind) => {
                    if arg_compute_kind.is_variable_value_kind() {
                        compute_kind = compute_kind.aggregate(*param_compute_kind);
                    }
                },
                ParamApplication::Array(array_param_application) => {
                    if let ComputeKind::Dynamic { runtime_features, value_kind } = arg_compute_kind {
                        match value_kind {
                            ValueKind::Variable => {
                                if runtime_features.contains(RuntimeFeatureFlags { bits: USE_OF_DYNAMICALLY_SIZED_ARRAY }) {
                                    compute_kind = compute_kind.aggregate(array_param_application.dynamic_size);
                                } else {
                                    compute_kind = compute_kind.aggregate(array_param_application.static_size);
                                }
                            },
                            ValueKind::Constant => {},
                        }
                    }
                },
            }
        }
        proof {
            assert(args.take(args.len() as int) =~= args);
            assert(apps.take(apps.len() as int) =~= apps);
        }
        compute_kind
    }
}

/// The compute properties of a callable: one application generator set for each of its
/// specializations.
#[derive(Clone, Debug)]
pub struct CallableComputeProperties {
    pub body: ApplicationGeneratorSet,
    pub adj: Option<ApplicationGeneratorSet>,
    pub ctl: Option<ApplicationGeneratorSet>,
    pub ctl_adj: Option<ApplicationGeneratorSet>,
}

/// The compute properties of an item.
#[derive(Clone, Debug)]
pub enum ItemComputeProperties {
    Callable(CallableComputeProperties),
    NonCallable,
}

/// A static compute kind aggregates to nothing, on either side.
pub proof fn lemma_aggregate_static_identity(a: ComputeKind)
    ensures
        aggregate_spec(a, ComputeKind::Static) == a,
        aggregate_spec(ComputeKind::Static, a) == a,
{
}

/// Aggregation does not depend on the order of its two sides.
pub proof fn lemma_aggregate_commutative(a: ComputeKind, b: ComputeKind)
    ensures
        aggregate_spec(a, b) == aggregate_spec(b, a),
{
    if let (ComputeKind::Dynamic { runtime_features: af, .. }, ComputeKind::Dynamic { runtime_features: bf, .. }) = (a, b) {
        let (x, y) = (af.bits, bf.bits);
        assert(x | y == y | x) by (bit_vector);
    }
}

/// Aggregation does not depend on how three compute kinds are grouped.
pub proof fn lemma_aggregate_associative(a: ComputeKind, b: ComputeKind, c: ComputeKind)
    ensures
        aggregate_spec(aggregate_spec(a, b), c) == aggregate_spec(a, aggregate_spec(b, c)),
{
    if let (
        ComputeKind::Dynamic { runtime_features: af, .. },
        ComputeKind::Dynamic { runtime_features: bf, .. },
        ComputeKind::Dynamic { runtime_features: cf, .. },
    ) = (a, b, c) {
        let (x, y, z) = (af.bits, bf.bits, cf.bits);
        assert((x | y) | z == x | (y | z)) by (bit_vector);
    }
}

/// Aggregating a compute kind into itself changes nothing.
pub proof fn lemma_aggregate_idempotent(a: ComputeKind)
    ensures
        aggregate_spec(a, a) == a,
{
    if let ComputeKind::Dynamic { runtime_features: af, .. } = a {
        let x = af.bits;
        assert(x | x == x) by (bit_vector);
    }
}

/// The capabilities of two sets of features taken together are the capabilities of each, united.
pub proof fn lemma_capabilities_of_union(a: u64, b: u64)
    ensures
        capabilities_of(a | b) == capabilities_of(a) | capabilities_of(b),
{
    assert(capabilities_of(a | b) == capabilities_of(a) | capabilities_of(b)) by (bit_vector);
}

/// The features that contribute to some capability are among the features, and with every
/// capability asked for they are all the features that need any capability.
pub proof fn lemma_contributing_within(bits: u64, caps: u32)
    ensures
        (bits & contributing_mask(caps)) & bits == bits & contributing_mask(caps),
        caps & 0xff == 0xff ==> bits & contributing_mask(caps) == bits & (ADAPTIVE_FEATURES
            | INTEGER_FEATURES | FLOAT_FEATURES | BACKWARDS_BRANCHING_FEATURES | HIGHER_LEVEL_FEATURES
            | STATIC_SIZED_ARRAY_FEATURES),
{
    assert((bits & contributing_mask(caps)) & bits == bits & contributing_mask(caps)) by (bit_vector);
    assert(caps & 0xff == 0xff ==> bits & contributing_mask(caps) == bits & (ADAPTIVE_FEATURES
        | INTEGER_FEATURES | FLOAT_FEATURES | BACKWARDS_BRANCHING_FEATURES | HIGHER_LEVEL_FEATURES
        | STATIC_SIZED_ARRAY_FEATURES)) by (bit_vector);
}

/// When no argument is a dynamic variable, a call has the inherent compute kind.
pub proof fn lemma_static_arguments_give_inherent(c: ComputeKind, args: Seq<ComputeKind>, apps: Seq<ParamApplication>)
    requires
        forall|i: int| 0 <= i < args.len() ==> !is_variable_spec(#[trigger] args[i]),
    ensures
        application_fold(c, args, apps) == c,
    decreases args.len(),
{
    if args.len() > 0 && apps.len() > 0 {
        lemma_static_arguments_give_inherent(c, args.drop_last(), apps.drop_last());
        assert(!is_variable_spec(args[args.len() - 1]));
    }
}

/// The runtime features of a compute kind: none when it is static.
pub open spec fn features_of(c: ComputeKind) -> u64 {
    match c {
        ComputeKind::Static => 0,
        ComputeKind::Dynamic { runtime_features, .. } => runtime_features.bits,
    }
}

/// What a parameter bound to an argument of compute kind `arg` brings to a call: an element
/// parameter its compute kind when the argument is a variable; an array parameter, when the
/// argument is a dynamic variable, its compute kind for a dynamically sized array if the
/// argument uses such arrays and for a statically sized one otherwise; nothing (static) in
/// every other case.
pub open spec fn contribution(arg: ComputeKind, app: ParamApplication) -> ComputeKind {
    if !is_variable_spec(arg) {
        ComputeKind::Static
    } else {
        match app {
            ParamApplication::Element(pc) => pc,
            ParamApplication::Array(a) => if features_of(arg) & USE_OF_DYNAMICALLY_SIZED_ARRAY
                == USE_OF_DYNAMICALLY_SIZED_ARRAY {
                a.dynamic_size
            } else {
                a.static_size
            },
        }
    }
}

/// The runtime features that the parameters bring to a call, all together.
pub open spec fn contributed_features(args: Seq<ComputeKind>, apps: Seq<ParamApplication>) -> u64
    decreases args.len(),
{
    if args.len() == 0 || apps.len() == 0 {
        0
    } else {
        contributed_features(args.drop_last(), apps.drop_last()) | features_of(contribution(args.last(), apps.last()))
    }
}

proof fn lemma_or_facts(a: u64, b: u64, c: u64)
    ensures
        a | 0 == a,
        0 | a == a,
        (a | b) | c == a | (b | c),
        a & (a | b) == a,
        b & (a | b) == b,
        (a & b == a) ==> a & (b | c) == a,
{
    assert(a | 0 == a) by (bit_vector);
    assert(0 | a == a) by (bit_vector);
    assert((a | b) | c == a | (b | c)) by (bit_vector);
    assert(a & (a | b) == a) by (bit_vector);
    assert(b & (a | b) == b) by (bit_vector);
    assert((a & b == a) ==> a & (b | c) == a) by (bit_vector);
}

/// One more argument adds to the call exactly what its parameter brings: the runtime features
/// are united, a variable value stays variable, a variable contribution makes it variable, and
/// the call stays static only when both are.
proof fn lemma_application_step_adds(c: ComputeKind, arg: ComputeKind, app: ParamApplication)
    ensures
        features_of(application_step(c, arg, app)) == features_of(c) | features_of(contribution(arg, app)),
        is_variable_spec(c) ==> is_variable_spec(application_step(c, arg, app)),
        is_variable_spec(contribution(arg, app)) ==> is_variable_spec(application_step(c, arg, app)),
        (application_step(c, arg, app) is Static) == (c is Static && contribution(arg, app) is Static),
{
    let k = contribution(arg, app);
    lemma_or_facts(features_of(c), features_of(k), 0);
    lemma_or_facts(features_of(k), 0, 0);
    assert(application_step(c, arg, app) == aggregate_spec(c, k)) by {
        match app {
            ParamApplication::Element(pc) => {},
            ParamApplication::Array(a) => {
                if is_variable_spec(arg) {
                    assert(arg matches ComputeKind::Dynamic { value_kind: ValueKind::Variable, .. });
                }
            },
        }
    }
    match (c, k) {
        (ComputeKind::Dynamic { .. }, ComputeKind::Dynamic { .. }) => {},
        (ComputeKind::Static, ComputeKind::Dynamic { .. }) => {},
        _ => {},
    }
}

/// The compute kind of a call, against its inherent compute kind and what each parameter
/// brings: its runtime features are exactly the inherent ones together with all those
/// brought, so none of them is ever dropped; its value is variable when the inherent one is or
/// any parameter brings a variable one; and it is static only when the inherent kind and all
/// that the parameters bring are.
pub proof fn lemma_application_features(inherent: ComputeKind, args: Seq<ComputeKind>, apps: Seq<ParamApplication>)
    requires
        args.len() == apps.len(),
    ensures
        features_of(application_fold(inherent, args, apps)) == features_of(inherent) | contributed_features(args, apps),
        features_of(inherent) & features_of(application_fold(inherent, args, apps)) == features_of(inherent),
        forall|i: int|
            0 <= i < args.len() ==> features_of(#[trigger] contribution(args[i], apps[i])) & features_of(
                application_fold(inherent, args, apps),
            ) == features_of(contribution(args[i], apps[i])),
        is_variable_spec(inherent) ==> is_variable_spec(application_fold(inherent, args, apps)),
        forall|i: int|
            0 <= i < args.len() && is_variable_spec(#[trigger] contribution(args[i], apps[i])) ==> is_variable_spec(
                application_fold(inherent, args, apps),
            ),
        (application_fold(inherent, args, apps) is Static) == (inherent is Static && forall|i: int|
            0 <= i < args.len() ==> (#[trigger] contribution(args[i], apps[i])) is Static),
    decreases args.len(),
{
    let r = application_fold(inherent, args, apps);
    if args.len() == 0 {
        lemma_or_facts(features_of(inherent), 0, 0);
        assert(features_of(inherent) & (features_of(inherent) | 0) == features_of(inherent));
    } else {
        let n = args.len() - 1;
        let pa = args.drop_last();
        let pp = apps.drop_last();
        let prev = application_fold(inherent, pa, pp);
        lemma_application_features(inherent, pa, pp);
        lemma_application_step_adds(prev, args.last(), apps.last());
        let fi = features_of(inherent);
        let cf = contributed_features(pa, pp);
        let fl = features_of(contribution(args.last(), apps.last()));
        lemma_or_facts(fi, cf, fl);
        lemma_or_facts(cf, fl, 0);
        assert(features_of(r) == fi | (cf | fl));
        lemma_or_facts(fi, cf | fl, 0);
        assert forall|i: int| 0 <= i < args.len() implies features_of(#[trigger] contribution(args[i], apps[i]))
            & features_of(r) == features_of(contribution(args[i], apps[i])) by {
            let fc = features_of(contribution(args[i], apps[i]));
            if i < n {
                assert(args[i] == pa[i] && apps[i] == pp[i]);
                assert(fc & features_of(prev) == fc);
                lemma_or_facts(fc, features_of(prev), fl);
            } else {
                lemma_or_facts(features_of(prev), fl, 0);
            }
        }
        assert forall|i: int|
            0 <= i < args.len() && is_variable_spec(#[trigger] contribution(args[i], apps[i])) implies is_variable_spec(r) by {
            if i < n {
                assert(args[i] == pa[i] && apps[i] == pp[i]);
            }
        }
        if r is Static {
            assert forall|i: int| 0 <= i < args.len() implies (#[trigger] contribution(args[i], apps[i])) is Static by {
                if i < n {
                    assert(args[i] == pa[i] && apps[i] == pp[i]);
                }
            }
        } else {
            if inherent is Static && forall|i: int| 0 <= i < args.len() ==> (#[trigger] contribution(args[i], apps[i])) is Static {
                assert forall|i: int| 0 <= i < pa.len() implies (#[trigger] contribution(pa[i], pp[i])) is Static by {
                    assert(args[i] == pa[i] && apps[i] == pp[i]);
                    assert(contribution(args[i], apps[i]) is Static);
                }
                assert(contribution(args[n], apps[n]) is Static);
            }
        }
    }
}

} // verus!
