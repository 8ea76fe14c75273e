//! Saturating bucket counters of several widths.
use vstd::prelude::*;

verus! {

/// A bucket count: unsigned, copyable, saturating.
///
/// Its value is a natural number no larger than `cap()`, the
/// type's MAX; every operation saturates at that cap.
pub trait Counter: Copy + Sized {
    /// The count this counter holds.
    spec fn value(self) -> nat;

    /// The largest count this counter type can hold.
    spec fn cap() -> nat;

    /// Every value lies in `0..=cap()`, and the cap lies
    /// between `u8::MAX` and `u64::MAX`.
    proof fn lemma_value_bounds(self)
        ensures
            self.value() <= Self::cap(),
            u8::MAX <= Self::cap() <= u64::MAX,
    ;

    /// Widen to u64 (lossless).
    fn to_u64(self) -> (r: u64)
        ensures
            r == self.value(),
    ;

    /// Narrow from u64, saturating at this type's MAX.
    fn from_u64_sat(value: u64) -> (r: Self)
        ensures
            r.value() == if value <= Self::cap() { value as nat } else { Self::cap() },
    ;

    /// Saturating add of a u64 delta.
    fn sat_add(self, by: u64) -> (r: Self)
        ensures
            r.value() == if self.value() + by <= Self::cap() {
                (self.value() + by) as nat
            } else {
                Self::cap()
            },
    {
        proof {
            self.lemma_value_bounds();
        }
        Self::from_u64_sat(self.to_u64().saturating_add(by))
    }
}

impl Counter for u8 {
    open spec fn value(self) -> nat {
        self as nat
    }

    open spec fn cap() -> nat {
        u8::MAX as nat
    }

    proof fn lemma_value_bounds(self) {
    }

    fn to_u64(self) -> (r: u64) {
        self as u64
    }

    fn from_u64_sat(value: u64) -> (r: u8) {
        if value > u8::MAX as u64 {
            u8::MAX
        } else {
            value as u8
        }
    }
}

impl Counter for u16 {
    open spec fn value(self) -> nat {
        self as nat
    }

    open spec fn cap() -> nat {
        u16::MAX as nat
    }

    proof fn lemma_value_bounds(self) {
    }

    fn to_u64(self) -> (r: u64) {
        self as u64
    }

    fn from_u64_sat(value: u64) -> (r: u16) {
        if value > u16::MAX as u64 {
            u16::MAX
        } else {
            value as u16
        }
    }
}

impl Counter for u32 {
    open spec fn value(self) -> nat {
        self as nat
    }

    open spec fn cap() -> nat {
        u32::MAX as nat
    }

    proof fn lemma_value_bounds(self) {
    }

    fn to_u64(self) -> (r: u64) {
        self as u64
    }

    fn from_u64_sat(value: u64) -> (r: u32) {
        if value > u32::MAX as u64 {
            u32::MAX
        } else {
            value as u32
        }
    }
}

impl Counter for u64 {
    open spec fn value(self) -> nat {
        self as nat
    }

    open spec fn cap() -> nat {
        u64::MAX as nat
    }

    proof fn lemma_value_bounds(self) {
    }

    fn to_u64(self) -> (r: u64) {
        self as u64
    }

    fn from_u64_sat(value: u64) -> (r: u64) {
        if value > u64::MAX as u64 {
            u64::MAX
        } else {
            value as u64
        }
    }
}

} // verus!
