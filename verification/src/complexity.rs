//! The complexity knob: a value between zero and one, kept in millionths.

use vstd::prelude::*;

verus! {

/// A complexity between zero and one, held as a whole number of millionths.
#[derive(Clone, Copy, Debug, PartialEq, Eq)]
pub struct Complexity {
    millionths: u32,
}

impl Complexity {
    #[verifier::type_invariant]
    spec fn in_range(self) -> bool {
        self.millionths <= 1_000_000
    }

    /// The complexity in millionths.
    pub closed spec fn value(self) -> nat {
        self.millionths as nat
    }

    /// The complexity of `raw` millionths, clamped to one.
    pub fn from_millionths(raw: u32) -> (c: Complexity)
        ensures
            c.value() == (if raw <= 1_000_000 { raw as nat } else { 1_000_000nat }),
    {
        if raw <= 1_000_000 {
            Complexity { millionths: raw }
        } else {
            Complexity { millionths: 1_000_000 }
        }
    }

    /// The complexity in millionths, never above one million.
    pub fn millionths(&self) -> (m: u32)
        ensures
            m == self.value(),
            m <= 1_000_000,
    {
        proof {
            use_type_invariant(self);
        }
        self.millionths
    }

    /// Whether the complexity lies below `threshold` millionths.
    pub fn below(&self, threshold: u32) -> (less: bool)
        ensures
            less == (self.value() < threshold),
    {
        self.millionths < threshold
    }

    /// Whether the complexity is above zero.
    pub fn positive(&self) -> (above: bool)
        ensures
            above == (self.value() > 0),
    {
        self.millionths > 0
    }

    /// `base + complexity * span`, all in millionths, rounded down.
    pub fn scaled(&self, base: u32, span: u32) -> (probability: u32)
        requires
            base + span <= u32::MAX,
        ensures
            probability == base + (self.value() * span) / 1_000_000,
            base <= probability <= base + span,
    {
        let m = self.millionths();
        proof {
            assert(0 <= m * span <= 1_000_000 * span) by (nonlinear_arith)
                requires
                    0 <= m <= 1_000_000,
                    0 <= span,
            ;
        }
        let product: u64 = (m as u64) * (span as u64);
        let extra: u64 = product / 1_000_000;
        base + extra as u32
    }

    /// `complexity * count`, rounded down.
    pub fn portion(&self, count: u64) -> (part: u64)
        ensures
            part == (self.value() * count) / 1_000_000,
            part <= count,
    {
        let m = self.millionths();
        let whole: u64 = count / 1_000_000;
        let rest: u64 = count % 1_000_000;
        proof {
            assert(whole * 1_000_000 <= count);
            assert(0 <= whole * m <= whole * 1_000_000) by (nonlinear_arith)
                requires
                    0 <= m <= 1_000_000,
                    0 <= whole,
            ;
            assert(0 <= rest * m <= 1_000_000 * 1_000_000) by (nonlinear_arith)
                requires
                    0 <= m <= 1_000_000,
                    0 <= rest <= 1_000_000,
            ;
            assert((m * count) / 1_000_000 == whole * m + (rest * m) / 1_000_000) by (nonlinear_arith)
                requires
                    count == whole * 1_000_000 + rest,
                    0 <= rest < 1_000_000,
                    0 <= m,
                    0 <= whole,
            ;
            assert((rest * m) / 1_000_000 <= rest) by (nonlinear_arith)
                requires
                    0 <= m <= 1_000_000,
                    0 <= rest,
            ;
        }
        whole * (m as u64) + (rest * (m as u64)) / 1_000_000
    }
}

} // verus!
