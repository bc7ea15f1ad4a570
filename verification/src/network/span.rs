//! Spans of time with the range and arithmetic of `std::time::Duration`.
use vstd::prelude::*;

verus! {

pub const NANOS_PER_SEC: u32 = 1_000_000_000;

/// The longest span: `u64::MAX` seconds and 999,999,999 nanoseconds.
pub open spec fn max_nanos() -> nat {
    u64::MAX as nat * NANOS_PER_SEC as nat + (NANOS_PER_SEC - 1) as nat
}

/// A span of time, in whole seconds and the nanoseconds of the last second.
#[derive(Clone, Copy, Debug)]
pub struct Span {
    secs: u64,
    nanos: u32,
}

impl View for Span {
    type V = nat;

    /// The length in nanoseconds.
    closed spec fn view(&self) -> nat {
        self.secs as nat * NANOS_PER_SEC as nat + self.nanos as nat
    }
}

pub open spec fn min_nat(a: nat, b: nat) -> nat {
    if a <= b {
        a
    } else {
        b
    }
}

pub open spec fn max_nat(a: nat, b: nat) -> nat {
    if a >= b {
        a
    } else {
        b
    }
}

impl Span {
    #[verifier::type_invariant]
    spec fn inv(self) -> bool {
        self.nanos < NANOS_PER_SEC
    }

    proof fn lemma_bounded(self)
        requires
            self.nanos < NANOS_PER_SEC,
        ensures
            self@ <= max_nanos(),
    {
        assert(self.secs as nat * NANOS_PER_SEC as nat <= u64::MAX as nat * NANOS_PER_SEC as nat)
            by (nonlinear_arith)
            requires
                self.secs <= u64::MAX,
        ;
    }

    /// The span of `secs` seconds and `nanos` nanoseconds.
    pub fn new(secs: u64, nanos: u32) -> (r: Span)
        requires
            nanos < NANOS_PER_SEC,
        ensures
            r@ == secs as nat * NANOS_PER_SEC as nat + nanos as nat,
    {
        Span { secs, nanos }
    }

    pub fn zero() -> (r: Span)
        ensures
            r@ == 0,
    {
        Span { secs: 0, nanos: 0 }
    }

    pub fn from_secs(secs: u64) -> (r: Span)
        ensures
            r@ == secs as nat * NANOS_PER_SEC as nat,
    {
        Span { secs, nanos: 0 }
    }

    /// Whole seconds.
    pub fn as_secs(&self) -> (r: u64)
        ensures
            r as nat == self@ / NANOS_PER_SEC as nat,
    {
        proof {
            use_type_invariant(self);
            self.lemma_parts();
        }
        self.secs
    }

    /// Nanoseconds past the whole seconds.
    pub fn subsec_nanos(&self) -> (r: u32)
        ensures
            r as nat == self@ % NANOS_PER_SEC as nat,
            r < NANOS_PER_SEC,
    {
        proof {
            use_type_invariant(self);
            self.lemma_parts();
        }
        self.nanos
    }

    proof fn lemma_parts(self)
        requires
            self.nanos < NANOS_PER_SEC,
        ensures
            self@ / NANOS_PER_SEC as nat == self.secs,
            self@ % NANOS_PER_SEC as nat == self.nanos,
    {
        let n = NANOS_PER_SEC as int;
        let s = self.secs as int;
        let f = self.nanos as int;
        assert((s * n + f) / n == s && (s * n + f) % n == f) by (nonlinear_arith)
            requires
                0 <= f < n,
                n > 0,
                s >= 0,
        ;
    }

    /// The length in nanoseconds.
    fn to_nanos(&self) -> (r: u128)
        ensures
            r == self@,
            r <= max_nanos(),
    {
        proof {
            use_type_invariant(self);
            self.lemma_bounded();
        }
        self.secs as u128 * NANOS_PER_SEC as u128 + self.nanos as u128
    }

    /// The span of `n` nanoseconds.
    fn from_nanos(n: u128) -> (r: Span)
        requires
            n <= max_nanos(),
        ensures
            r@ == n,
    {
        let secs = n / NANOS_PER_SEC as u128;
        let nanos = n % NANOS_PER_SEC as u128;
        proof {
            assert(secs <= u64::MAX) by (nonlinear_arith)
                requires
                    secs == n / 1_000_000_000u128,
                    n <= max_nanos(),
            ;
            assert(secs * 1_000_000_000 + nanos == n) by (nonlinear_arith)
                requires
                    secs == n / 1_000_000_000u128,
                    nanos == n % 1_000_000_000u128,
            ;
        }
        Span { secs: secs as u64, nanos: nanos as u32 }
    }

    /// `self * rhs`, or the longest span where that overflows.
    pub fn saturating_mul(self, rhs: u32) -> (r: Span)
        ensures
            r@ == min_nat(self@ * rhs as nat, max_nanos()),
            self@ <= max_nanos(),
    {
        let n = self.to_nanos();
        proof {
            assert(n * rhs <= max_nanos() * u32::MAX) by (nonlinear_arith)
                requires
                    n <= max_nanos(),
                    rhs <= u32::MAX,
            ;
        }
        let product = n * rhs as u128;
        if product <= u64::MAX as u128 * NANOS_PER_SEC as u128 + (NANOS_PER_SEC - 1) as u128 {
            Span::from_nanos(product)
        } else {
            Span::from_nanos(u64::MAX as u128 * NANOS_PER_SEC as u128 + (NANOS_PER_SEC - 1) as u128)
        }
    }

    /// The shorter span.
    pub fn min(self, other: Span) -> (r: Span)
        ensures
            r@ == min_nat(self@, other@),
            self@ <= max_nanos(),
            other@ <= max_nanos(),
    {
        if self.to_nanos() <= other.to_nanos() {
            self
        } else {
            other
        }
    }

    /// The longer span.
    pub fn max(self, other: Span) -> (r: Span)
        ensures
            r@ == max_nat(self@, other@),
    {
        if self.to_nanos() >= other.to_nanos() {
            self
        } else {
            other
        }
    }

    /// Half the span, rounded down to the nanosecond.
    pub fn half(self) -> (r: Span)
        ensures
            r@ == self@ / 2,
    {
        Span::from_nanos(self.to_nanos() / 2)
    }

    /// `self - other`, or zero where `other` is longer.
    pub fn saturating_sub(self, other: Span) -> (r: Span)
        ensures
            r@ == if self@ >= other@ {
                (self@ - other@) as nat
            } else {
                0
            },
    {
        let a = self.to_nanos();
        let b = other.to_nanos();
        if a >= b {
            Span::from_nanos(a - b)
        } else {
            Span::zero()
        }
    }
}

} // verus!
