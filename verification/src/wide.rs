//! Unsigned numbers of twice the width of `u128`, for products that must not be rounded.
use vstd::prelude::*;

verus! {

/// Two to the power of 64: the base of the halves of a `u128`.
pub const HALF: u128 = 0x1_0000_0000_0000_0000;

/// Two to the power of 128, as a number of specifications.
#[verifier::inline]
pub open spec fn full() -> int {
    0x1_0000_0000_0000_0000_0000_0000_0000_0000int
}

/// A number of 256 bits.
#[derive(Clone, Copy, PartialEq, Eq, Structural, Debug)]
pub struct Wide {
    /// The upper 128 bits.
    pub hi: u128,
    /// The lower 128 bits.
    pub lo: u128,
}

impl View for Wide {
    type V = int;

    /// The number itself.
    open spec fn view(&self) -> int {
        self.hi * full() + self.lo
    }
}

/// A product of two numbers below `HALF` leaves room for two more such numbers in a `u128`.
proof fn lemma_half_product(a: int, b: int)
    requires
        0 <= a < HALF,
        0 <= b < HALF,
    ensures
        0 <= a * b <= (HALF - 1) * (HALF - 1),
{
    assert(0 <= a * b <= (HALF - 1) * (HALF - 1)) by (nonlinear_arith)
        requires
            0 <= a < HALF,
            0 <= b < HALF,
    ;
}

impl Wide {
    /// The product of `a` and `b`.
    pub fn product(a: u128, b: u128) -> (r: Wide)
        ensures
            r@ == a * b,
    {
        let (a1, a0): (u128, u128) = (a / HALF, a % HALF);
        let (b1, b0): (u128, u128) = (b / HALF, b % HALF);
        proof {
            lemma_half_product(a0 as int, b0 as int);
            lemma_half_product(a0 as int, b1 as int);
            lemma_half_product(a1 as int, b0 as int);
            lemma_half_product(a1 as int, b1 as int);
        }
        let p00: u128 = a0 * b0;
        let p01: u128 = a0 * b1;
        let p10: u128 = a1 * b0;
        let p11: u128 = a1 * b1;
        let m1: u128 = p01 + p00 / HALF;
        let m2: u128 = p10 + m1 % HALF;
        let hi: u128 = p11 + m1 / HALF + m2 / HALF;
        let lo: u128 = (m2 % HALF) * HALF + p00 % HALF;
        proof {
            assert(a * b == p11 * HALF * HALF + (p01 + p10) * HALF + p00) by (nonlinear_arith)
                requires
                    a == a1 * HALF + a0,
                    b == b1 * HALF + b0,
                    p00 == a0 * b0,
                    p01 == a0 * b1,
                    p10 == a1 * b0,
                    p11 == a1 * b1,
            ;
        }
        Wide { hi, lo }
    }

    /// This number less `b`.
    pub fn minus(self, b: u128) -> (r: Wide)
        requires
            b <= self@,
        ensures
            r@ == self@ - b,
    {
        if b <= self.lo {
            Wide { hi: self.hi, lo: self.lo - b }
        } else {
            Wide { hi: self.hi - 1, lo: u128::MAX - b + 1 + self.lo }
        }
    }

    /// This number times `factor`.
    pub fn times(self, factor: u64) -> (r: Wide)
        requires
            self.hi < HALF,
        ensures
            r@ == self@ * factor,
    {
        proof {
            lemma_half_product(self.hi as int, factor as int);
        }
        let low: Wide = Wide::product(self.lo, factor as u128);
        let high: u128 = self.hi * (factor as u128);
        proof {
            assert(low.hi < HALF) by (nonlinear_arith)
                requires
                    low.hi * full() + low.lo == self.lo * factor,
            ;
            assert((self.hi * full() + self.lo) * factor == (self.hi * factor) * full() + self.lo
                * factor) by (nonlinear_arith);
        }
        Wide { hi: high + low.hi, lo: low.lo }
    }

    /// Whether this number is greater than `other`.
    pub fn exceeds(self, other: Wide) -> (r: bool)
        ensures
            r == (self@ > other@),
    {
        self.hi > other.hi || (self.hi == other.hi && self.lo > other.lo)
    }
}

} // verus!
