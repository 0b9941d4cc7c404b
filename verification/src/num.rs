//! The numeric carrier for semiring weights: an exact extended number
//! line. A value is either a finite 64-bit integer, one of the two
//! infinities, or `NotNumber` (the absorbing "undefined" element).
//! Finite arithmetic that leaves the representable range saturates into
//! the matching infinity, the way extended-real arithmetic overflows.

use vstd::prelude::*;

verus! {

/// An element of the extended number line.
#[derive(Clone, Copy, Debug, Hash, PartialEq, Eq, Structural)]
pub enum Num {
    /// The undefined element: every comparison with it is false and
    /// every sum involving it is again `NotNumber`.
    NotNumber,
    /// Negative infinity.
    NegInfinite,
    /// A finite value.
    Finite(i64),
    /// Positive infinity.
    Infinite,
}

impl Num {
    /// The strict order of the extended number line; `NotNumber`
    /// compares false against everything, itself included.
    pub open spec fn lt_spec(self, rhs: Num) -> bool {
        match (self, rhs) {
            (Num::NotNumber, _) => false,
            (_, Num::NotNumber) => false,
            (Num::NegInfinite, Num::NegInfinite) => false,
            (Num::NegInfinite, _) => true,
            (_, Num::NegInfinite) => false,
            (Num::Infinite, _) => false,
            (Num::Finite(_), Num::Infinite) => true,
            (Num::Finite(x), Num::Finite(y)) => x < y,
        }
    }

    /// The non-strict order; false whenever `NotNumber` is involved.
    pub open spec fn le_spec(self, rhs: Num) -> bool {
        self.lt_spec(rhs) || (!(self is NotNumber) && self == rhs)
    }

    /// The sum on the extended number line. Opposite infinities and
    /// `NotNumber` give `NotNumber`; a finite sum that leaves the
    /// representable range saturates into the matching infinity.
    pub open spec fn add_spec(self, rhs: Num) -> Num {
        match (self, rhs) {
            (Num::NotNumber, _) => Num::NotNumber,
            (_, Num::NotNumber) => Num::NotNumber,
            (Num::NegInfinite, Num::Infinite) => Num::NotNumber,
            (Num::Infinite, Num::NegInfinite) => Num::NotNumber,
            (Num::Infinite, _) => Num::Infinite,
            (_, Num::Infinite) => Num::Infinite,
            (Num::NegInfinite, _) => Num::NegInfinite,
            (_, Num::NegInfinite) => Num::NegInfinite,
            (Num::Finite(x), Num::Finite(y)) => Num::from_int(x + y),
        }
    }

    /// The difference on the extended number line; subtracting an
    /// infinity from itself gives `NotNumber`.
    pub open spec fn sub_spec(self, rhs: Num) -> Num {
        match (self, rhs) {
            (Num::NotNumber, _) => Num::NotNumber,
            (_, Num::NotNumber) => Num::NotNumber,
            (Num::NegInfinite, Num::NegInfinite) => Num::NotNumber,
            (Num::Infinite, Num::Infinite) => Num::NotNumber,
            (Num::Infinite, _) => Num::Infinite,
            (_, Num::NegInfinite) => Num::Infinite,
            (Num::NegInfinite, _) => Num::NegInfinite,
            (_, Num::Infinite) => Num::NegInfinite,
            (Num::Finite(x), Num::Finite(y)) => Num::from_int(x - y),
        }
    }

    /// An unbounded integer squeezed into the carrier: out-of-range
    /// values saturate into the matching infinity.
    pub open spec fn from_int(x: int) -> Num {
        if x > i64::MAX {
            Num::Infinite
        } else if x < i64::MIN {
            Num::NegInfinite
        } else {
            Num::Finite(x as i64)
        }
    }

    /// Whether the sum of two values is exact, that is, suffers no
    /// saturation into an infinity.
    pub open spec fn add_exact(self, rhs: Num) -> bool {
        match (self, rhs) {
            (Num::Finite(x), Num::Finite(y)) => i64::MIN <= x + y <= i64::MAX,
            _ => true,
        }
    }

    /// Whether the difference of two values is exact.
    pub open spec fn sub_exact(self, rhs: Num) -> bool {
        match (self, rhs) {
            (Num::Finite(x), Num::Finite(y)) => i64::MIN <= x - y <= i64::MAX,
            _ => true,
        }
    }

    /// `x` rounded to the nearest multiple of `d`, ties upward; in
    /// other words `⌊x/d + 1/2⌋·d`.
    pub open spec fn round_to_multiple(x: int, d: int) -> int {
        ((2 * x + d) / (2 * d)) * d
    }

    /// The value rounded to the nearest multiple of the quantum `d`.
    /// A quantum below 2 refines the integer carrier, so the value is
    /// already a fixed point; infinities and `NotNumber` stay as well.
    pub open spec fn quantize_spec(self, d: i64) -> Num {
        if d >= 2 {
            match self {
                Num::Finite(x) => Num::from_int(Num::round_to_multiple(x as int, d as int)),
                _ => self,
            }
        } else {
            self
        }
    }

    pub fn quantize(&self, d: i64) -> (r: Num)
        ensures
            r == self.quantize_spec(d),
    {
        if d < 2 {
            return *self;
        }
        match self {
            Num::Finite(x) => {
                let num: i128 = 2 * (*x as i128) + (d as i128);
                let den: i128 = 2 * (d as i128);
                proof {
                    let n = num as int;
                    let dd = den as int;
                    let qq = n / dd;
                    let rr = n % dd;
                    vstd::arithmetic::div_mod::lemma_fundamental_div_mod(n, dd);
                    assert((-0x3_0000_0000_0000_0000 <= qq <= 0x3_0000_0000_0000_0000) && (
                    -0x3_0000_0000_0000_0000 <= qq * (d as int)
                        <= 0x3_0000_0000_0000_0000)) by (nonlinear_arith)
                        requires
                            dd == 2 * (d as int),
                            2 <= d as int,
                            dd * qq + rr == n,
                            0 <= rr < dd,
                            -0x1_8000_0000_0000_0000 <= n <= 0x1_8000_0000_0000_0000,
                    ;
                }
                let q: i128 = num.checked_div_euclid(den).unwrap();
                let m: i128 = q.checked_mul(d as i128).unwrap();
                if m > i64::MAX as i128 {
                    Num::Infinite
                } else if m < i64::MIN as i128 {
                    Num::NegInfinite
                } else {
                    Num::Finite(m as i64)
                }
            },
            _ => *self,
        }
    }

    pub fn lt(&self, rhs: &Num) -> (r: bool)
        ensures
            r == self.lt_spec(*rhs),
    {
        match (self, rhs) {
            (Num::NegInfinite, Num::NegInfinite) => false,
            (Num::NegInfinite, Num::Finite(_)) => true,
            (Num::NegInfinite, Num::Infinite) => true,
            (Num::Finite(_), Num::Infinite) => true,
            (Num::Finite(x), Num::Finite(y)) => x < y,
            _ => false,
        }
    }

    pub fn le(&self, rhs: &Num) -> (r: bool)
        ensures
            r == self.le_spec(*rhs),
    {
        self.lt(rhs) || (!matches!(self, Num::NotNumber) && *self == *rhs)
    }

    pub fn add(&self, rhs: &Num) -> (r: Num)
        ensures
            r == self.add_spec(*rhs),
    {
        match (self, rhs) {
            (Num::NotNumber, _) => Num::NotNumber,
            (_, Num::NotNumber) => Num::NotNumber,
            (Num::NegInfinite, Num::Infinite) => Num::NotNumber,
            (Num::Infinite, Num::NegInfinite) => Num::NotNumber,
            (Num::Infinite, _) => Num::Infinite,
            (_, Num::Infinite) => Num::Infinite,
            (Num::NegInfinite, _) => Num::NegInfinite,
            (_, Num::NegInfinite) => Num::NegInfinite,
            (Num::Finite(x), Num::Finite(y)) => {
                let s: i128 = (*x as i128) + (*y as i128);
                if s > i64::MAX as i128 {
                    Num::Infinite
                } else if s < i64::MIN as i128 {
                    Num::NegInfinite
                } else {
                    Num::Finite(s as i64)
                }
            },
        }
    }

    pub fn sub(&self, rhs: &Num) -> (r: Num)
        ensures
            r == self.sub_spec(*rhs),
    {
        match (self, rhs) {
            (Num::NotNumber, _) => Num::NotNumber,
            (_, Num::NotNumber) => Num::NotNumber,
            (Num::NegInfinite, Num::NegInfinite) => Num::NotNumber,
            (Num::Infinite, Num::Infinite) => Num::NotNumber,
            (Num::Infinite, _) => Num::Infinite,
            (_, Num::NegInfinite) => Num::Infinite,
            (Num::NegInfinite, _) => Num::NegInfinite,
            (_, Num::Infinite) => Num::NegInfinite,
            (Num::Finite(x), Num::Finite(y)) => {
                let s: i128 = (*x as i128) - (*y as i128);
                if s > i64::MAX as i128 {
                    Num::Infinite
                } else if s < i64::MIN as i128 {
                    Num::NegInfinite
                } else {
                    Num::Finite(s as i64)
                }
            },
        }
    }
}

} // verus!
