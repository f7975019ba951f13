//! Exact nonnegative rationals for area scaling.
//!
//! Every area the tabulator emits is an integer number of raw area units
//! multiplied by one externally supplied scale factor.  The scale factor is
//! kept as an exact fraction, so scaled areas and totals are exact rational
//! values: no rounding ever happens inside the library.

use vstd::prelude::*;

verus! {

/// Upper bound on the numerator of a scale factor, so that scaling a raw
/// area can never overflow the 128-bit numerator of the result.
pub const MAX_SCALE_NUM: u128 = 1048576;

/// An exact nonnegative rational number, kept unreduced.
#[derive(Debug, Clone, Copy, PartialEq, Eq)]
pub struct Frac {
    /// Numerator.
    pub num: u128,
    /// Denominator; always at least 1.
    pub den: u128,
}

/// A well-formed fraction has a nonzero denominator.
pub open spec fn frac_wf(f: Frac) -> bool {
    1 <= f.den
}

/// A fraction usable as an area scale factor: well formed, with a numerator
/// small enough that `raw_area * num` fits in the 128-bit numerator.
pub open spec fn scale_wf(f: Frac) -> bool {
    frac_wf(f) && f.num <= MAX_SCALE_NUM
}

/// `a` denotes exactly `s` times the rational value of `b`.
pub open spec fn frac_eq_scaled(a: Frac, s: Frac, b: Frac) -> bool {
    a.num * (s.den * b.den) == (s.num * b.num) * a.den
}

/// The rational 1, the default scale factor.
pub open spec fn frac_one() -> Frac {
    Frac { num: 1, den: 1 }
}

impl Frac {
    /// The scale factor 1, the default: areas are reported in raw units.
    pub fn one() -> (r: Frac)
        ensures
            r == frac_one(),
            scale_wf(r),
    {
        Frac { num: 1, den: 1 }
    }

    /// Builds the fraction `num / den`.
    pub fn new(num: u64, den: u64) -> (r: Frac)
        requires
            1 <= den,
        ensures
            r.num == num,
            r.den == den,
            frac_wf(r),
    {
        Frac { num: num as u128, den: den as u128 }
    }
}

} // verus!
