use vstd::prelude::*;
use crate::math::{sat_add, sat_add_i64};

verus! {

/// Number of fixed-point fractional units per whole unit in scores.
pub const MILLI: i64 = 1000;

/// The discount factor of the whole search, kept as an exact rational
/// `num / den` with `0 < num <= den`, so that discounting is integer
/// arithmetic with a precise specification.
#[derive(Clone, Copy, PartialEq, Eq, Structural, Debug)]
pub struct Gamma {
    pub num: u32,
    pub den: u32,
}

impl Gamma {
    /// A discount factor is a rational in `(0, 1]`.
    pub open spec fn wf(self) -> bool {
        0 < self.num <= self.den
    }

    pub fn new(num: u32, den: u32) -> (g: Gamma)
        requires
            0 < num <= den,
        ensures
            g.num == num,
            g.den == den,
            g.wf(),
    {
        Gamma { num, den }
    }
}

/// `spec_discount(r, num, den)` is `r` scaled by `num / den`, rounding the
/// magnitude down (truncation toward zero, matching the executable code).
pub open spec fn spec_discount(r: int, num: int, den: int) -> int
    recommends
        0 < num <= den,
{
    if r >= 0 {
        (r * num) / den
    } else {
        -(((-r) * num) / den)
    }
}

/// Discounted value of `r` under `g`: the reward one level further from
/// where it was earned.
pub fn discount(r: i64, g: &Gamma) -> (d: i64)
    requires
        g.wf(),
    ensures
        d as int == spec_discount(r as int, g.num as int, g.den as int),
{
    if r >= 0 {
        proof {
            lemma_mul_in_i128(r as int, g.num as int);
            lemma_scale_le(r as int, g.num as int, g.den as int);
        }
        let m: i128 = (r as i128) * (g.num as i128) / (g.den as i128);
        m as i64
    } else {
        let mag: i128 = -(r as i128);
        proof {
            lemma_mul_in_i128(-(r as int), g.num as int);
            lemma_scale_le(-(r as int), g.num as int, g.den as int);
        }
        let m: i128 = mag * (g.num as i128) / (g.den as i128);
        (-m) as i64
    }
}

/// One backpropagation step: the rolled-up reward from below is discounted
/// and the immediate reward of the action taken at this level is added
/// (saturating at the `i64` range).
pub open spec fn spec_backup(below: int, num: int, den: int, immediate: int) -> int {
    sat_add(spec_discount(below, num, den), immediate)
}

pub fn backup(below: i64, g: &Gamma, immediate: i64) -> (r: i64)
    requires
        g.wf(),
    ensures
        r as int == spec_backup(below as int, g.num as int, g.den as int, immediate as int),
{
    sat_add_i64(discount(below, g), immediate)
}

/// The product of a nonnegative value bounded by `i64::MAX + 1` and a
/// `u32`-sized factor stays inside the `i128` range.
pub proof fn lemma_mul_in_i128(r: int, num: int)
    requires
        0 <= r <= i64::MAX as int + 1,
        0 <= num <= u32::MAX as int,
    ensures
        0 <= r * num <= i128::MAX as int,
{
    assert(0 <= r * num <= (i64::MAX as int + 1) * (u32::MAX as int)) by (nonlinear_arith)
        requires
            0 <= r <= i64::MAX as int + 1,
            0 <= num <= u32::MAX as int,
    ;
}

/// For `0 <= r` and `0 < num <= den`, scaling by `num / den` does not
/// increase the value.
pub proof fn lemma_scale_le(r: int, num: int, den: int)
    requires
        0 <= r,
        0 < num <= den,
    ensures
        0 <= (r * num) / den <= r,
{
    assert(0 <= r * num) by (nonlinear_arith)
        requires
            0 <= r,
            0 < num,
    ;
    assert(r * num <= r * den) by (nonlinear_arith)
        requires
            0 <= r,
            num <= den,
    ;
    assert((r * num) / den <= (r * den) / den) by (nonlinear_arith)
        requires
            0 < den,
            r * num <= r * den,
    ;
    assert((r * den) / den == r) by (nonlinear_arith)
        requires
            0 < den,
    ;
    assert(0 <= (r * num) / den) by (nonlinear_arith)
        requires
            0 <= r * num,
            0 < den,
    ;
}

/// Discount monotonicity: with a discount factor strictly below one, each
/// additional level of ascent strictly shrinks the magnitude of a nonzero
/// propagated reward; with a factor of exactly one it is unchanged.
pub proof fn lemma_discount_monotone(r: int, g: Gamma)
    requires
        g.wf(),
        i64::MIN <= r <= i64::MAX,
    ensures
        g.num < g.den && r != 0 ==> abs(spec_discount(r, g.num as int, g.den as int)) < abs(r),
        g.num < g.den && r == 0 ==> spec_discount(r, g.num as int, g.den as int) == 0,
        g.num == g.den ==> spec_discount(r, g.num as int, g.den as int) == r,
{
    let num = g.num as int;
    let den = g.den as int;
    let m = abs(r);
    lemma_scale_le(m, num, den);
    if num < den && r != 0 {
        assert(m * num < m * den) by (nonlinear_arith)
            requires
                1 <= m,
                num < den,
        ;
        assert((m * den) / den == m) by (nonlinear_arith)
            requires
                0 < den,
        ;
        assert((m * num) / den < m) by (nonlinear_arith)
            requires
                0 < den,
                m * num < m * den,
                (m * den) / den == m,
        ;
    }
    if num == den {
        assert((m * den) / den == m) by (nonlinear_arith)
            requires
                0 < den,
        ;
    }
}

pub open spec fn abs(x: int) -> int {
    if x >= 0 {
        x
    } else {
        -x
    }
}

} // verus!
