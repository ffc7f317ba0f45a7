use vstd::prelude::*;

verus! {

/// Saturating addition on the mathematical integers, clamped to the `i64`
/// range.  All reward bookkeeping in this crate goes through this function,
/// so every statistic is total: no update can overflow.
pub open spec fn sat_add(a: int, b: int) -> int {
    if a + b > i64::MAX as int {
        i64::MAX as int
    } else if a + b < i64::MIN as int {
        i64::MIN as int
    } else {
        a + b
    }
}

/// Clamp an arbitrary integer into the `i64` range.
pub open spec fn clamp_i64(x: int) -> int {
    if x > i64::MAX as int {
        i64::MAX as int
    } else if x < i64::MIN as int {
        i64::MIN as int
    } else {
        x
    }
}

pub fn sat_add_i64(a: i64, b: i64) -> (r: i64)
    ensures
        r as int == sat_add(a as int, b as int),
{
    let s: i128 = a as i128 + b as i128;
    if s > i64::MAX as i128 {
        i64::MAX
    } else if s < i64::MIN as i128 {
        i64::MIN
    } else {
        s as i64
    }
}

/// Clamp a 128-bit intermediate value into the `i64` range.
pub fn clamp_i128_to_i64(x: i128) -> (r: i64)
    ensures
        r as int == clamp_i64(x as int),
{
    if x > i64::MAX as i128 {
        i64::MAX
    } else if x < i64::MIN as i128 {
        i64::MIN
    } else {
        x as i64
    }
}

/// Truncating division (toward zero) for a positive divisor, matching the
/// machine's signed division.
pub open spec fn div_trunc(a: int, b: int) -> int
    recommends
        b > 0,
{
    if a >= 0 {
        a / b
    } else {
        -((-a) / b)
    }
}

/// Floor of the base-two logarithm; zero below two.
pub open spec fn log2_floor(x: nat) -> nat
    decreases x,
{
    if x <= 1 {
        0
    } else {
        1 + log2_floor(x / 2)
    }
}

/// Powers of two.
pub open spec fn pow2s(n: nat) -> nat
    decreases n,
{
    if n == 0 {
        1
    } else {
        2 * pow2s((n - 1) as nat)
    }
}

pub proof fn lemma_pow2s_pos(n: nat)
    ensures
        pow2s(n) >= 1,
    decreases n,
{
    if n > 0 {
        lemma_pow2s_pos((n - 1) as nat);
    }
}

pub proof fn lemma_pow2s_mono(a: nat, b: nat)
    requires
        a <= b,
    ensures
        pow2s(a) <= pow2s(b),
    decreases b,
{
    if a < b {
        lemma_pow2s_mono(a, (b - 1) as nat);
        lemma_pow2s_pos((b - 1) as nat);
    }
}

/// `2 ^ log2_floor(x)` never exceeds `x`.
pub proof fn lemma_pow2s_log2(x: nat)
    requires
        x >= 1,
    ensures
        pow2s(log2_floor(x)) <= x,
    decreases x,
{
    if x > 1 {
        lemma_pow2s_log2(x / 2);
        assert(pow2s(log2_floor(x)) == 2 * pow2s(log2_floor(x / 2)));
    }
}

/// One halving step of the logarithm loop: the power-of-two witness is
/// maintained and the counter stays below 33.
proof fn lemma_ilog_step(x: nat, v: nat, r: nat)
    requires
        2 <= v <= x,
        x <= 0x100000000,
        pow2s(r) * v <= x,
    ensures
        pow2s(r + 1) * (v / 2) <= x,
        r + 1 <= 32,
        v / 2 >= 1,
{
    assert(pow2s(r + 1) == 2 * pow2s(r));
    assert(2 * (v / 2) <= v);
    lemma_pow2s_pos(r);
    assert(pow2s(r + 1) * (v / 2) <= pow2s(r) * v) by (nonlinear_arith)
        requires
            pow2s(r + 1) == 2 * pow2s(r),
            2 * (v / 2) <= v,
            pow2s(r) >= 1,
            v / 2 >= 0,
    ;
    lemma_pow2s_pos(r + 1);
    assert(pow2s(r + 1) * 1 <= pow2s(r + 1) * (v / 2)) by (nonlinear_arith)
        requires
            v / 2 >= 1,
            pow2s(r + 1) >= 1,
    ;
    if r + 1 > 32 {
        lemma_pow2s_mono(33, r + 1);
        assert(pow2s(33) == 0x200000000) by {
            reveal_with_fuel(pow2s, 34);
        }
    }
}

/// Base-two logarithm of a value of at most `2^32`.
pub fn ilog2_u64(x: u64) -> (r: u64)
    requires
        1 <= x <= 0x100000000,
    ensures
        r as nat == log2_floor(x as nat),
        r <= 32,
{
    let mut v: u64 = x;
    let mut r: u64 = 0;
    proof {
        assert(pow2s(0) * (x as nat) == x as nat) by (nonlinear_arith)
            requires
                pow2s(0) == 1,
        ;
    }
    while v > 1
        invariant
            1 <= v <= x,
            x <= 0x100000000,
            r <= 32,
            log2_floor(x as nat) == r + log2_floor(v as nat),
            pow2s(r as nat) * (v as nat) <= x as nat,
        decreases v,
    {
        proof {
            lemma_ilog_step(x as nat, v as nat, r as nat);
        }
        v = v / 2;
        r = r + 1;
    }
    r
}

/// Floor of the square root.
pub open spec fn sqrt_floor(x: nat) -> nat
    decreases x,
{
    if x == 0 {
        0
    } else {
        let s = sqrt_floor((x - 1) as nat);
        if (s + 1) * (s + 1) <= x {
            s + 1
        } else {
            s
        }
    }
}

pub proof fn lemma_sqrt_floor_bounds(x: nat)
    ensures
        sqrt_floor(x) * sqrt_floor(x) <= x,
        x < (sqrt_floor(x) + 1) * (sqrt_floor(x) + 1),
    decreases x,
{
    if x == 0 {
        assert(sqrt_floor(0) == 0);
        assert((sqrt_floor(x) + 1) * (sqrt_floor(x) + 1) == 1) by (nonlinear_arith)
            requires
                sqrt_floor(x) == 0,
        ;
    } else {
        lemma_sqrt_floor_bounds((x - 1) as nat);
        let s = sqrt_floor((x - 1) as nat);
        if (s + 1) * (s + 1) <= x {
            assert(sqrt_floor(x) == s + 1);
            assert(x - 1 < (s + 1) * (s + 1));
            assert(x == (s + 1) * (s + 1));
            assert((s + 1) * (s + 1) < (s + 2) * (s + 2)) by (nonlinear_arith);
            assert(sqrt_floor(x) * sqrt_floor(x) <= x);
            assert(x < (sqrt_floor(x) + 1) * (sqrt_floor(x) + 1));
        } else {
            assert(sqrt_floor(x) == s);
            assert(sqrt_floor(x) * sqrt_floor(x) <= x);
            assert(x < (sqrt_floor(x) + 1) * (sqrt_floor(x) + 1));
        }
    }
}

pub proof fn lemma_sqrt_floor_unique(x: nat, r: nat)
    requires
        r * r <= x,
        x < (r + 1) * (r + 1),
    ensures
        r == sqrt_floor(x),
{
    lemma_sqrt_floor_bounds(x);
    let s = sqrt_floor(x);
    assert(r <= s) by (nonlinear_arith)
        requires
            r * r <= x,
            x < (s + 1) * (s + 1),
    ;
    assert(s <= r) by (nonlinear_arith)
        requires
            s * s <= x,
            x < (r + 1) * (r + 1),
    ;
}

/// Integer square root by linear search; the argument is small (a
/// fixed-point exploration ratio), so the search is short.
pub fn isqrt_u64(x: u64) -> (r: u64)
    requires
        x < 0x1000000000000,
    ensures
        r as nat == sqrt_floor(x as nat),
{
    let mut r: u64 = 0;
    let mut r1: u64 = 1;
    while r1 * r1 <= x
        invariant
            x < 0x1000000000000,
            r1 == r + 1,
            r1 <= 0x1000001,
            (r1 as int) * (r1 as int) <= 0x1000002000001,
            (r as int) * (r as int) <= x as int,
            r <= x,
        decreases x - r,
    {
        proof {
            assert(r1 <= 0xFFFFFF) by (nonlinear_arith)
                requires
                    (r1 as int) * (r1 as int) <= x as int,
                    x < 0x1000000000000,
                    r1 >= 1,
            ;
            assert((r1 + 1) * (r1 + 1) <= 0x1000002000001) by (nonlinear_arith)
                requires
                    r1 + 1 <= 0x1000001,
            ;
            assert(r1 <= r1 * r1) by (nonlinear_arith)
                requires
                    r1 >= 1,
            ;
        }
        r = r1;
        r1 = r1 + 1;
    }
    proof {
        lemma_sqrt_floor_unique(x as nat, r as nat);
    }
    r
}

} // verus!
