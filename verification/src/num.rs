//! Fixed-point arithmetic helpers shared by the geometry and physics code:
//! truncating multiply-divide, cross-multiplied comparison of step-time
//! fractions, saturation to the engine's coordinate range, and an integer
//! square root for the terminal-velocity clamp.

use vstd::prelude::*;

verus! {

/// One world unit (the edge of a voxel cell) in fixed-point milli-units.
pub const UNIT: i64 = 1000;

/// Largest magnitude a position coordinate may take (milli-units).
pub const POS_LIMIT: i64 = 500_000_000_000;

/// Largest magnitude a velocity component may take (milli-units per second).
pub const VEL_LIMIT: i64 = 1_000_000_000;

/// Longest simulation step the integrator accepts (milliseconds).
pub const DT_MAX: i64 = 60_000;

/// Magnitude bound under which the fraction comparisons below are exact.
pub const FRAC_LIMIT: i64 = 0x4000_0000_0000_0000;

/// Truncating division (round toward zero), the rounding used throughout
/// the fixed-point arithmetic of the core. In spec arithmetic `/` is
/// Euclidean, so the negative case is spelled out.
pub open spec fn tdiv(a: int, b: int) -> int
    recommends
        b > 0,
{
    if a >= 0 {
        a / b
    } else {
        -((-a) / b)
    }
}

/// Clamp `v` to the closed interval `[-lim, lim]`.
pub open spec fn clamp_spec(v: int, lim: int) -> int
    recommends
        lim > 0,
{
    if v > lim {
        lim
    } else if v < -lim {
        -lim
    } else {
        v
    }
}

pub proof fn lemma_mul_bound(a: int, b: int, m: int)
    by (nonlinear_arith)
    requires
        0 <= m,
        -m <= a <= m,
        -m <= b <= m,
    ensures
        -(m * m) <= a * b <= m * m,
{
}

/// Transitivity of the cross-multiplied order on fractions with positive
/// denominators: n1/d1 <= n2/d2 and n2/d2 <= n3/d3 imply n1/d1 <= n3/d3.
pub proof fn lemma_frac_le_trans(n1: int, d1: int, n2: int, d2: int, n3: int, d3: int)
    by (nonlinear_arith)
    requires
        d1 > 0,
        d2 > 0,
        d3 > 0,
        n1 * d2 <= n2 * d1,
        n2 * d3 <= n3 * d2,
    ensures
        n1 * d3 <= n3 * d1,
{
}

/// A fraction that dominates a non-negative one is non-negative.
pub proof fn lemma_frac_nonneg(n1: int, d1: int, n2: int, d2: int)
    by (nonlinear_arith)
    requires
        d1 > 0,
        d2 > 0,
        n1 >= 0,
        n1 * d2 <= n2 * d1,
    ensures
        n2 >= 0,
{
}

/// `r == tdiv(a * n, d)`: multiply exactly in 128 bits, then divide
/// truncating toward zero. The quotient must fit the result type; callers
/// establish that with `lemma_tdiv_in_range`.
pub fn mul_div_trunc(a: i64, n: i64, d: i64) -> (r: i64)
    requires
        d > 0,
        -0x7fff_ffff_ffff_ffff <= tdiv(a * n, d as int) <= 0x7fff_ffff_ffff_ffff,
    ensures
        r == tdiv(a * n as int, d as int),
{
    proof {
        lemma_mul_bound(a as int, n as int, 0x8000_0000_0000_0000);
    }
    let prod: i128 = (a as i128) * (n as i128);
    if prod >= 0 {
        let q: u128 = (prod as u128) / (d as u128);
        assert(q == tdiv(a * n, d as int));
        q as i64
    } else {
        let q: u128 = ((-prod) as u128) / (d as u128);
        assert(-(q as int) == tdiv(a * n, d as int));
        -(q as i64)
    }
}

/// Cross-multiplied `n1/d1 <= n2/d2` for positive denominators.
pub fn frac_le(n1: i64, d1: i64, n2: i64, d2: i64) -> (r: bool)
    requires
        0 < d1 <= FRAC_LIMIT,
        0 < d2 <= FRAC_LIMIT,
        -FRAC_LIMIT <= n1 <= FRAC_LIMIT,
        -FRAC_LIMIT <= n2 <= FRAC_LIMIT,
    ensures
        r == (n1 * d2 <= n2 * d1),
{
    proof {
        lemma_mul_bound(n1 as int, d2 as int, FRAC_LIMIT as int);
        lemma_mul_bound(n2 as int, d1 as int, FRAC_LIMIT as int);
    }
    (n1 as i128) * (d2 as i128) <= (n2 as i128) * (d1 as i128)
}

/// Cross-multiplied `n1/d1 < n2/d2` for positive denominators.
pub fn frac_lt(n1: i64, d1: i64, n2: i64, d2: i64) -> (r: bool)
    requires
        0 < d1 <= FRAC_LIMIT,
        0 < d2 <= FRAC_LIMIT,
        -FRAC_LIMIT <= n1 <= FRAC_LIMIT,
        -FRAC_LIMIT <= n2 <= FRAC_LIMIT,
    ensures
        r == (n1 * d2 < n2 * d1),
{
    proof {
        lemma_mul_bound(n1 as int, d2 as int, FRAC_LIMIT as int);
        lemma_mul_bound(n2 as int, d1 as int, FRAC_LIMIT as int);
    }
    (n1 as i128) * (d2 as i128) < (n2 as i128) * (d1 as i128)
}

/// Cross-multiplied `n1/d1 == n2/d2` for positive denominators.
pub fn frac_eq(n1: i64, d1: i64, n2: i64, d2: i64) -> (r: bool)
    requires
        0 < d1 <= FRAC_LIMIT,
        0 < d2 <= FRAC_LIMIT,
        -FRAC_LIMIT <= n1 <= FRAC_LIMIT,
        -FRAC_LIMIT <= n2 <= FRAC_LIMIT,
    ensures
        r == (n1 * d2 == n2 * d1),
{
    proof {
        lemma_mul_bound(n1 as int, d2 as int, FRAC_LIMIT as int);
        lemma_mul_bound(n2 as int, d1 as int, FRAC_LIMIT as int);
    }
    (n1 as i128) * (d2 as i128) == (n2 as i128) * (d1 as i128)
}

/// Clamp a value to `[-lim, lim]`.
pub fn clamp_to(v: i64, lim: i64) -> (r: i64)
    requires
        lim > 0,
    ensures
        r == clamp_spec(v as int, lim as int),
{
    if v > lim {
        lim
    } else if v < -lim {
        -lim
    } else {
        v
    }
}

/// Truncating division of a single value: `r == tdiv(a, d)`.
pub fn div_trunc(a: i64, d: i64) -> (r: i64)
    requires
        d > 0,
        a > i64::MIN,
    ensures
        r == tdiv(a as int, d as int),
{
    if a >= 0 {
        ((a as u64) / (d as u64)) as i64
    } else {
        -((((-a) as u64) / (d as u64)) as i64)
    }
}

/// Flooring division: `r == a / d` in the Euclidean sense of spec
/// arithmetic, which rounds toward negative infinity for `d > 0`.
pub fn div_floor(a: i64, d: i64) -> (r: i64)
    requires
        0 < d <= 0x1000_0000,
        -0x1000_0000_0000_0000 <= a <= 0x1000_0000_0000_0000,
    ensures
        r == a as int / d as int,
        d * r <= a,
        a - d * r < d,
{
    proof {
        vstd::arithmetic::div_mod::lemma_fundamental_div_mod(a as int, d as int);
        vstd::arithmetic::div_mod::lemma_mod_bound(a as int, d as int);
    }
    if a >= 0 {
        ((a as u64) / (d as u64)) as i64
    } else {
        let m: u64 = (-a) as u64;
        let q: u64 = (m + (d as u64) - 1) / (d as u64);
        proof {
            let mi = m as int;
            let di = d as int;
            let qi = q as int;
            vstd::arithmetic::div_mod::lemma_fundamental_div_mod(mi + di - 1, di);
            assert((mi + di - 1) % di < di && (mi + di - 1) % di >= 0);
            assert(di * qi == mi + di - 1 - ((mi + di - 1) % di));
            assert(qi * di == di * qi) by (nonlinear_arith);
            assert(0 <= qi * di - mi < di);
            assert(-mi == (-qi) * di + (qi * di - mi)) by (nonlinear_arith);
            vstd::arithmetic::div_mod::lemma_fundamental_div_mod_converse(
                -mi,
                di,
                -qi,
                qi * di - mi,
            );
        }
        -(q as i64)
    }
}

/// Ceiling division for a positive divisor.
pub fn div_ceil(a: i64, d: i64) -> (r: i64)
    requires
        0 < d <= 0x1000_0000,
        -0x1000_0000_0000_0000 <= a <= 0xFFF_FFFF_0000_0000,
    ensures
        r == (a + d - 1) as int / d as int,
        a <= d * r,
        d * r < a + d,
{
    let r = div_floor(a + d - 1, d);
    r
}

/// Exact byte-for-byte equality of two byte slices, for comparing
/// identifier strings against their known spellings.
pub fn bytes_eq(a: &[u8], b: &[u8]) -> (r: bool)
    ensures
        r == (a@ == b@),
{
    let n = a.len();
    if n != b.len() {
        proof {
            assert(a@.len() != b@.len());
        }
        return false;
    }
    let mut i: usize = 0;
    while i < n
        invariant
            0 <= i <= n,
            n == a@.len(),
            n == b@.len(),
            forall|j: int| 0 <= j < i ==> a@[j] == b@[j],
        decreases n - i,
    {
        if a[i] != b[i] {
            return false;
        }
        i = i + 1;
    }
    proof {
        assert(a@ =~= b@);
    }
    true
}

/// Integer square root, rounded down.
pub open spec fn isqrt_spec(n: int) -> int
    decreases n,
{
    if n <= 0 {
        0
    } else {
        let r = isqrt_spec(n - 1);
        if (r + 1) * (r + 1) <= n {
            r + 1
        } else {
            r
        }
    }
}

pub proof fn lemma_isqrt_bounds(n: int)
    requires
        n >= 0,
    ensures
        0 <= isqrt_spec(n),
        isqrt_spec(n) * isqrt_spec(n) <= n,
        n < (isqrt_spec(n) + 1) * (isqrt_spec(n) + 1),
    decreases n,
{
    if n <= 0 {
    } else {
        lemma_isqrt_bounds(n - 1);
        let p = isqrt_spec(n - 1);
        let r = isqrt_spec(n);
        if (p + 1) * (p + 1) <= n {
            assert(r == p + 1);
            assert(r * r <= n && n < (r + 1) * (r + 1)) by (nonlinear_arith)
                requires
                    r == p + 1,
                    (p + 1) * (p + 1) <= n,
                    n <= (n - 1) + 1,
                    (n - 1) < (p + 1) * (p + 1),
                    p >= 0,
            ;
        } else {
            assert(r == p);
            assert(r * r <= n && n < (r + 1) * (r + 1)) by (nonlinear_arith)
                requires
                    r == p,
                    p * p <= n - 1,
                    !((p + 1) * (p + 1) <= n),
            ;
        }
    }
}

/// Any value squeezed between consecutive squares is the integer root.
pub proof fn lemma_isqrt_unique(n: int, r: int)
    requires
        0 <= r,
        r * r <= n,
        n < (r + 1) * (r + 1),
    ensures
        r == isqrt_spec(n),
{
    lemma_isqrt_bounds(n);
    let s = isqrt_spec(n);
    assert(r == s) by (nonlinear_arith)
        requires
            r * r <= n,
            n < (r + 1) * (r + 1),
            s * s <= n,
            n < (s + 1) * (s + 1),
            r >= 0,
            s >= 0,
    ;
}

/// Integer square root of a 64-bit value by binary search.
pub fn isqrt(n: u64) -> (r: u64)
    ensures
        r == isqrt_spec(n as int),
        r <= 0x1_0000_0000,
{
    let mut lo: u64 = 0;
    let mut hi: u64 = 0x1_0000_0000;
    assert((0x1_0000_0000 as int) * (0x1_0000_0000 as int) > n as int);
    while hi - lo > 1
        invariant
            lo < hi,
            hi <= 0x1_0000_0000,
            lo * lo <= n,
            (n as int) < (hi as int) * (hi as int),
        decreases hi - lo,
    {
        let mid: u64 = lo + (hi - lo) / 2;
        assert((mid as int) * (mid as int) <= 0x1_0000_0000_0000_0000) by (nonlinear_arith)
            requires
                0 <= mid <= 0x1_0000_0000,
        ;
        let sq: u128 = (mid as u128) * (mid as u128);
        if sq <= (n as u128) {
            lo = mid;
        } else {
            hi = mid;
        }
    }
    proof {
        lemma_isqrt_unique(n as int, lo as int);
    }
    lo
}

} // verus!
