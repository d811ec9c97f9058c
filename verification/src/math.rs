//! Exact integer helpers: greatest common divisor, integer square root, and
//! division that truncates toward zero (the rounding the physics step uses).

use vstd::prelude::*;

verus! {

/// Greatest common divisor of two naturals, by Euclid's recursion.
pub open spec fn spec_gcd(a: nat, b: nat) -> nat
    decreases b,
{
    if b == 0 {
        a
    } else {
        spec_gcd(b, a % b)
    }
}

/// The gcd divides both arguments and is positive unless both are zero.
pub proof fn lemma_gcd_divides(a: nat, b: nat)
    ensures
        b > 0 || a > 0 ==> spec_gcd(a, b) > 0,
        spec_gcd(a, b) > 0 ==> a % spec_gcd(a, b) == 0,
        spec_gcd(a, b) > 0 ==> b % spec_gcd(a, b) == 0,
    decreases b,
{
    if b == 0 {
        if a > 0 {
            assert(a % a == 0) by (nonlinear_arith)
                requires a > 0;
        }
    } else {
        lemma_gcd_divides(b, a % b);
        let g = spec_gcd(a, b);
        assert(g == spec_gcd(b, a % b));
        if g > 0 {
            // a == (a / b) * b + a % b, and g divides b and a % b.
            assert(b % g == 0);
            assert((a % b) % g == 0);
            lemma_div_sum(a, b, g);
        }
    }
}

/// If g divides b and a % b, then g divides a.
proof fn lemma_div_sum(a: nat, b: nat, g: nat)
    requires
        b > 0,
        g > 0,
        b % g == 0,
        (a % b) % g == 0,
    ensures
        a % g == 0,
{
    let q = a / b;
    let r = a % b;
    assert(a == q * b + r) by (nonlinear_arith)
        requires b > 0, q == a / b, r == a % b;
    let qb = b / g;
    let qr = r / g;
    assert(b == qb * g) by (nonlinear_arith)
        requires g > 0, b % g == 0, qb == b / g;
    assert(r == qr * g) by (nonlinear_arith)
        requires g > 0, r % g == 0, qr == r / g;
    assert(a == (q * qb + qr) * g) by (nonlinear_arith)
        requires a == q * b + r, b == qb * g, r == qr * g;
    assert(a % g == 0) by (nonlinear_arith)
        requires g > 0, a == (q * qb + qr) * g;
}

/// A positive number divisible by `g > 0` is at least `g`.
pub proof fn lemma_divisor_le(a: nat, g: nat)
    requires
        g > 0,
        a > 0,
        a % g == 0,
    ensures
        g <= a,
{
    if g > a {
        assert(a % g == a) by (nonlinear_arith)
            requires 0 < a < g;
    }
}

/// Euclid's algorithm.
pub fn gcd64(a: u64, b: u64) -> (g: u64)
    ensures
        g == spec_gcd(a as nat, b as nat),
{
    let mut x = a;
    let mut y = b;
    while y != 0
        invariant
            spec_gcd(x as nat, y as nat) == spec_gcd(a as nat, b as nat),
        decreases y,
    {
        let r = x % y;
        x = y;
        y = r;
    }
    x
}

/// Floor of the square root, as a recursion over `x`.
pub open spec fn spec_isqrt(x: nat) -> nat
    decreases x,
{
    if x == 0 {
        0
    } else {
        let r = spec_isqrt((x - 1) as nat);
        if (r + 1) * (r + 1) <= x {
            r + 1
        } else {
            r
        }
    }
}

/// `spec_isqrt(x)` is the unique `r` with `r * r <= x < (r + 1) * (r + 1)`.
pub proof fn lemma_isqrt_bounds(x: nat)
    ensures
        spec_isqrt(x) * spec_isqrt(x) <= x,
        x < (spec_isqrt(x) + 1) * (spec_isqrt(x) + 1),
    decreases x,
{
    if x == 0 {
        assert(spec_isqrt(0) == 0);
        assert(spec_isqrt(x) * spec_isqrt(x) <= x);
        assert(x < (spec_isqrt(x) + 1) * (spec_isqrt(x) + 1)) by (nonlinear_arith)
            requires x == 0, spec_isqrt(x) == 0;
    } else {
        lemma_isqrt_bounds((x - 1) as nat);
        let r = spec_isqrt((x - 1) as nat);
        assert(r * r <= x - 1);
        assert(x - 1 < (r + 1) * (r + 1));
        if (r + 1) * (r + 1) <= x {
            assert(spec_isqrt(x) == r + 1);
            assert(x == (r + 1) * (r + 1));
            assert((r + 1) * (r + 1) < (r + 2) * (r + 2)) by (nonlinear_arith)
                requires r >= 0;
        } else {
            assert(spec_isqrt(x) == r);
            assert(x < (r + 1) * (r + 1));
        }
    }
}

/// Any `r` in the square-root bracket equals `spec_isqrt(x)`.
pub proof fn lemma_isqrt_unique(x: nat, r: nat)
    requires
        r * r <= x,
        x < (r + 1) * (r + 1),
    ensures
        r == spec_isqrt(x),
{
    lemma_isqrt_bounds(x);
    let s = spec_isqrt(x);
    if r < s {
        assert((r + 1) * (r + 1) <= s * s) by (nonlinear_arith)
            requires r + 1 <= s;
    }
    if s < r {
        assert((s + 1) * (s + 1) <= r * r) by (nonlinear_arith)
            requires s + 1 <= r;
    }
}

/// Floor of the square root, by binary search.
pub fn isqrt64(x: u64) -> (r: u64)
    ensures
        r == spec_isqrt(x as nat),
        r * r <= x,
{
    let mut lo: u64 = 0;
    let mut hi: u64 = 0x1_0000_0000;
    while lo + 1 < hi
        invariant
            lo < hi <= 0x1_0000_0000,
            lo * lo <= x,
            x < hi * hi,
        decreases hi - lo,
    {
        let mid = lo + (hi - lo) / 2;
        assert(lo < mid < hi);
        assert(mid * mid <= 0xffff_ffff * 0xffff_ffff) by (nonlinear_arith)
            requires mid <= 0xffff_ffff;
        if mid * mid <= x {
            lo = mid;
        } else {
            hi = mid;
        }
    }
    proof {
        lemma_isqrt_unique(x as nat, lo as nat);
    }
    lo
}

/// Quotient truncated toward zero, as Rust's `/` computes it.
pub open spec fn spec_tdiv(a: int, b: int) -> int {
    if a >= 0 {
        a / b
    } else {
        -((-a) / b)
    }
}

/// `|spec_tdiv(a, b)| <= |a|` for positive divisors.
pub proof fn lemma_tdiv_bounds(a: int, b: int)
    requires
        b > 0,
    ensures
        a >= 0 ==> 0 <= spec_tdiv(a, b) <= a,
        a < 0 ==> a <= spec_tdiv(a, b) <= 0,
{
    if a >= 0 {
        assert(0 <= a / b <= a) by (nonlinear_arith)
            requires a >= 0, b > 0;
    } else {
        assert(0 <= (-a) / b <= -a) by (nonlinear_arith)
            requires -a >= 0, b > 0;
    }
}

/// Division truncating toward zero.
pub fn tdiv64(a: i64, b: i64) -> (q: i64)
    requires
        b > 0,
        a > i64::MIN,
    ensures
        q == spec_tdiv(a as int, b as int),
        a >= 0 ==> 0 <= q <= a,
        a < 0 ==> a <= q <= 0,
{
    proof {
        lemma_tdiv_bounds(a as int, b as int);
    }
    if a >= 0 {
        (a as u64 / b as u64) as i64
    } else {
        let q = (-a) as u64 / b as u64;
        -(q as i64)
    }
}

/// Quotient rounded away from zero: resolution pushes round outward so a
/// resolved contact never remains in strict overlap along its axis.
pub open spec fn spec_tdiv_away(a: int, b: int) -> int {
    if a >= 0 {
        (a + b - 1) / b
    } else {
        -((-a + b - 1) / b)
    }
}

/// `|spec_tdiv_away(a, b)| <= |a|` for `b >= 1`, and the scaled quotient
/// covers `a` (its magnitude is at least `|a| / b` rounded up).
pub proof fn lemma_tdiv_away_bounds(a: int, b: int)
    requires
        b > 0,
    ensures
        a >= 0 ==> 0 <= spec_tdiv_away(a, b) <= a,
        a < 0 ==> a <= spec_tdiv_away(a, b) <= 0,
        a >= 0 ==> spec_tdiv_away(a, b) * b >= a,
        a < 0 ==> spec_tdiv_away(a, b) * b <= a,
{
    if a >= 0 {
        assert(0 <= (a + b - 1) / b <= a && ((a + b - 1) / b) * b >= a) by (nonlinear_arith)
            requires a >= 0, b > 0;
    } else {
        let m = (-a + b - 1) / b;
        assert(0 <= m <= -a && m * b >= -a) by (nonlinear_arith)
            requires a < 0, b > 0, m == (-a + b - 1) / b;
        assert((-m) * b == -(m * b)) by (nonlinear_arith);
        assert(spec_tdiv_away(a, b) == -m);
    }
}

/// Division rounding away from zero.
pub fn tdiv_away64(a: i64, b: i64) -> (q: i64)
    requires
        0 < b <= 0x4000_0000_0000_0000,
        -0x4000_0000_0000_0000 <= a <= 0x4000_0000_0000_0000,
    ensures
        q == spec_tdiv_away(a as int, b as int),
        a >= 0 ==> 0 <= q <= a,
        a < 0 ==> a <= q <= 0,
{
    proof {
        lemma_tdiv_away_bounds(a as int, b as int);
    }
    if a >= 0 {
        ((a as u64 + b as u64 - 1) / b as u64) as i64
    } else {
        let n = (-a) as u64;
        let q = (n + b as u64 - 1) / b as u64;
        -(q as i64)
    }
}

/// Clamp into `[-bound, bound]`.
pub fn clamp64(x: i64, bound: i64) -> (r: i64)
    requires
        bound >= 0,
    ensures
        r == spec_clamp(x as int, bound as int),
        -bound <= r <= bound,
{
    if x > bound {
        bound
    } else if x < -bound {
        -bound
    } else {
        x
    }
}

/// The clamp of `x` into `[-bound, bound]`.
pub open spec fn spec_clamp(x: int, bound: int) -> int {
    if x > bound {
        bound
    } else if x < -bound {
        -bound
    } else {
        x
    }
}

} // verus!
