//! Plain integer 2D vectors.
//!
//! World positions are measured in subunits: `SUBUNIT` subunits make one
//! world unit (one pixel of the world coordinate space). Edge normals are
//! kept as primitive integer direction vectors (components divided by their
//! gcd), so two normals point the same way exactly when they are equal.

use vstd::prelude::*;
use crate::math::{gcd64, isqrt64, tdiv64, spec_gcd, spec_isqrt, spec_tdiv};
use crate::math::{lemma_gcd_divides, lemma_isqrt_bounds, lemma_divisor_le};

verus! {

/// Subunits per world unit.
pub const SUBUNIT: i64 = 256;

/// Largest magnitude a polygon coordinate may have, in subunits.
pub const COORD_LIMIT: i64 = 0x100_0000_0000;

/// Largest magnitude a primitive axis component may have.
pub const AXIS_LIMIT: i64 = 256;

#[derive(Clone, Copy, PartialEq, Eq, Structural, Debug, Hash)]
pub struct Vec2 {
    pub x: i64,
    pub y: i64,
}

impl Vec2 {
    /// Both components lie in `[-b, b]`.
    pub open spec fn bounded(self, b: int) -> bool {
        -b <= self.x <= b && -b <= self.y <= b
    }

    /// Dot product, in unbounded integers.
    pub open spec fn spec_dot(self, o: Vec2) -> int {
        self.x * o.x + self.y * o.y
    }

    /// Squared length.
    pub open spec fn spec_sq(self) -> int {
        self.spec_dot(self)
    }

    /// The zero vector.
    pub open spec fn is_zero(self) -> bool {
        self.x == 0 && self.y == 0
    }

    pub open spec fn spec_add(self, o: Vec2) -> Vec2 {
        Vec2 { x: (self.x + o.x) as i64, y: (self.y + o.y) as i64 }
    }

    pub open spec fn spec_sub(self, o: Vec2) -> Vec2 {
        Vec2 { x: (self.x - o.x) as i64, y: (self.y - o.y) as i64 }
    }

    pub open spec fn spec_neg(self) -> Vec2 {
        Vec2 { x: -self.x as i64, y: -self.y as i64 }
    }

    /// Rotation by a quarter turn: the outward normal of edge direction `d`
    /// in this clockwise, y-down coordinate system is `d.spec_perp()`.
    pub open spec fn spec_perp(self) -> Vec2 {
        Vec2 { x: self.y, y: -self.x as i64 }
    }

    pub fn new(x: i64, y: i64) -> (r: Vec2)
        ensures
            r == (Vec2 { x, y }),
    {
        Vec2 { x, y }
    }

    pub fn add(self, o: Vec2) -> (r: Vec2)
        requires
            i64::MIN <= self.x + o.x <= i64::MAX,
            i64::MIN <= self.y + o.y <= i64::MAX,
        ensures
            r == self.spec_add(o),
            r.x == self.x + o.x,
            r.y == self.y + o.y,
    {
        Vec2 { x: self.x + o.x, y: self.y + o.y }
    }

    pub fn sub(self, o: Vec2) -> (r: Vec2)
        requires
            i64::MIN <= self.x - o.x <= i64::MAX,
            i64::MIN <= self.y - o.y <= i64::MAX,
        ensures
            r == self.spec_sub(o),
            r.x == self.x - o.x,
            r.y == self.y - o.y,
    {
        Vec2 { x: self.x - o.x, y: self.y - o.y }
    }

    pub fn neg(self) -> (r: Vec2)
        requires
            self.x > i64::MIN,
            self.y > i64::MIN,
        ensures
            r == self.spec_neg(),
            r.x == -self.x,
            r.y == -self.y,
    {
        Vec2 { x: -self.x, y: -self.y }
    }

    /// Dot product; the bounds keep both partial products and their sum
    /// inside `i64`.
    pub fn dot(self, o: Vec2) -> (r: i64)
        requires
            -0x2000_0000_0000_0000 <= self.x * o.x <= 0x2000_0000_0000_0000,
            -0x2000_0000_0000_0000 <= self.y * o.y <= 0x2000_0000_0000_0000,
        ensures
            r == self.spec_dot(o),
    {
        self.x * o.x + self.y * o.y
    }

    /// Outward-normal rotation (a quarter turn).
    pub fn perp(self) -> (r: Vec2)
        requires
            self.x > i64::MIN,
        ensures
            r == self.spec_perp(),
    {
        Vec2 { x: self.y, y: -self.x }
    }
}

/// Absolute value of an `i64` that is not `i64::MIN`.
pub fn abs64(x: i64) -> (r: i64)
    requires
        x > i64::MIN,
    ensures
        r == if x >= 0 { x as int } else { -x as int },
        r >= 0,
{
    if x >= 0 { x } else { -x }
}

/// The gcd of the component magnitudes of a nonzero vector.
pub open spec fn spec_dir_gcd(d: Vec2) -> nat {
    spec_gcd(
        (if d.x >= 0 { d.x as int } else { -(d.x as int) }) as nat,
        (if d.y >= 0 { d.y as int } else { -(d.y as int) }) as nat,
    )
}

/// The primitive vector pointing the way `d` points: components divided by
/// their gcd, so equal directions give equal primitive vectors.
pub open spec fn spec_prim(d: Vec2) -> Vec2 {
    let g = spec_dir_gcd(d) as int;
    Vec2 { x: (d.x as int / g) as i64, y: (d.y as int / g) as i64 }
}

/// Divide a multiple of `g` by `g`, keeping the sign.
fn div_exact(x: i64, g: i64) -> (r: i64)
    requires
        g > 0,
        x > i64::MIN,
        (if x >= 0 { x as int } else { -x as int }) % (g as int) == 0,
    ensures
        r == x as int / g as int,
        r * g == x,
        x > 0 ==> 0 < r <= x,
        x < 0 ==> x <= r < 0,
        x == 0 ==> r == 0,
{
    let q = tdiv64(x, g);
    proof {
        let xi = x as int;
        let gi = g as int;
        if xi >= 0 {
            assert(xi / gi * gi == xi) by (nonlinear_arith)
                requires gi > 0, xi >= 0, xi % gi == 0;
        } else {
            let m = -xi;
            assert(m / gi * gi == m) by (nonlinear_arith)
                requires gi > 0, m > 0, m % gi == 0;
            // Truncating and floor division agree because g divides x.
            assert(xi == (-(m / gi)) * gi) by (nonlinear_arith)
                requires m == -xi, m / gi * gi == m;
            assert(xi / gi == -(m / gi)) by (nonlinear_arith)
                requires gi > 0, xi == (-(m / gi)) * gi;
            assert(spec_tdiv(xi, gi) == xi / gi);
        }
        assert(q * gi == xi) by (nonlinear_arith)
            requires q == xi / gi, xi / gi * gi == xi;
        if x > 0 {
            assert(0 < q) by (nonlinear_arith)
                requires q * gi == xi, xi > 0, gi > 0;
        }
        if x < 0 {
            assert(q < 0) by (nonlinear_arith)
                requires q * gi == xi, xi < 0, gi > 0;
        }
    }
    q
}

/// Reduce a nonzero direction to its primitive vector.
pub fn prim_dir(d: Vec2) -> (r: Vec2)
    requires
        !d.is_zero(),
        d.bounded(COORD_LIMIT as int * 4),
    ensures
        r == spec_prim(d),
        !r.is_zero(),
        r.x * spec_dir_gcd(d) == d.x,
        r.y * spec_dir_gcd(d) == d.y,
        spec_dir_gcd(d) >= 1,
        d.x > 0 ==> 0 < r.x <= d.x,
        d.x < 0 ==> d.x <= r.x < 0,
        d.x == 0 ==> r.x == 0,
        d.y > 0 ==> 0 < r.y <= d.y,
        d.y < 0 ==> d.y <= r.y < 0,
        d.y == 0 ==> r.y == 0,
{
    let ax = abs64(d.x);
    let ay = abs64(d.y);
    let g = gcd64(ax as u64, ay as u64);
    proof {
        lemma_gcd_divides(ax as nat, ay as nat);
        assert(spec_dir_gcd(d) == spec_gcd(ax as nat, ay as nat));
        assert(ax > 0 || ay > 0);
        assert(g >= 1);
        if ax > 0 {
            lemma_divisor_le(ax as nat, g as nat);
        } else {
            lemma_divisor_le(ay as nat, g as nat);
        }
        assert(g <= ax || g <= ay);
        assert((ax as int) % (g as int) == 0);
        assert((ay as int) % (g as int) == 0);
    }
    let g = g as i64;
    let rx = div_exact(d.x, g);
    let ry = div_exact(d.y, g);
    proof {
        if d.x == 0 && d.y == 0 {
            assert(false);
        }
        if rx == 0 && ry == 0 {
            assert(d.x == 0 && d.y == 0);
        }
    }
    Vec2 { x: rx, y: ry }
}

/// `k * v / |v|`, evaluated in fixed point: both `k * v` components are
/// scaled by 4096 and divided by the integer square root of the scaled
/// squared length. The result's components never exceed `k` in magnitude.
pub open spec fn spec_scaled_dir(v: Vec2, k: int) -> Vec2 {
    let s = spec_isqrt((v.spec_sq() * 4096 * 4096) as nat) as int;
    Vec2 {
        x: spec_tdiv(k * v.x * 4096, s) as i64,
        y: spec_tdiv(k * v.y * 4096, s) as i64,
    }
}

/// A vector of length about `k` pointing the way `v` points.
pub fn scaled_dir(v: Vec2, k: i64) -> (r: Vec2)
    requires
        !v.is_zero(),
        v.bounded(0x1_0000),
        0 <= k <= 0x10_0000,
    ensures
        r == spec_scaled_dir(v, k as int),
        r.bounded(k as int),
{
    proof {
        assert(1 <= v.spec_sq() <= 0x2_0000_0000) by (nonlinear_arith)
            requires !v.is_zero(), v.bounded(0x1_0000);
        assert(v.x * v.x <= 0x1_0000_0000 && v.y * v.y <= 0x1_0000_0000) by (nonlinear_arith)
            requires v.bounded(0x1_0000);
        assert(v.x * v.x >= 0 && v.y * v.y >= 0) by (nonlinear_arith);
    }
    let d2 = v.dot(v);
    let s = isqrt64((d2 as u64) * 4096 * 4096);
    proof {
        let sq = (d2 as int * 4096 * 4096) as nat;
        lemma_isqrt_bounds(sq);
        let si = spec_isqrt(sq) as int;
        // s is at least 4096 * |component|, so the quotients stay within k.
        assert(d2 >= 1);
        assert(si >= 1) by (nonlinear_arith)
            requires si * si <= sq, sq < (si + 1) * (si + 1), sq >= 4096 * 4096;
        let ax = if v.x >= 0 { v.x as int } else { -v.x as int };
        let ay = if v.y >= 0 { v.y as int } else { -v.y as int };
        assert(ax * ax <= d2 && ay * ay <= d2) by (nonlinear_arith)
            requires
                d2 == v.x * v.x + v.y * v.y,
                ax == (if v.x >= 0 { v.x as int } else { -v.x as int }),
                ay == (if v.y >= 0 { v.y as int } else { -v.y as int });
        assert(ax * 4096 * (ax * 4096) <= sq) by (nonlinear_arith)
            requires ax * ax <= d2, sq == d2 as int * 4096 * 4096, ax >= 0;
        assert(ay * 4096 * (ay * 4096) <= sq) by (nonlinear_arith)
            requires ay * ay <= d2, sq == d2 as int * 4096 * 4096, ay >= 0;
        assert(si <= 0x2000_0000) by (nonlinear_arith)
            requires si * si <= sq, sq <= 0x200_0000_0000_0000, si >= 0;
        assert(si >= ax * 4096) by (nonlinear_arith)
            requires ax * 4096 * (ax * 4096) <= sq, sq < (si + 1) * (si + 1), si >= 0, ax >= 0;
        assert(si >= ay * 4096) by (nonlinear_arith)
            requires ay * 4096 * (ay * 4096) <= sq, sq < (si + 1) * (si + 1), si >= 0, ay >= 0;
        // |k * v.x * 4096 / s| <= k because s >= |v.x| * 4096.
        lemma_scaled_component(k as int, v.x as int, si);
        lemma_scaled_component(k as int, v.y as int, si);
        assert(-0x1_0000_0000_0000 <= k * v.x <= 0x1_0000_0000_0000) by (nonlinear_arith)
            requires 0 <= k <= 0x10_0000, -0x1_0000 <= v.x <= 0x1_0000;
        assert(-0x1_0000_0000_0000 <= k * v.y <= 0x1_0000_0000_0000) by (nonlinear_arith)
            requires 0 <= k <= 0x10_0000, -0x1_0000 <= v.y <= 0x1_0000;
    }
    let rx = tdiv64(k * v.x * 4096, s as i64);
    let ry = tdiv64(k * v.y * 4096, s as i64);
    Vec2 { x: rx, y: ry }
}

/// The scaled quotient `k * c * 4096 / s` stays within `[-k, k]` when
/// `s >= |c| * 4096`.
proof fn lemma_scaled_component(k: int, c: int, s: int)
    requires
        k >= 0,
        s >= 1,
        c >= 0 ==> s >= c * 4096,
        c < 0 ==> s >= -c * 4096,
    ensures
        -k <= spec_tdiv(k * c * 4096, s) <= k,
{
    if c >= 0 {
        assert(0 <= k * c * 4096 / s <= k) by (nonlinear_arith)
            requires k >= 0, c >= 0, s >= 1, s >= c * 4096;
    } else {
        let m = k * (-c) * 4096;
        assert(-(k * c * 4096) == m) by (nonlinear_arith)
            requires m == k * (-c) * 4096;
        assert(0 <= m / s <= k) by (nonlinear_arith)
            requires k >= 0, -c > 0, s >= 1, s >= -c * 4096, m == k * (-c) * 4096;
    }
}

/// The primitive vector of each axis-aligned or diagonal step of length
/// `s > 0` is the corresponding unit-step vector.
pub proof fn lemma_prim_steps(s: i64)
    requires
        0 < s <= 0x10_0000,
    ensures
        spec_prim(Vec2 { x: s, y: 0 }) == (Vec2 { x: 1, y: 0 }),
        spec_prim(Vec2 { x: -s as i64, y: 0 }) == (Vec2 { x: (-1) as i64, y: 0 }),
        spec_prim(Vec2 { x: 0, y: s }) == (Vec2 { x: 0, y: 1 }),
        spec_prim(Vec2 { x: 0, y: -s as i64 }) == (Vec2 { x: 0, y: (-1) as i64 }),
        spec_prim(Vec2 { x: s, y: s }) == (Vec2 { x: 1, y: 1 }),
        spec_prim(Vec2 { x: -s as i64, y: s }) == (Vec2 { x: (-1) as i64, y: 1 }),
        spec_prim(Vec2 { x: s, y: -s as i64 }) == (Vec2 { x: 1, y: (-1) as i64 }),
        spec_prim(Vec2 { x: -s as i64, y: -s as i64 })
            == (Vec2 { x: (-1) as i64, y: (-1) as i64 }),
{
    let si = s as int;
    assert(spec_gcd(si as nat, 0) == si as nat);
    assert(si as nat % si as nat == 0) by (nonlinear_arith)
        requires si > 0;
    assert(spec_gcd(si as nat, si as nat) == spec_gcd(si as nat, 0));
    assert(si / si == 1) by (nonlinear_arith)
        requires si > 0;
    assert(0int / si == 0) by (nonlinear_arith)
        requires si > 0;
    assert((-si) / si == -1) by (nonlinear_arith)
        requires si > 0;
    assert(spec_dir_gcd(Vec2 { x: s, y: 0 }) == si as nat);
    assert(spec_dir_gcd(Vec2 { x: -s as i64, y: 0 }) == si as nat);
    assert(spec_dir_gcd(Vec2 { x: 0, y: s }) == spec_gcd(0, si as nat));
    assert(spec_gcd(0, si as nat) == spec_gcd(si as nat, 0)) by {
        assert(0int % si == 0) by (nonlinear_arith)
            requires si > 0;
    }
    assert(spec_dir_gcd(Vec2 { x: s, y: s }) == si as nat);
}


} // verus!
