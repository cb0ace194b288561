use vstd::prelude::*;

verus! {

/// Largest magnitude allowed for one component of a sample, in micro-units.
pub const COMPONENT_LIMIT: i64 = 1_099_511_627_776;

/// Number of fixed-point steps per unit: values are stored in micro-units.
pub const UNIT: i64 = 1_000_000;

/// A three-component sample or vector in fixed point: each component counts
/// millionths of the physical unit (rad/s, m/s², or field units).
#[derive(Debug, Clone, Copy, PartialEq, Eq, Structural)]
pub struct Vec3 {
    pub x: i64,
    pub y: i64,
    pub z: i64,
}

/// A 3×3 matrix given by its rows; entries are fixed point like `Vec3`.
#[derive(Debug, Clone, Copy, PartialEq, Eq, Structural)]
pub struct Mat3 {
    pub r0: Vec3,
    pub r1: Vec3,
    pub r2: Vec3,
}

/// The value `|c| <= lim`.
pub open spec fn within(c: int, lim: int) -> bool {
    -lim <= c <= lim
}

impl Vec3 {
    /// Component `axis` (0 = x, 1 = y, anything else = z).
    pub open spec fn comp(self, axis: int) -> int {
        if axis == 0 {
            self.x as int
        } else if axis == 1 {
            self.y as int
        } else {
            self.z as int
        }
    }

    /// Every component lies within `COMPONENT_LIMIT`.
    pub open spec fn in_range(self) -> bool {
        &&& within(self.x as int, COMPONENT_LIMIT as int)
        &&& within(self.y as int, COMPONENT_LIMIT as int)
        &&& within(self.z as int, COMPONENT_LIMIT as int)
    }

    /// The vector with the given components.
    pub fn new(x: i64, y: i64, z: i64) -> (r: Vec3)
        ensures
            r == (Vec3 { x, y, z }),
    {
        Vec3 { x, y, z }
    }

    /// The zero vector.
    pub fn zeros() -> (r: Vec3)
        ensures
            r == (Vec3 { x: 0, y: 0, z: 0 }),
    {
        Vec3 { x: 0, y: 0, z: 0 }
    }

    /// Component `axis` (0 = x, 1 = y, 2 = z).
    pub fn get(&self, axis: usize) -> (r: i64)
        requires
            axis < 3,
        ensures
            r == self.comp(axis as int),
    {
        if axis == 0 {
            self.x
        } else if axis == 1 {
            self.y
        } else {
            self.z
        }
    }

    /// Whether every component lies within `COMPONENT_LIMIT`.
    pub fn is_in_range(&self) -> (r: bool)
        ensures
            r == self.in_range(),
    {
        -COMPONENT_LIMIT <= self.x && self.x <= COMPONENT_LIMIT && -COMPONENT_LIMIT <= self.y
            && self.y <= COMPONENT_LIMIT && -COMPONENT_LIMIT <= self.z && self.z
            <= COMPONENT_LIMIT
    }
}

impl Mat3 {
    /// Every entry lies within `lim`.
    pub open spec fn entries_within(self, lim: int) -> bool {
        &&& forall|a: int| 0 <= a < 3 ==> within(#[trigger] self.r0.comp(a), lim)
        &&& forall|a: int| 0 <= a < 3 ==> within(#[trigger] self.r1.comp(a), lim)
        &&& forall|a: int| 0 <= a < 3 ==> within(#[trigger] self.r2.comp(a), lim)
    }

    /// Whether every entry lies within `lim`.
    pub fn is_within(&self, lim: i64) -> (r: bool)
        requires
            lim >= 0,
        ensures
            r == self.entries_within(lim as int),
    {
        let ok0 = -lim <= self.r0.x && self.r0.x <= lim && -lim <= self.r0.y && self.r0.y <= lim
            && -lim <= self.r0.z && self.r0.z <= lim;
        let ok1 = -lim <= self.r1.x && self.r1.x <= lim && -lim <= self.r1.y && self.r1.y <= lim
            && -lim <= self.r1.z && self.r1.z <= lim;
        let ok2 = -lim <= self.r2.x && self.r2.x <= lim && -lim <= self.r2.y && self.r2.y <= lim
            && -lim <= self.r2.z && self.r2.z <= lim;
        proof {
            if !ok0 {
                assert(!within(self.r0.comp(0), lim as int) || !within(self.r0.comp(1), lim as int)
                    || !within(self.r0.comp(2), lim as int));
            }
            if !ok1 {
                assert(!within(self.r1.comp(0), lim as int) || !within(self.r1.comp(1), lim as int)
                    || !within(self.r1.comp(2), lim as int));
            }
            if !ok2 {
                assert(!within(self.r2.comp(0), lim as int) || !within(self.r2.comp(1), lim as int)
                    || !within(self.r2.comp(2), lim as int));
            }
        }
        ok0 && ok1 && ok2
    }

    /// Row `i` (0, 1, anything else = 2).
    pub open spec fn row(self, i: int) -> Vec3 {
        if i == 0 {
            self.r0
        } else if i == 1 {
            self.r1
        } else {
            self.r2
        }
    }
}

/// Squared Euclidean distance between two vectors.
pub open spec fn dist2(a: Vec3, b: Vec3) -> int {
    (a.x - b.x) * (a.x - b.x) + (a.y - b.y) * (a.y - b.y) + (a.z - b.z) * (a.z - b.z)
}

/// If `c * lo <= s <= c * hi` with `c > 0`, the floor of `s / c` lies in `[lo, hi]`.
pub proof fn lemma_div_between(s: int, c: int, lo: int, hi: int)
    requires
        c > 0,
        c * lo <= s <= c * hi,
    ensures
        lo <= s / c <= hi,
{
    vstd::arithmetic::div_mod::lemma_fundamental_div_mod(s, c);
    let q = s / c;
    let r = s % c;
    assert(lo <= q) by (nonlinear_arith)
        requires
            s == c * q + r,
            0 <= r < c,
            c * lo <= s,
            c > 0,
    ;
    assert(q <= hi) by (nonlinear_arith)
        requires
            s == c * q + r,
            0 <= r,
            s <= c * hi,
            c > 0,
    ;
}

/// Floor division of `a` by a positive `b`.
pub fn div_floor(a: i128, b: i128) -> (q: i128)
    requires
        b > 0,
    ensures
        q == a / b,
{
    if a >= 0 {
        a / b
    } else {
        let t = (-1 - a) / b;
        proof {
            let ai = a as int;
            let bi = b as int;
            let n: int = -1 - ai;
            assert(t as int == n / bi);
            vstd::arithmetic::div_mod::lemma_fundamental_div_mod(n, bi);
            vstd::arithmetic::div_mod::lemma_fundamental_div_mod(ai, bi);
            let qa = ai / bi;
            let ra = ai % bi;
            let rn = n % bi;
            assert(bi * (qa + t + 1) == bi - 1 - rn - ra) by (nonlinear_arith)
                requires
                    ai == bi * qa + ra,
                    n == bi * t + rn,
                    n == -1 - ai;
            assert(qa + t + 1 == 0) by (nonlinear_arith)
                requires
                    bi * (qa + t + 1) == bi - 1 - rn - ra,
                    0 <= rn < bi,
                    0 <= ra < bi;
        }
        -t - 1
    }
}

/// Whether `r` is the integer square root of `n`: `r² <= n < (r + 1)²`.
pub open spec fn is_sqrt_of(r: int, n: int) -> bool {
    r >= 0 && r * r <= n < (r + 1) * (r + 1)
}

/// The integer square root of `n >= 0` (the largest `r` with `r² <= n`).
pub open spec fn int_sqrt(n: int) -> int {
    choose|r: int| is_sqrt_of(r, n)
}

/// Integer square roots are unique.
pub proof fn lemma_sqrt_unique(r: int, s: int, n: int)
    requires
        is_sqrt_of(r, n),
        is_sqrt_of(s, n),
    ensures
        r == s,
{
    if r < s {
        assert((r + 1) * (r + 1) <= s * s) by (nonlinear_arith)
            requires 0 <= r < s;
    } else if s < r {
        assert((s + 1) * (s + 1) <= r * r) by (nonlinear_arith)
            requires 0 <= s < r;
    }
}

/// Integer square root, by bisection.
pub fn isqrt(n: u128) -> (r: u64)
    ensures
        is_sqrt_of(r as int, n as int),
        r == int_sqrt(n as int),
{
    let mut lo: u128 = 0;
    let mut hi: u128 = 0x1_0000_0000_0000_0000;
    assert(hi * hi > n) by (nonlinear_arith)
        requires hi == 0x1_0000_0000_0000_0000int, n < 0x1_0000_0000_0000_0000_0000_0000_0000_0000int;
    while hi - lo > 1
        invariant
            lo < hi <= 0x1_0000_0000_0000_0000int,
            lo * lo <= n,
            n < hi * hi,
        decreases hi - lo,
    {
        let mid = lo + (hi - lo) / 2;
        assert(mid * mid < 0x1_0000_0000_0000_0000_0000_0000_0000_0000int) by (nonlinear_arith)
            requires 0 <= mid < 0x1_0000_0000_0000_0000int;
        if mid * mid <= n {
            lo = mid;
        } else {
            hi = mid;
        }
    }
    assert(hi == lo + 1);
    proof {
        lemma_sqrt_unique(lo as int, int_sqrt(n as int), n as int);
    }
    lo as u64
}

/// `s / n` rounded to the nearest integer, halves upward.
pub open spec fn div_round(s: int, n: int) -> int {
    (2 * s + n) / (2 * n)
}

/// If `c * lo <= s <= c * hi` with `c > 0`, the rounded quotient `s / c` lies in `[lo, hi]`.
pub proof fn lemma_round_between(s: int, c: int, lo: int, hi: int)
    requires
        c > 0,
        c * lo <= s <= c * hi,
    ensures
        lo <= div_round(s, c) <= hi,
{
    let t = 2 * s + c;
    let d = 2 * c;
    vstd::arithmetic::div_mod::lemma_fundamental_div_mod(t, d);
    let q = t / d;
    let r = t % d;
    assert(d * lo <= t && t < d * (hi + 1)) by (nonlinear_arith)
        requires
            c * lo <= s <= c * hi,
            t == 2 * s + c,
            d == 2 * c,
            c > 0,
    ;
    assert(lo <= q) by (nonlinear_arith)
        requires
            t == d * q + r,
            0 <= r < d,
            d * lo <= t,
            d > 0,
    ;
    assert(q <= hi) by (nonlinear_arith)
        requires
            t == d * q + r,
            0 <= r,
            t < d * (hi + 1),
            d > 0,
    ;
}

/// Rounding an exact multiple gives the factor back.
pub proof fn lemma_round_exact(x: int, n: int)
    requires
        n > 0,
    ensures
        div_round(n * x, n) == x,
{
    assert(2 * (n * x) + n == x * (2 * n) + n) by (nonlinear_arith);
    vstd::arithmetic::div_mod::lemma_fundamental_div_mod_converse(2 * (n * x) + n, 2 * n, x, n);
}

/// `a / b` rounded to the nearest integer, halves upward.
pub fn div_nearest(a: i128, b: i128) -> (q: i128)
    requires
        b > 0,
        -0x1000_0000_0000_0000_0000_0000_0000_0000 <= a <= 0x1000_0000_0000_0000_0000_0000_0000_0000,
        b <= 0x1000_0000_0000_0000_0000_0000_0000_0000,
    ensures
        q == div_round(a as int, b as int),
{
    div_floor(2 * a + b, 2 * b)
}

} // verus!
