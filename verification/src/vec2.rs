//! Fixed-point 2D vectors.
//!
//! Components are integer milli-units: `1000` is one world unit.
//! Lengths are measured by the floor of the Euclidean norm, so a
//! length of `6000` means six world units at milli resolution.

use vstd::prelude::*;
use vstd::arithmetic::div_mod::{lemma_fundamental_div_mod, lemma_mod_division_less_than_divisor};

verus! {

/// One world unit, in milli-units.
pub const MILLI: i64 = 1000;

/// Upper bound on the magnitude of any component accepted by the
/// length-based operations; keeps every square sum within `i64`.
pub const COMP_MAX: i64 = 1400000000;

/// Largest argument the integer square root accepts.
pub const SQ_MAX: i64 = 4000000000000000000;

/// Absolute value of a mathematical integer.
pub open spec fn abs_i(a: int) -> int {
    if a >= 0 {
        a
    } else {
        -a
    }
}

/// Truncating division (the semantics of `/` on signed machine
/// integers) of `a` by a positive `b`.
pub open spec fn div_t(a: int, b: int) -> int
    recommends
        b > 0,
{
    if a >= 0 {
        a / b
    } else {
        -((-a) / b)
    }
}

/// `r` is the floor of the square root of `n`.
pub open spec fn is_sqrt(n: int, r: int) -> bool {
    0 <= r && r * r <= n && n < (r + 1) * (r + 1)
}

/// The floor of the square root of a non-negative integer.
pub open spec fn sqrt_f(n: int) -> int {
    choose|r: int| is_sqrt(n, r)
}

/// The floor of the square root is unique.
pub proof fn lemma_sqrt_unique(n: int, a: int, b: int)
    requires
        is_sqrt(n, a),
        is_sqrt(n, b),
    ensures
        a == b,
{
    if a < b {
        assert((a + 1) * (a + 1) <= b * b) by (nonlinear_arith)
            requires
                0 <= a,
                0 <= b,
                a < b,
        ;
    }
    if b < a {
        assert((b + 1) * (b + 1) <= a * a) by (nonlinear_arith)
            requires
                0 <= a,
                0 <= b,
                b < a,
        ;
    }
}

/// Every non-negative integer has a floor square root, and `sqrt_f`
/// denotes it.
pub proof fn lemma_sqrt_exists(n: int)
    requires
        n >= 0,
    ensures
        is_sqrt(n, sqrt_f(n)),
    decreases n,
{
    if n == 0 {
        assert(is_sqrt(0, 0));
    } else {
        lemma_sqrt_exists(n - 1);
        let r = sqrt_f(n - 1);
        if (r + 1) * (r + 1) <= n {
            assert(n - 1 < (r + 1) * (r + 1));
            assert(n < (r + 2) * (r + 2)) by (nonlinear_arith)
                requires
                    0 <= r,
                    n == (r + 1) * (r + 1),
            ;
            assert(is_sqrt(n, r + 1));
        } else {
            assert(is_sqrt(n, r));
        }
    }
    let w = choose|w: int| is_sqrt(n, w);
    assert(is_sqrt(n, w));
}

/// Division facts used throughout: the magnitude of a truncating
/// quotient is the Euclidean quotient of the magnitudes.
pub proof fn lemma_div_t_facts(a: int, b: int)
    requires
        b >= 1,
    ensures
        abs_i(div_t(a, b)) == abs_i(a) / b,
        b * abs_i(div_t(a, b)) <= abs_i(a),
        abs_i(a) < b * (abs_i(div_t(a, b)) + 1),
        a >= 0 ==> div_t(a, b) >= 0,
        a < 0 ==> div_t(a, b) <= 0,
{
    let m = abs_i(a);
    lemma_fundamental_div_mod(m, b);
    lemma_mod_division_less_than_divisor(m, b);
    assert(m == b * (m / b) + m % b);
    assert(0 <= m % b < b);
    assert(m / b >= 0) by {
        if m / b < 0 {
            assert(b * (m / b) <= -b) by (nonlinear_arith)
                requires
                    b >= 1,
                    m / b <= -1,
            ;
        }
    }
    assert(b * (m / b + 1) == b * (m / b) + b) by (nonlinear_arith);
    assert(m < b * (m / b + 1));
}

/// A quotient of non-negative values does not exceed the dividend.
pub proof fn lemma_div_t_le(a: int, b: int, c: int)
    requires
        b >= 1,
        abs_i(a) <= b * c,
        c >= 0,
    ensures
        abs_i(div_t(a, b)) <= c,
{
    lemma_div_t_facts(a, b);
    assert(b * abs_i(div_t(a, b)) <= b * c);
    if abs_i(div_t(a, b)) > c {
        assert(b * abs_i(div_t(a, b)) >= b * (c + 1)) by (nonlinear_arith)
            requires
                b >= 1,
                abs_i(div_t(a, b)) >= c + 1,
        ;
        assert(b * (c + 1) > b * c) by (nonlinear_arith)
            requires
                b >= 1,
        ;
        assert(abs_i(a) >= b * (c + 1));
        assert(false);
    }
}

/// The components of a vector as a pair of mathematical integers.
pub open spec fn v2p(v: Vec2i) -> (int, int) {
    (v.x as int, v.y as int)
}

/// Component-wise sum of integer pairs.
pub open spec fn plus2(a: (int, int), b: (int, int)) -> (int, int) {
    (a.0 + b.0, a.1 + b.1)
}

/// Component-wise difference of integer pairs.
pub open spec fn minus2(a: (int, int), b: (int, int)) -> (int, int) {
    (a.0 - b.0, a.1 - b.1)
}

/// Squared Euclidean norm of an integer pair.
pub open spec fn sq2(a: (int, int)) -> int {
    a.0 * a.0 + a.1 * a.1
}

/// Scaling by a milli-unit factor, rounding toward zero.
pub open spec fn scale2(a: (int, int), k: int) -> (int, int) {
    (div_t(a.0 * k, 1000), div_t(a.1 * k, 1000))
}

/// Division of both components by a positive count.
pub open spec fn divn2(a: (int, int), n: int) -> (int, int) {
    (div_t(a.0, n), div_t(a.1, n))
}

/// Normalization to milli-unit length; zero stays zero.
pub open spec fn norm2(a: (int, int)) -> (int, int) {
    if sq2(a) == 0 {
        (0, 0)
    } else {
        (div_t(a.0 * 1000, sqrt_f(sq2(a))), div_t(a.1 * 1000, sqrt_f(sq2(a))))
    }
}

/// Clamping to a maximum floor norm.
pub open spec fn clamp2(a: (int, int), m: int) -> (int, int) {
    if sq2(a) <= m * m {
        a
    } else {
        (div_t(a.0 * m, sqrt_f(sq2(a))), div_t(a.1 * m, sqrt_f(sq2(a))))
    }
}

/// Floor of the Euclidean distance between two integer pairs.
pub open spec fn dist2(a: (int, int), b: (int, int)) -> int {
    sqrt_f(sq2(minus2(a, b)))
}

/// A fixed-point 2D vector; each component is in milli-units.
#[derive(Clone, Copy, PartialEq, Eq, Structural, Debug)]
pub struct Vec2i {
    pub x: i64,
    pub y: i64,
}

impl Vec2i {
    /// The square of the Euclidean norm.
    pub open spec fn sq_len(self) -> int {
        self.x * self.x + self.y * self.y
    }

    /// Both components are zero.
    pub open spec fn is_zero(self) -> bool {
        self.x == 0 && self.y == 0
    }

    /// Both components have magnitude at most `b`.
    pub open spec fn within(self, b: int) -> bool {
        -b <= self.x <= b && -b <= self.y <= b
    }

    /// The floor of the Euclidean norm.
    pub open spec fn norm(self) -> int {
        sqrt_f(self.sq_len())
    }

    /// The zero vector.
    pub fn zero() -> (r: Vec2i)
        ensures
            r == (Vec2i { x: 0, y: 0 }),
    {
        Vec2i { x: 0, y: 0 }
    }

    /// Make a vector from its components.
    pub fn new(x: i64, y: i64) -> (r: Vec2i)
        ensures
            r == (Vec2i { x: x, y: y }),
    {
        Vec2i { x, y }
    }

    /// Component-wise sum.
    pub fn plus(self, o: Vec2i) -> (r: Vec2i)
        requires
            i64::MIN <= self.x + o.x <= i64::MAX,
            i64::MIN <= self.y + o.y <= i64::MAX,
        ensures
            r.x == self.x + o.x,
            r.y == self.y + o.y,
    {
        Vec2i { x: self.x + o.x, y: self.y + o.y }
    }

    /// Component-wise difference.
    pub fn minus(self, o: Vec2i) -> (r: Vec2i)
        requires
            i64::MIN <= self.x - o.x <= i64::MAX,
            i64::MIN <= self.y - o.y <= i64::MAX,
        ensures
            r.x == self.x - o.x,
            r.y == self.y - o.y,
    {
        Vec2i { x: self.x - o.x, y: self.y - o.y }
    }

    /// Scale by a factor given in milli-units: `k == 1000` is the
    /// identity up to rounding toward zero.
    pub fn scale_milli(self, k: i64) -> (r: Vec2i)
        requires
            i64::MIN <= self.x * k <= i64::MAX,
            i64::MIN <= self.y * k <= i64::MAX,
        ensures
            r.x == div_t(self.x * k, MILLI as int),
            r.y == div_t(self.y * k, MILLI as int),
    {
        let rx: i64 = (self.x * k) / MILLI;
        let ry: i64 = (self.y * k) / MILLI;
        Vec2i { x: rx, y: ry }
    }

    /// Divide both components by a positive count, rounding toward
    /// zero.
    pub fn div_n(self, n: i64) -> (r: Vec2i)
        requires
            n >= 1,
        ensures
            r.x == div_t(self.x as int, n as int),
            r.y == div_t(self.y as int, n as int),
    {
        Vec2i { x: self.x / n, y: self.y / n }
    }

    /// The squared norm as a machine integer.
    pub fn sq_len_x(self) -> (r: i64)
        requires
            self.within(COMP_MAX as int),
        ensures
            r == self.sq_len(),
            0 <= r <= SQ_MAX,
    {
        assert(self.x * self.x + self.y * self.y <= 2 * (COMP_MAX as int) * (COMP_MAX as int)
            && self.x * self.x >= 0 && self.y * self.y >= 0) by (nonlinear_arith)
            requires
                self.within(COMP_MAX as int),
        ;
        self.x * self.x + self.y * self.y
    }

    /// The floor of the Euclidean norm.
    pub fn length(self) -> (r: i64)
        requires
            self.within(COMP_MAX as int),
        ensures
            r == self.norm(),
            is_sqrt(self.sq_len(), r as int),
            0 <= r <= 2000000000,
    {
        let n = self.sq_len_x();
        let r = isqrt(n);
        proof {
            lemma_sqrt_unique(n as int, r as int, sqrt_f(n as int));
        }
        r
    }

    /// The floor of the Euclidean distance to another vector.
    pub fn dist(self, o: Vec2i) -> (r: i64)
        requires
            self.within(COMP_MAX as int / 2),
            o.within(COMP_MAX as int / 2),
        ensures
            r == (Vec2i { x: (self.x - o.x) as i64, y: (self.y - o.y) as i64 }).norm(),
            is_sqrt((self.x - o.x) * (self.x - o.x) + (self.y - o.y) * (self.y - o.y), r as int),
            0 <= r <= 2000000000,
    {
        let d = self.minus(o);
        d.length()
    }
}

impl Vec2i {
    /// Scale to (approximately) unit length, in milli-units: the
    /// result of normalizing a non-zero vector has components
    /// `c * 1000 / ‖v‖`. A vector that is zero at milli resolution
    /// normalizes to the zero vector, never to an undefined value.
    pub fn normalize_milli(self) -> (r: Vec2i)
        requires
            self.within(COMP_MAX as int / 2),
        ensures
            self.sq_len() == 0 ==> r == (Vec2i { x: 0, y: 0 }),
            self.sq_len() > 0 ==> r.x == div_t(self.x * MILLI, self.norm()) && r.y == div_t(
                self.y * MILLI,
                self.norm(),
            ),
            r.within(MILLI as int),
    {
        let n = self.sq_len_x();
        if n == 0 {
            return Vec2i { x: 0, y: 0 };
        }
        let l = isqrt(n);
        proof {
            assert(l >= 1) by {
                if l == 0 {
                    assert((n as int) < (0 + 1) * (0 + 1));
                }
            }
            assert(self.x * self.x <= n && self.y * self.y <= n) by (nonlinear_arith)
                requires
                    n == self.x * self.x + self.y * self.y,
            ;
            assert(abs_i(self.x as int) <= l && abs_i(self.y as int) <= l) by (nonlinear_arith)
                requires
                    self.x * self.x <= n,
                    self.y * self.y <= n,
                    (n as int) < (l + 1) * (l + 1),
                    l >= 0,
            ;
            assert(abs_i(self.x * MILLI) <= l * MILLI && abs_i(self.y * MILLI) <= l
                * MILLI) by (nonlinear_arith)
                requires
                    abs_i(self.x as int) <= l,
                    abs_i(self.y as int) <= l,
                    MILLI == 1000i64,
            ;
            lemma_div_t_le(self.x * MILLI, l as int, MILLI as int);
            lemma_div_t_le(self.y * MILLI, l as int, MILLI as int);
        }
        let rx: i64 = (self.x * MILLI) / l;
        let ry: i64 = (self.y * MILLI) / l;
        Vec2i { x: rx, y: ry }
    }

    /// Clamp to a maximum length: a vector no longer than `limit`
    /// comes back unchanged; a longer one is rescaled onto (the milli
    /// resolution of) the circle of radius `limit`. The result's
    /// floor norm never exceeds `limit`.
    pub fn clamp_len_max(self, limit: i64) -> (r: Vec2i)
        requires
            1 <= limit <= 1000000,
            self.within(COMP_MAX as int),
        ensures
            self.sq_len() <= limit * limit ==> r == self,
            self.sq_len() > limit * limit ==> r.x == div_t(self.x * limit, self.norm()) && r.y
                == div_t(self.y * limit, self.norm()),
            r.sq_len() <= limit * limit + 2 * limit,
            r.within(limit as int),
    {
        let n = self.sq_len_x();
        assert(1 <= limit * limit <= 1000000000000i64) by (nonlinear_arith)
            requires
                1 <= limit <= 1000000i64,
        ;
        if n <= limit * limit {
            proof {
                assert(abs_i(self.x as int) <= limit && abs_i(self.y as int)
                    <= limit) by (nonlinear_arith)
                    requires
                        self.x * self.x + self.y * self.y <= limit * limit,
                        limit >= 1,
                ;
            }
            return self;
        }
        let l = isqrt(n);
        proof {
            assert(self.x * self.x <= n && self.y * self.y <= n) by (nonlinear_arith)
                requires
                    n == self.x * self.x + self.y * self.y,
            ;
            assert(l >= limit) by {
                if l < limit {
                    assert((l + 1) * (l + 1) <= limit * limit) by (nonlinear_arith)
                        requires
                            0 <= l,
                            l < limit,
                    ;
                }
            }
            assert(abs_i(self.x as int) <= l && abs_i(self.y as int) <= l) by (nonlinear_arith)
                requires
                    self.x * self.x <= n,
                    self.y * self.y <= n,
                    (n as int) < (l + 1) * (l + 1),
                    l >= 0,
            ;
            assert(abs_i(self.x * limit) == abs_i(self.x as int) * limit && abs_i(
                self.y * limit,
            ) == abs_i(self.y as int) * limit) by (nonlinear_arith)
                requires
                    limit >= 1,
            ;
            assert(abs_i(self.x * limit) <= l * limit && abs_i(self.y * limit) <= l
                * limit) by (nonlinear_arith)
                requires
                    abs_i(self.x * limit) == abs_i(self.x as int) * limit,
                    abs_i(self.y * limit) == abs_i(self.y as int) * limit,
                    abs_i(self.x as int) <= l,
                    abs_i(self.y as int) <= l,
                    limit >= 1,
            ;
            lemma_div_t_le(self.x * limit, l as int, limit as int);
            lemma_div_t_le(self.y * limit, l as int, limit as int);
            lemma_div_t_facts(self.x * limit, l as int);
            lemma_div_t_facts(self.y * limit, l as int);
            assert(l * limit <= 2000000000000000int) by (nonlinear_arith)
                requires
                    0 <= l <= 2000000000i64,
                    0 <= limit <= 1000000i64,
            ;
        }
        let rx: i64 = (self.x * limit) / l;
        let ry: i64 = (self.y * limit) / l;
        let r = Vec2i { x: rx, y: ry };
        proof {
            let qx = abs_i(rx as int);
            let qy = abs_i(ry as int);
            let ax = abs_i(self.x as int);
            let ay = abs_i(self.y as int);
            let ll = l as int;
            let kk = limit as int;
            assert(ll * qx <= ax * kk && ll * qy <= ay * kk);
            assert(ll * ll * (qx * qx + qy * qy) <= (ax * ax + ay * ay) * (kk
                * kk)) by (nonlinear_arith)
                requires
                    ll * qx <= ax * kk,
                    ll * qy <= ay * kk,
                    qx >= 0,
                    qy >= 0,
                    ax >= 0,
                    ay >= 0,
                    ll >= 1,
                    kk >= 1,
            ;
            assert(n <= ll * ll + 2 * ll) by (nonlinear_arith)
                requires
                    (n as int) < (ll + 1) * (ll + 1),
                    ll >= 0,
            ;
            assert(ax * ax + ay * ay == n) by (nonlinear_arith)
                requires
                    ax == abs_i(self.x as int),
                    ay == abs_i(self.y as int),
                    n == self.x * self.x + self.y * self.y,
            ;
            if l == limit {
                assert(qx * qx + qy * qy <= kk * kk + 2 * kk) by (nonlinear_arith)
                    requires
                        ll * ll * (qx * qx + qy * qy) <= (n as int) * (kk * kk),
                        n <= ll * ll + 2 * ll,
                        ll == kk,
                        kk >= 1,
                        qx >= 0,
                        qy >= 0,
                ;
            } else {
                assert(qx * qx + qy * qy <= kk * kk + 2 * kk) by (nonlinear_arith)
                    requires
                        ll * ll * (qx * qx + qy * qy) <= (n as int) * (kk * kk),
                        n <= ll * ll + 2 * ll,
                        ll >= kk + 1,
                        kk >= 1,
                        qx >= 0,
                        qy >= 0,
                ;
            }
            assert(rx * rx == qx * qx && ry * ry == qy * qy) by (nonlinear_arith)
                requires
                    qx == abs_i(rx as int),
                    qy == abs_i(ry as int),
            ;
        }
        r
    }
}

/// Approximate unsigned angle between the directions of `a` and `b`,
/// in milliradians, in `[0, 3142]`. When either vector is zero the
/// angle is the straight angle, so that every forward-cone test
/// excludes a degenerate direction. The approximation is exact at 0,
/// a right angle and a straight angle, and monotone in between.
pub open spec fn angle2(a: (int, int), b: (int, int)) -> int {
    let dot = a.0 * b.0 + a.1 * b.1;
    let cr = abs_i(a.0 * b.1 - a.1 * b.0);
    if dot == 0 && cr == 0 {
        3142
    } else if dot >= 0 {
        (1571 * cr) / (dot + cr)
    } else {
        3142 - (1571 * cr) / (cr - dot)
    }
}

/// Compute the approximate unsigned angle between two vectors.
pub fn angle_milli(a: Vec2i, b: Vec2i) -> (r: i64)
    requires
        a.within(30000000),
        b.within(30000000),
    ensures
        r == angle2(v2p(a), v2p(b)),
        0 <= r <= 3142,
{
    assert(abs_i(a.x * b.x) <= 900000000000000int && abs_i(a.y * b.y) <= 900000000000000int
        && abs_i(a.x * b.y) <= 900000000000000int && abs_i(a.y * b.x)
        <= 900000000000000int) by (nonlinear_arith)
        requires
            a.within(30000000),
            b.within(30000000),
    ;
    let dot: i64 = a.x * b.x + a.y * b.y;
    let crs: i64 = a.x * b.y - a.y * b.x;
    let cr: i64 = if crs < 0 {
        -crs
    } else {
        crs
    };
    assert(cr == abs_i(a.x * b.y - a.y * b.x));
    if dot == 0 && cr == 0 {
        return 3142;
    }
    if dot >= 0 {
        let num: i64 = 1571 * cr;
        let den: i64 = dot + cr;
        let q: i64 = num / den;
        proof {
            lemma_div_t_facts(num as int, den as int);
            lemma_div_t_le(num as int, den as int, 1571);
        }
        q
    } else {
        let num: i64 = 1571 * cr;
        let den: i64 = cr - dot;
        let q: i64 = num / den;
        proof {
            lemma_div_t_facts(num as int, den as int);
            lemma_div_t_le(num as int, den as int, 1571);
        }
        3142 - q
    }
}

/// Floor of the square root, by binary search.
pub fn isqrt(n: i64) -> (r: i64)
    requires
        0 <= n <= SQ_MAX,
    ensures
        is_sqrt(n as int, r as int),
        r == sqrt_f(n as int),
        0 <= r <= 2000000000,
{
    let mut lo: i64 = 0;
    let mut hi: i64 = 2000000001;
    assert(hi * hi > n) by (nonlinear_arith)
        requires
            hi == 2000000001i64,
            n <= SQ_MAX,
            SQ_MAX == 4000000000000000000i64,
    ;
    while lo + 1 < hi
        invariant
            0 <= lo < hi <= 2000000001,
            lo * lo <= n,
            n < hi * hi,
        decreases hi - lo,
    {
        let mid: i64 = lo + (hi - lo) / 2;
        assert(lo < mid < hi);
        assert(mid * mid <= 2000000001i64 * 2000000001i64) by (nonlinear_arith)
            requires
                0 <= mid <= 2000000001i64,
        ;
        if mid * mid <= n {
            lo = mid;
        } else {
            hi = mid;
        }
    }
    proof {
        lemma_sqrt_exists(n as int);
        lemma_sqrt_unique(n as int, lo as int, sqrt_f(n as int));
    }
    lo
}

} // verus!
