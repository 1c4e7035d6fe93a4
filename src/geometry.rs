//! Vectors, materials, spheres and lights, and the ray–sphere test.
use crate::fixed::{
    add_spec, fx_add, fx_mul, fx_sqrt, fx_sub, in_range, is_isqrt, isqrt_spec, isqrt_wide,
    lemma_isqrt_is, lemma_isqrt_spec, lemma_mul_bound, lemma_sqrt_is_isqrt,
    mag, max_spec, mul_spec, quot, quot_wide, sat, sat_wide, sqrt_spec, sub_spec, LIM, ONE,
};
use vstd::prelude::*;

verus! {

/// A 3-component vector of fixed-point scalars.
#[derive(Debug, Clone, Copy, PartialEq, Eq, Structural)]
pub struct Vec3f(pub i64, pub i64, pub i64);

/// A 2-component vector of fixed-point scalars.
#[derive(Debug, Clone, Copy, PartialEq, Eq, Structural)]
pub struct Vec2f(pub i64, pub i64);

/// Four weights: diffuse, specular, reflected and refracted light.
#[derive(Debug, Clone, Copy, PartialEq, Eq, Structural)]
pub struct Vec4f(pub i64, pub i64, pub i64, pub i64);

pub open spec fn vec3(x: int, y: int, z: int) -> Vec3f {
    Vec3f(x as i64, y as i64, z as i64)
}

impl Vec3f {
    /// Every component lies in the scalar range.
    pub open spec fn wf(self) -> bool {
        in_range(self.0 as int) && in_range(self.1 as int) && in_range(self.2 as int)
    }
}

impl Vec4f {
    pub open spec fn wf(self) -> bool {
        in_range(self.0 as int) && in_range(self.1 as int) && in_range(self.2 as int)
            && in_range(self.3 as int)
    }
}

/// Component-wise sum.
pub open spec fn vadd(a: Vec3f, b: Vec3f) -> Vec3f {
    vec3(
        add_spec(a.0 as int, b.0 as int),
        add_spec(a.1 as int, b.1 as int),
        add_spec(a.2 as int, b.2 as int),
    )
}

/// Component-wise difference.
pub open spec fn vsub(a: Vec3f, b: Vec3f) -> Vec3f {
    vec3(
        sub_spec(a.0 as int, b.0 as int),
        sub_spec(a.1 as int, b.1 as int),
        sub_spec(a.2 as int, b.2 as int),
    )
}

/// Each component times the scalar `s`.
pub open spec fn vscale(a: Vec3f, s: int) -> Vec3f {
    vec3(mul_spec(a.0 as int, s), mul_spec(a.1 as int, s), mul_spec(a.2 as int, s))
}

pub open spec fn vneg(a: Vec3f) -> Vec3f {
    vec3(-a.0, -a.1, -a.2)
}

/// Inner product, rounded once.
pub open spec fn dot_spec(a: Vec3f, b: Vec3f) -> int {
    sat(quot(a.0 * b.0 + a.1 * b.1 + a.2 * b.2, ONE as int))
}

/// Sum of the squares of three raw components, unrounded.
pub open spec fn sq3(x: int, y: int, z: int) -> int {
    x * x + y * y + z * z
}

/// Sum of the squares of the raw components, unrounded.
pub open spec fn sq(a: Vec3f) -> int {
    sq3(a.0 as int, a.1 as int, a.2 as int)
}

/// Euclidean length: the root of the unrounded sum of squares.
pub open spec fn norm_spec(a: Vec3f) -> int {
    sat(isqrt_spec(sq(a)))
}

/// Largest magnitude among three components.
pub open spec fn max_mag3(x: int, y: int, z: int) -> int {
    max_spec(mag(x), max_spec(mag(y), mag(z)))
}

/// Largest magnitude among the components.
pub open spec fn max_mag(a: Vec3f) -> int {
    max_mag3(a.0 as int, a.1 as int, a.2 as int)
}

/// Magnitude that `lift` raises a short vector to (2^40 raw).
pub const LIFT: i64 = 1099511627776;

/// `a` doubled until its largest component reaches `LIFT`; the zero vector
/// stays as it is. Doubling keeps the direction and gives the root in
/// `normalize_spec` enough digits.
pub open spec fn lift3(x: int, y: int, z: int) -> (int, int, int)
    decreases 2 * LIFT - max_mag3(x, y, z),
{
    if max_mag3(x, y, z) == 0 || max_mag3(x, y, z) >= LIFT {
        (x, y, z)
    } else {
        lift3(2 * x, 2 * y, 2 * z)
    }
}

pub open spec fn lift(a: Vec3f) -> (int, int, int) {
    lift3(a.0 as int, a.1 as int, a.2 as int)
}

/// `a` divided by its length, computed on the lifted vector; the zero
/// vector stays as it is.
pub open spec fn normalize_spec(a: Vec3f) -> Vec3f {
    let (x, y, z) = lift(a);
    let n = isqrt_spec(sq3(x, y, z));
    if n == 0 {
        a
    } else {
        vec3(quot(x * ONE, n), quot(y * ONE, n), quot(z * ONE, n))
    }
}

pub proof fn lemma_dot_self_nonneg(a: Vec3f)
    ensures
        0 <= dot_spec(a, a),
{
    assert(0 <= a.0 * a.0 + a.1 * a.1 + a.2 * a.2) by (nonlinear_arith);
}

impl Vec3f {
    /// The zero vector.
    pub fn new() -> (r: Vec3f)
        ensures
            r == Vec3f(0, 0, 0),
    {
        Vec3f(0, 0, 0)
    }

    pub fn add(self, o: Vec3f) -> (r: Vec3f)
        requires
            self.wf(),
            o.wf(),
        ensures
            r == vadd(self, o),
            r.wf(),
    {
        Vec3f(fx_add(self.0, o.0), fx_add(self.1, o.1), fx_add(self.2, o.2))
    }

    pub fn sub(self, o: Vec3f) -> (r: Vec3f)
        requires
            self.wf(),
            o.wf(),
        ensures
            r == vsub(self, o),
            r.wf(),
    {
        Vec3f(fx_sub(self.0, o.0), fx_sub(self.1, o.1), fx_sub(self.2, o.2))
    }

    /// Each component multiplied by the scalar `s`.
    pub fn scale(self, s: i64) -> (r: Vec3f)
        requires
            self.wf(),
            in_range(s as int),
        ensures
            r == vscale(self, s as int),
            r.wf(),
    {
        Vec3f(fx_mul(self.0, s), fx_mul(self.1, s), fx_mul(self.2, s))
    }

    pub fn neg(self) -> (r: Vec3f)
        requires
            self.wf(),
        ensures
            r == vneg(self),
            r.wf(),
    {
        Vec3f(-self.0, -self.1, -self.2)
    }

    pub fn dot(self, o: Vec3f) -> (r: i64)
        requires
            self.wf(),
            o.wf(),
        ensures
            r == dot_spec(self, o),
            in_range(r as int),
    {
        proof {
            lemma_mul_bound(self.0 as int, o.0 as int);
            lemma_mul_bound(self.1 as int, o.1 as int);
            lemma_mul_bound(self.2 as int, o.2 as int);
        }
        let s: i128 = self.0 as i128 * o.0 as i128 + self.1 as i128 * o.1 as i128 + self.2 as i128
            * o.2 as i128;
        sat_wide(quot_wide(s, ONE as i128))
    }

    /// Unrounded sum of the squares of the raw components.
    fn sum_sq(&self) -> (r: u128)
        requires
            self.wf(),
        ensures
            r == sq(*self),
            r <= 0x400_0000_0000_0000_0000_0000_0000_0000,
    {
        proof {
            lemma_sq_bound(*self);
            lemma_mul_bound(self.0 as int, self.0 as int);
            lemma_mul_bound(self.1 as int, self.1 as int);
            lemma_mul_bound(self.2 as int, self.2 as int);
        }
        (self.0 as i128 * self.0 as i128 + self.1 as i128 * self.1 as i128 + self.2 as i128
            * self.2 as i128) as u128
    }

    /// Euclidean length.
    pub fn norm(&self) -> (r: i64)
        requires
            self.wf(),
        ensures
            r == norm_spec(*self),
            0 <= r,
            in_range(r as int),
    {
        let n = isqrt_wide(self.sum_sq());
        proof {
            lemma_isqrt_spec(sq(*self), n as int);
        }
        sat_wide(n as i128)
    }

    /// Divides each component by the length, in place. A zero vector is
    /// left as it is; any other vector comes out with a length within four
    /// raw units of one.
    pub fn normalize(&mut self)
        requires
            old(self).wf(),
        ensures
            *final(self) == normalize_spec(*old(self)),
            final(self).wf(),
            norm_spec(*old(self)) > 0 ==> ONE - 4 <= norm_spec(*final(self)) <= ONE,
    {
        let ghost a = *self;
        let mut w = *self;
        let mut m = max_mag_exec(&w);
        while 0 < m && m < LIFT
            invariant
                w.wf(),
                m == max_mag(w),
                lift(w) == lift(a),
            decreases 2 * LIFT - m,
        {
            let ghost m0 = m;
            w = Vec3f(2 * w.0, 2 * w.1, 2 * w.2);
            m = max_mag_exec(&w);
            assert(m == 2 * m0);
        }
        proof {
            lemma_lift(a.0 as int, a.1 as int, a.2 as int);
        }
        let s = w.sum_sq();
        let n = isqrt_wide(s);
        proof {
            lemma_isqrt_spec(sq(w), n as int);
        }
        if n != 0 {
            proof {
                lemma_sq_parts(w.0 as int, w.1 as int, w.2 as int);
                lemma_le_root(w.0 as int, sq(w), n as int);
                lemma_le_root(w.1 as int, sq(w), n as int);
                lemma_le_root(w.2 as int, sq(w), n as int);
            }
            *self = Vec3f(
                unit_component(w.0, n as i128),
                unit_component(w.1, n as i128),
                unit_component(w.2, n as i128),
            );
        }
        proof {
            if norm_spec(a) > 0 {
                lemma_normalize_unit_length(a);
            }
        }
    }

    /// The normalized copy of this vector.
    pub fn normalized(self) -> (r: Vec3f)
        requires
            self.wf(),
        ensures
            r == normalize_spec(self),
            r.wf(),
    {
        let mut v = self;
        v.normalize();
        v
    }
}

/// `w / n` on the unit grid, for `|w| <= n`.
fn unit_component(w: i64, n: i128) -> (r: i64)
    requires
        0 < n,
        mag(w as int) <= n,
        in_range(w as int),
    ensures
        r == quot(w * ONE, n as int),
        mag(r as int) <= ONE,
{
    proof {
        lemma_quot_le_one(w as int, n as int);
    }
    quot_wide(w as i128 * ONE as i128, n) as i64
}

fn max_mag_exec(v: &Vec3f) -> (r: i64)
    requires
        v.wf(),
    ensures
        r == max_mag(*v),
{
    let a = if v.0 < 0 { -v.0 } else { v.0 };
    let b = if v.1 < 0 { -v.1 } else { v.1 };
    let c = if v.2 < 0 { -v.2 } else { v.2 };
    if a >= b && a >= c {
        a
    } else if b >= c {
        b
    } else {
        c
    }
}

proof fn lemma_sq_bound(v: Vec3f)
    requires
        v.wf(),
    ensures
        0 <= sq(v) <= 3 * (LIM * LIM),
{
    assert(0 <= v.0 * v.0 <= LIM * LIM) by (nonlinear_arith)
        requires
            -LIM <= v.0 <= LIM,
    ;
    assert(0 <= v.1 * v.1 <= LIM * LIM) by (nonlinear_arith)
        requires
            -LIM <= v.1 <= LIM,
    ;
    assert(0 <= v.2 * v.2 <= LIM * LIM) by (nonlinear_arith)
        requires
            -LIM <= v.2 <= LIM,
    ;
}

/// Lifting keeps a vector in range; a non-zero one reaches `LIFT`, a zero
/// one and one already past `LIFT` stay as they are.
proof fn lemma_lift(x: int, y: int, z: int)
    requires
        in_range(x),
        in_range(y),
        in_range(z),
    ensures
        in_range(lift3(x, y, z).0),
        in_range(lift3(x, y, z).1),
        in_range(lift3(x, y, z).2),
        max_mag3(x, y, z) == 0 || max_mag3(x, y, z) >= LIFT ==> lift3(x, y, z) == (x, y, z),
        max_mag3(x, y, z) > 0 ==> max_mag3(lift3(x, y, z).0, lift3(x, y, z).1, lift3(x, y, z).2) >= LIFT,
    decreases 2 * LIFT - max_mag3(x, y, z),
{
    if max_mag3(x, y, z) == 0 || max_mag3(x, y, z) >= LIFT {
    } else {
        lemma_lift(2 * x, 2 * y, 2 * z);
    }
}

/// Each square is at most the sum of squares.
proof fn lemma_sq_parts(x: int, y: int, z: int)
    ensures
        0 <= x * x <= sq3(x, y, z),
        0 <= y * y <= sq3(x, y, z),
        0 <= z * z <= sq3(x, y, z),
{
    assert(0 <= x * x && 0 <= y * y && 0 <= z * z) by (nonlinear_arith);
}

/// A component is at most the root of the sum of squares.
proof fn lemma_le_root(x: int, s: int, n: int)
    requires
        0 <= x * x <= s,
        is_isqrt(s, n),
    ensures
        mag(x) <= n,
{
    let m = mag(x);
    assert(m * m == x * x) by (nonlinear_arith)
        requires
            m == mag(x),
    ;
    if m > n {
        assert((n + 1) * (n + 1) <= m * m) by (nonlinear_arith)
            requires
                0 <= n + 1 <= m,
        ;
    }
}

proof fn lemma_quot_le_one(w: int, n: int)
    requires
        0 < n,
        mag(w) <= n,
        mag(w) <= LIM,
    ensures
        quot(w * ONE, n) == if w < 0 { -((mag(w) * ONE) / n) } else { (mag(w) * ONE) / n },
        mag(quot(w * ONE, n)) <= ONE,
        mag(w * ONE) <= 0x4000_0000_0000_0000_0000_0000,
{
    let m = mag(w);
    assert(mag(w * ONE) == m * ONE) by (nonlinear_arith)
        requires
            m == mag(w),
    ;
    assert(m * ONE <= n * ONE) by (nonlinear_arith)
        requires
            0 <= m <= n,
    ;
    assert(m * ONE <= 0x4000_0000_0000_0000_0000_0000) by (nonlinear_arith)
        requires
            0 <= m <= LIM,
    ;
    vstd::arithmetic::div_mod::lemma_div_is_ordered(m * ONE, n * ONE, n);
    vstd::arithmetic::div_mod::lemma_div_multiples_vanish(ONE as int, n);
    assert(n * ONE == n * (ONE as int));
    assert(0 <= m * ONE) by (nonlinear_arith)
        requires
            0 <= m,
    ;
    vstd::arithmetic::div_mod::lemma_div_pos_is_pos(m * ONE, n);
}

impl Vec2f {
    /// The zero vector.
    pub fn new() -> (r: Vec2f)
        ensures
            r == Vec2f(0, 0),
    {
        Vec2f(0, 0)
    }
}

/// Surface properties of a sphere.
#[derive(Debug, Clone, Copy, PartialEq, Eq, Structural)]
pub struct Material {
    pub diffuse_color: Vec3f,
    /// Weights of the diffuse, specular, reflected and refracted terms.
    pub albedo: Vec4f,
    pub specular_exponent: u32,
    pub refractive_index: i64,
}

impl Material {
    pub open spec fn wf(self) -> bool {
        self.diffuse_color.wf() && self.albedo.wf() && 0 < self.refractive_index <= LIM
    }

    /// The neutral material: black, purely diffuse, refractive index one.
    pub fn new() -> (r: Material)
        ensures
            r == (Material {
                diffuse_color: Vec3f(0, 0, 0),
                albedo: Vec4f(ONE, 0, 0, 0),
                specular_exponent: 0,
                refractive_index: ONE,
            }),
            r.wf(),
    {
        Material {
            diffuse_color: Vec3f::new(),
            albedo: Vec4f(ONE, 0, 0, 0),
            specular_exponent: 0,
            refractive_index: ONE,
        }
    }
}

#[derive(Debug, Clone, Copy, PartialEq, Eq, Structural)]
pub struct Sphere {
    pub center: Vec3f,
    pub radius: i64,
    pub material: Material,
}

#[derive(Debug, Clone, Copy, PartialEq, Eq, Structural)]
pub struct Light {
    pub position: Vec3f,
    pub intensity: i64,
}

impl Sphere {
    pub open spec fn wf(self) -> bool {
        self.center.wf() && 0 < self.radius <= LIM && self.material.wf()
    }
}

impl Light {
    pub open spec fn wf(self) -> bool {
        self.position.wf() && 0 <= self.intensity <= LIM
    }
}

/// The two roots of the ray–sphere equation: `(tca - thc, tca + thc)`, where
/// `tca` is the distance along the ray to the point nearest the center and
/// `thc` half the chord. `None` where the ray passes farther from the center
/// than the radius.
pub open spec fn roots(s: Sphere, o: Vec3f, d: Vec3f) -> Option<(int, int)> {
    let l = vsub(s.center, o);
    let tca = dot_spec(l, d);
    let d2 = sub_spec(dot_spec(l, l), mul_spec(tca, tca));
    let r2 = mul_spec(s.radius as int, s.radius as int);
    if d2 > r2 {
        None
    } else {
        let thc = sqrt_spec(sub_spec(r2, d2));
        Some((sub_spec(tca, thc), add_spec(tca, thc)))
    }
}

/// The root the ray test settles on: the near one unless it lies behind
/// the origin.
pub open spec fn chosen_root(s: Sphere, o: Vec3f, d: Vec3f) -> Option<int> {
    match roots(s, o, d) {
        Some((t0, t1)) => Some(if t0 < 0 { t1 } else { t0 }),
        None => None,
    }
}

/// Distance along the ray to the sphere, where the ray meets it ahead of
/// its origin.
pub open spec fn hit_distance(s: Sphere, o: Vec3f, d: Vec3f) -> Option<int> {
    match chosen_root(s, o, d) {
        Some(t) => if t >= 0 {
            Some(t)
        } else {
            None
        },
        None => None,
    }
}

impl Sphere {
    /// Tests the ray from `orig` along `dir` against this sphere. Where the
    /// ray's line meets the sphere, `t0` receives the chosen root; the
    /// result tells whether that root lies ahead of the origin.
    pub fn ray_intersect(&self, orig: &Vec3f, dir: &Vec3f, t0: &mut i64) -> (r: bool)
        requires
            self.wf(),
            orig.wf(),
            dir.wf(),
        ensures
            r == hit_distance(*self, *orig, *dir).is_some(),
            match chosen_root(*self, *orig, *dir) {
                Some(t) => *final(t0) == t,
                None => *final(t0) == *old(t0),
            },
    {
        let l = self.center.sub(*orig);
        let tca = l.dot(*dir);
        let d2 = fx_sub(l.dot(l), fx_mul(tca, tca));
        let r2 = fx_mul(self.radius, self.radius);
        if d2 > r2 {
            false
        } else {
            proof {
                assert(mul_spec(tca as int, tca as int) >= 0) by (nonlinear_arith)
                    requires
                        mul_spec(tca as int, tca as int) == sat(quot(tca * tca, ONE as int)),
                ;
                lemma_dot_self_nonneg(l);
            }
            let thc = fx_sqrt(fx_sub(r2, d2));
            *t0 = fx_sub(tca, thc);
            let t1 = fx_add(tca, thc);
            if *t0 < 0 {
                *t0 = t1;
            }
            *t0 >= 0
        }
    }
}

/// For `y = w / n` on the unit grid: `n^2 y^2` lies between
/// `w^2 ONE^2 - 2 n ONE |w|` and `w^2 ONE^2`.
proof fn lemma_component_sq(w: int, n: int)
    requires
        0 < n,
        mag(w) <= n,
        mag(w) <= LIM,
    ensures
        n * n * (quot(w * ONE, n) * quot(w * ONE, n)) <= w * w * (ONE * ONE),
        n * n * (quot(w * ONE, n) * quot(w * ONE, n)) >= w * w * (ONE * ONE) - 2 * n * ONE * mag(w),
{
    lemma_quot_le_one(w, n);
    let m = mag(w);
    let o = ONE as int;
    let b = m * o;
    assert(0 <= b) by (nonlinear_arith)
        requires
            0 <= m,
            b == m * o,
            o > 0,
    ;
    let q = b / n;
    let rem = b % n;
    vstd::arithmetic::div_mod::lemma_fundamental_div_mod(b, n);
    vstd::arithmetic::div_mod::lemma_mod_bound(b, n);
    vstd::arithmetic::div_mod::lemma_div_pos_is_pos(b, n);
    let y = quot(w * ONE, n);
    assert(y == q || y == -q);
    assert(y * y == q * q) by (nonlinear_arith)
        requires
            y == q || y == -q,
    ;
    assert(w * w * (o * o) == b * b) by (nonlinear_arith)
        requires
            m == mag(w),
            b == m * o,
    ;
    let p = n * q;
    assert(n * n * (q * q) == p * p) by (nonlinear_arith)
        requires
            p == n * q,
    ;
    assert(p == b - rem);
    assert(0 <= p) by (nonlinear_arith)
        requires
            p == n * q,
            0 <= q,
            0 < n,
    ;
    assert(p * p <= b * b) by (nonlinear_arith)
        requires
            0 <= p <= b,
    ;
    assert(b * (n - rem) >= 0) by (nonlinear_arith)
        requires
            0 <= b,
            rem < n,
    ;
    assert(p * p >= b * b - 2 * n * b) by (nonlinear_arith)
        requires
            p == b - rem,
            b * (n - rem) >= 0,
            0 <= rem,
    ;
    assert(2 * n * ONE * mag(w) == 2 * n * b) by (nonlinear_arith)
        requires
            b == m * o,
            m == mag(w),
            o == ONE,
    ;
}

/// Normalizing any non-zero vector gives a length within four raw units of
/// one, from below.
pub proof fn lemma_normalize_unit_length(a: Vec3f)
    requires
        a.wf(),
        norm_spec(a) > 0,
    ensures
        ONE - 4 <= norm_spec(normalize_spec(a)) <= ONE,
{
    let o = ONE as int;
    lemma_lift(a.0 as int, a.1 as int, a.2 as int);
    if max_mag(a) == 0 {
        assert(sq(a) == 0);
        lemma_isqrt_spec(0, 0);
    }
    let (x0, x1, x2) = lift(a);
    let s = sq3(x0, x1, x2);
    lemma_sq_parts(x0, x1, x2);
    lemma_isqrt_is(s);
    let n = isqrt_spec(s);
    let mm = max_mag3(x0, x1, x2);
    assert(mm * mm <= s) by {
        assert(mag(x0) * mag(x0) == x0 * x0) by (nonlinear_arith);
        assert(mag(x1) * mag(x1) == x1 * x1) by (nonlinear_arith);
        assert(mag(x2) * mag(x2) == x2 * x2) by (nonlinear_arith);
    }
    if n < LIFT {
        assert((n + 1) * (n + 1) <= LIFT * LIFT) by (nonlinear_arith)
            requires
                0 <= n,
                n + 1 <= LIFT,
        ;
        assert(LIFT * LIFT <= mm * mm) by (nonlinear_arith)
            requires
                LIFT <= mm,
        ;
    }
    assert(n >= o);
    lemma_le_root(x0, s, n);
    lemma_le_root(x1, s, n);
    lemma_le_root(x2, s, n);
    lemma_component_sq(x0, n);
    lemma_component_sq(x1, n);
    lemma_component_sq(x2, n);
    lemma_quot_le_one(x0, n);
    lemma_quot_le_one(x1, n);
    lemma_quot_le_one(x2, n);
    let y0 = quot(x0 * o, n);
    let y1 = quot(x1 * o, n);
    let y2 = quot(x2 * o, n);
    let r = normalize_spec(a);
    assert(r.0 == y0 && r.1 == y1 && r.2 == y2);
    let t = sq(r);
    assert(t == y0 * y0 + y1 * y1 + y2 * y2);
    assert(n * n * t == n * n * (y0 * y0) + n * n * (y1 * y1) + n * n * (y2 * y2)) by (nonlinear_arith)
        requires
            t == y0 * y0 + y1 * y1 + y2 * y2,
    ;
    assert(s * (o * o) == x0 * x0 * (o * o) + x1 * x1 * (o * o) + x2 * x2 * (o * o)) by (nonlinear_arith)
        requires
            s == x0 * x0 + x1 * x1 + x2 * x2,
    ;
    // from above
    assert(n * n * t <= s * (o * o));
    assert(s * (o * o) < (n + 1) * (n + 1) * (o * o)) by (nonlinear_arith)
        requires
            s < (n + 1) * (n + 1),
            o > 0,
    ;
    assert((n + 1) * (n + 1) * (o * o) <= n * n * ((o + 1) * (o + 1))) by (nonlinear_arith)
        requires
            o <= n,
            0 < o,
    ;
    assert(t < (o + 1) * (o + 1)) by (nonlinear_arith)
        requires
            n * n * t < n * n * ((o + 1) * (o + 1)),
            0 < n,
    ;
    // from below
    let m0 = mag(x0);
    let m1 = mag(x1);
    let m2 = mag(x2);
    assert(2 * n * o * m0 + 2 * n * o * m1 + 2 * n * o * m2 <= 6 * (n * n) * o) by (nonlinear_arith)
        requires
            0 <= m0 <= n,
            0 <= m1 <= n,
            0 <= m2 <= n,
            0 < o,
    ;
    assert(s * (o * o) >= n * n * (o * o)) by (nonlinear_arith)
        requires
            n * n <= s,
    ;
    assert(n * n * t >= n * n * (o * o - 6 * o)) by (nonlinear_arith)
        requires
            n * n * t >= s * (o * o) - (2 * n * o * m0 + 2 * n * o * m1 + 2 * n * o * m2),
            2 * n * o * m0 + 2 * n * o * m1 + 2 * n * o * m2 <= 6 * (n * n) * o,
            s * (o * o) >= n * n * (o * o),
    ;
    assert(t >= o * o - 6 * o) by (nonlinear_arith)
        requires
            n * n * t >= n * n * (o * o - 6 * o),
            0 < n,
    ;
    // the root
    assert(0 <= t) by (nonlinear_arith)
        requires
            t == y0 * y0 + y1 * y1 + y2 * y2,
    ;
    lemma_isqrt_is(t);
    let q = isqrt_spec(t);
    if q > o {
        assert((o + 1) * (o + 1) <= q * q) by (nonlinear_arith)
            requires
                o + 1 <= q,
                0 < o,
        ;
    }
    if q < o - 4 {
        assert((q + 1) * (q + 1) <= (o - 4) * (o - 4)) by (nonlinear_arith)
            requires
                0 <= q,
                q + 1 <= o - 4,
        ;
        assert((o - 4) * (o - 4) < o * o - 6 * o) by (nonlinear_arith)
            requires
                o == 1073741824,
        ;
    }
}

/// The squared length and the dot product of a vector with itself agree
/// within one rounding of each: in raw units of `ONE^2`,
/// `norm^2 - ONE < dot * ONE <= norm^2 + 2 norm`.
pub proof fn lemma_norm_squared_is_dot(v: Vec3f)
    requires
        v.wf(),
        sq(v) <= LIM * ONE,
    ensures
        norm_spec(v) * norm_spec(v) - ONE < dot_spec(v, v) * ONE,
        dot_spec(v, v) * ONE <= norm_spec(v) * norm_spec(v) + 2 * norm_spec(v),
{
    let s = sq(v);
    let o = ONE as int;
    lemma_sq_parts(v.0 as int, v.1 as int, v.2 as int);
    lemma_isqrt_is(s);
    let n = isqrt_spec(s);
    vstd::arithmetic::div_mod::lemma_fundamental_div_mod(s, o);
    vstd::arithmetic::div_mod::lemma_mod_bound(s, o);
    vstd::arithmetic::div_mod::lemma_div_is_ordered(s, LIM * o, o);
    vstd::arithmetic::div_mod::lemma_div_multiples_vanish(LIM as int, o);
    assert(LIM * o == o * LIM);
    vstd::arithmetic::div_mod::lemma_div_pos_is_pos(s, o);
    assert(dot_spec(v, v) == s / o);
    if n > LIM {
        assert(n * n > LIM * o) by (nonlinear_arith)
            requires
                n > LIM,
                o < LIM,
        ;
    }
    assert(norm_spec(v) == n);
    assert(o * (s / o) == (s / o) * o) by (nonlinear_arith);
    assert((n + 1) * (n + 1) == n * n + 2 * n + 1) by (nonlinear_arith);
}

/// A ray whose line passes through the centre of a sphere (its closest
/// approach is zero), from outside the sphere, meets it at `tca - radius`,
/// where `tca` is the distance along the ray to the centre, to within one
/// raw unit. The radius is at least half a unit.
pub proof fn lemma_hit_through_center(s: Sphere, o: Vec3f, d: Vec3f)
    requires
        s.wf(),
        o.wf(),
        d.wf(),
        dot_spec(vsub(s.center, o), vsub(s.center, o)) == mul_spec(
            dot_spec(vsub(s.center, o), d),
            dot_spec(vsub(s.center, o), d),
        ),
        s.radius <= dot_spec(vsub(s.center, o), d),
        ONE / 2 <= s.radius <= 0x2000_0000_0000,
    ensures
        match hit_distance(s, o, d) {
            Some(t) => {
                let tca = dot_spec(vsub(s.center, o), d);
                tca - s.radius <= t <= tca - s.radius + 1
            },
            None => false,
        },
{
    let r = s.radius as int;
    let o1 = ONE as int;
    lemma_square_no_sat(r);
    let q = (r * r) / o1;
    assert(0 <= r * r) by (nonlinear_arith);
    vstd::arithmetic::div_mod::lemma_fundamental_div_mod(r * r, o1);
    vstd::arithmetic::div_mod::lemma_mod_bound(r * r, o1);
    assert(q * o1 <= r * r < q * o1 + o1) by (nonlinear_arith)
        requires
            r * r == o1 * q + (r * r) % o1,
            0 <= (r * r) % o1 < o1,
    ;
    lemma_sqrt_is_isqrt(q);
    let thc = sqrt_spec(q);
    assert(thc * thc <= q * o1);
    if thc > r {
        assert(thc * thc >= (r + 1) * (r + 1)) by (nonlinear_arith)
            requires
                thc >= r + 1,
                r >= 0,
        ;
        assert((r + 1) * (r + 1) > r * r) by (nonlinear_arith)
            requires
                r >= 0,
        ;
    }
    if thc < r - 1 {
        assert((thc + 1) * (thc + 1) <= (r - 1) * (r - 1)) by (nonlinear_arith)
            requires
                0 <= thc,
                thc + 1 <= r - 1,
        ;
        assert((r - 1) * (r - 1) <= q * o1) by (nonlinear_arith)
            requires
                q * o1 > r * r - o1,
                2 * r >= o1,
        ;
    }
}

proof fn lemma_square_no_sat(r: int)
    requires
        0 <= r <= 0x2000_0000_0000,
    ensures
        mul_spec(r, r) == (r * r) / (ONE as int),
        0 <= (r * r) / (ONE as int) <= LIM,
{
    assert(0 <= r * r <= 0x2000_0000_0000 * 0x2000_0000_0000) by (nonlinear_arith)
        requires
            0 <= r <= 0x2000_0000_0000,
    ;
    vstd::arithmetic::div_mod::lemma_div_is_ordered(r * r, 0x2000_0000_0000int * 0x2000_0000_0000, ONE as int);
    vstd::arithmetic::div_mod::lemma_div_multiples_vanish(LIM as int, ONE as int);
    vstd::arithmetic::div_mod::lemma_div_pos_is_pos(r * r, ONE as int);
}

/// A ray that passes the centre farther off than the radius misses.
pub proof fn lemma_miss_beyond_radius(s: Sphere, o: Vec3f, d: Vec3f)
    requires
        s.wf(),
        o.wf(),
        d.wf(),
        sub_spec(
            dot_spec(vsub(s.center, o), vsub(s.center, o)),
            mul_spec(dot_spec(vsub(s.center, o), d), dot_spec(vsub(s.center, o), d)),
        ) > mul_spec(s.radius as int, s.radius as int),
    ensures
        hit_distance(s, o, d).is_none(),
{
}

/// From an origin inside a sphere the near root lies behind the ray, and the
/// ray test answers with the far root, which lies ahead. "Inside" means by
/// more than the rounding of the test: the squared radius exceeds the
/// squared distance to the centre by at least `2 |tca| / ONE + 1`.
pub proof fn lemma_inside_takes_far_root(s: Sphere, o: Vec3f, d: Vec3f)
    requires
        s.wf(),
        o.wf(),
        d.wf(),
        s.radius <= 0x1000_0000_0000,
        mag(dot_spec(vsub(s.center, o), d)) <= 0x1000_0000_0000,
        (mul_spec(s.radius as int, s.radius as int) - dot_spec(vsub(s.center, o), vsub(s.center, o)))
            * ONE >= 2 * mag(dot_spec(vsub(s.center, o), d)) + ONE,
    ensures
        match roots(s, o, d) {
            Some((t0, t1)) => t0 < 0 < t1 && hit_distance(s, o, d) == Some(t1),
            None => false,
        },
{
    let l = vsub(s.center, o);
    let tca = dot_spec(l, d);
    let a = dot_spec(l, l);
    let r = s.radius as int;
    let m = mag(tca);
    lemma_dot_self_nonneg(l);
    lemma_square_no_sat(r);
    assert(r * r <= 0x1000_0000_0000 * 0x1000_0000_0000) by (nonlinear_arith)
        requires
            0 <= r <= 0x1000_0000_0000,
    ;
    vstd::arithmetic::div_mod::lemma_div_is_ordered(r * r, 0x1000_0000_0000int * 0x1000_0000_0000, ONE as int);
    let r2 = mul_spec(r, r);
    assert(tca * tca == m * m) by (nonlinear_arith)
        requires
            m == mag(tca),
    ;
    lemma_square_no_sat(m);
    assert(m * m <= 0x1000_0000_0000 * 0x1000_0000_0000) by (nonlinear_arith)
        requires
            0 <= m <= 0x1000_0000_0000,
    ;
    vstd::arithmetic::div_mod::lemma_div_is_ordered(m * m, 0x1000_0000_0000int * 0x1000_0000_0000, ONE as int);
    let tt = (m * m) / (ONE as int);
    assert(mul_spec(tca, tca) == tt);
    vstd::arithmetic::div_mod::lemma_fundamental_div_mod(m * m, ONE as int);
    assert(tt * ONE > m * m - ONE) by {
        vstd::arithmetic::div_mod::lemma_mod_bound(m * m, ONE as int);
    }
    let d2 = sub_spec(a, tt);
    assert(d2 == a - tt);
    let arg = sub_spec(r2, d2);
    assert(arg == r2 - a + tt);
    let thc = sqrt_spec(arg);
    lemma_sqrt_is_isqrt(arg);
    assert((m + 1) * (m + 1) <= arg * ONE) by (nonlinear_arith)
        requires
            arg == r2 - a + tt,
            (r2 - a) * ONE >= 2 * m + ONE,
            tt * ONE > m * m - ONE,
    ;
    if thc <= m {
        assert((thc + 1) * (thc + 1) <= (m + 1) * (m + 1)) by (nonlinear_arith)
            requires
                0 <= thc <= m,
        ;
    }
    assert(thc * thc <= arg * ONE);
    assert(arg * ONE <= 0x800_0000_0000_0000 * 1073741824) by (nonlinear_arith)
        requires
            arg <= 0x800_0000_0000_0000,
    ;
    if thc > 0x2000_0000_0000 {
        assert(thc * thc > 0x2000_0000_0000 * 0x2000_0000_0000) by (nonlinear_arith)
            requires
                thc > 0x2000_0000_0000,
        ;
    }
}

} // verus!
