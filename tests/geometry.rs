use raytracer::fixed::{fx_add, fx_div, fx_mul, fx_pow, fx_sqrt, fx_sub, LIM, ONE};
use raytracer::geometry::{Light, Material, Sphere, Vec2f, Vec3f, Vec4f};

fn units(x: i64, y: i64, z: i64) -> Vec3f {
    Vec3f(x * ONE, y * ONE, z * ONE)
}

fn plain_sphere(center: Vec3f, radius: i64) -> Sphere {
    Sphere { center, radius, material: Material::new() }
}

#[test]
fn scalar_products_and_quotients() {
    assert_eq!(fx_mul(3 * ONE, ONE / 2), 3 * ONE / 2);
    assert_eq!(fx_mul(-3 * ONE, ONE / 2), -3 * ONE / 2);
    assert_eq!(fx_div(ONE, 4 * ONE), ONE / 4);
    assert_eq!(fx_div(ONE, -4 * ONE), -ONE / 4);
    assert_eq!(fx_div(3 * ONE, 5 * ONE), 644245094);
    assert_eq!(fx_add(2 * ONE, -5 * ONE), -3 * ONE);
    assert_eq!(fx_sub(2 * ONE, 5 * ONE), -3 * ONE);
}

#[test]
fn scalar_results_saturate() {
    assert_eq!(fx_add(LIM, LIM), LIM);
    assert_eq!(fx_sub(-LIM, LIM), -LIM);
    assert_eq!(fx_mul(LIM, LIM), LIM);
    assert_eq!(fx_mul(LIM, -LIM), -LIM);
}

#[test]
fn scalar_roots_and_powers() {
    assert_eq!(fx_sqrt(4 * ONE), 2 * ONE);
    assert_eq!(fx_sqrt(0), 0);
    assert_eq!(fx_sqrt(2 * ONE), 1518500249);
    assert_eq!(fx_pow(ONE / 2, 3), ONE / 8);
    assert_eq!(fx_pow(ONE / 2, 0), ONE);
}

#[test]
fn vector_arithmetic() {
    let a = units(1, 2, 3);
    let b = units(4, -5, 6);
    assert_eq!(a.add(b), units(5, -3, 9));
    assert_eq!(a.sub(b), units(-3, 7, -3));
    assert_eq!(a.dot(b), 12 * ONE);
    assert_eq!(a.scale(2 * ONE), units(2, 4, 6));
    assert_eq!(a.neg(), units(-1, -2, -3));
    assert_eq!(Vec3f::new(), Vec3f(0, 0, 0));
    assert_eq!(Vec2f::new(), Vec2f(0, 0));
}

#[test]
fn norm_and_normalize() {
    let mut v = units(3, 4, 0);
    assert_eq!(v.norm(), 5 * ONE);
    v.normalize();
    assert_eq!(v, Vec3f(644245094, 858993459, 0));
    let n = v.norm();
    assert!(ONE - 4 <= n && n <= ONE);
    let mut again = v;
    again.normalize();
    assert!((again.0 - v.0).abs() <= 4 && (again.1 - v.1).abs() <= 4);
}

#[test]
fn normalize_short_vectors() {
    let mut v = Vec3f(300, 0, 0);
    v.normalize();
    assert_eq!(v, Vec3f(ONE, 0, 0));
    for raw in [Vec3f(1, 1, 0), Vec3f(-1, 2, 3), Vec3f(5, -7, 11), Vec3f(0, 0, -1)] {
        let mut u = raw;
        u.normalize();
        let n = u.norm();
        assert!(ONE - 4 <= n && n <= ONE, "{:?} -> {:?}, norm {}", raw, u, n);
    }
}

#[test]
fn norm_squared_matches_dot() {
    let v = Vec3f(ONE, ONE / 256, 0);
    let n = v.norm() as i128;
    let d = v.dot(v) as i128;
    let one = ONE as i128;
    assert!(n * n - one < d * one);
    assert!(d * one <= n * n + 2 * n);
}

#[test]
fn normalize_keeps_unit_vectors() {
    for u in [units(1, 0, 0), units(0, -1, 0), units(0, 0, 1)] {
        let mut v = u;
        v.normalize();
        assert_eq!(v, u);
        assert_eq!(v.norm(), ONE);
    }
}

#[test]
fn normalize_leaves_zero_vector() {
    let mut v = Vec3f::new();
    v.normalize();
    assert_eq!(v, Vec3f(0, 0, 0));
}

#[test]
fn neutral_material() {
    let m = Material::new();
    assert_eq!(m.diffuse_color, Vec3f(0, 0, 0));
    assert_eq!(m.albedo, Vec4f(ONE, 0, 0, 0));
    assert_eq!(m.specular_exponent, 0);
    assert_eq!(m.refractive_index, ONE);
}

#[test]
fn ray_through_center_hits_at_distance_less_radius() {
    let s = plain_sphere(units(0, 0, -16), 2 * ONE);
    let mut t: i64 = 0;
    assert!(s.ray_intersect(&units(0, 0, 0), &units(0, 0, -1), &mut t));
    assert_eq!(t, 14 * ONE);
    let s = plain_sphere(units(5, 0, 0), ONE);
    assert!(s.ray_intersect(&units(1, 0, 0), &units(1, 0, 0), &mut t));
    assert_eq!(t, 3 * ONE);
}

#[test]
fn ray_passing_wide_misses() {
    let s = plain_sphere(units(5, 0, -16), 2 * ONE);
    let mut t: i64 = 77;
    assert!(!s.ray_intersect(&units(0, 0, 0), &units(0, 0, -1), &mut t));
    assert_eq!(t, 77);
}

#[test]
fn ray_from_inside_takes_far_root() {
    let s = plain_sphere(units(0, 0, -16), 2 * ONE);
    let mut t: i64 = 0;
    assert!(s.ray_intersect(&units(0, 0, -16), &units(0, 0, -1), &mut t));
    assert_eq!(t, 2 * ONE);
    assert!(s.ray_intersect(&units(0, 0, -15), &units(0, 0, -1), &mut t));
    assert_eq!(t, 3 * ONE);
}

#[test]
fn sphere_behind_origin_is_missed() {
    let s = plain_sphere(units(0, 0, 16), 2 * ONE);
    let mut t: i64 = 0;
    assert!(!s.ray_intersect(&units(0, 0, 0), &units(0, 0, -1), &mut t));
    assert_eq!(t, -14 * ONE);
}

#[test]
fn light_fields() {
    let l = Light { position: units(-20, 20, 20), intensity: 3 * ONE / 2 };
    assert_eq!(l.position.0, -20 * ONE);
    assert_eq!(l.intensity, 1610612736);
}
