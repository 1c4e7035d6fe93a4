use raytracer::fixed::ONE;
use raytracer::geometry::{Light, Material, Sphere, Vec3f, Vec4f};
use raytracer::tracer::{
    background_color, cast_ray, light_contribution, primary_ray, reflect, refract, render,
    scene_intersect, RenderConfig, HORIZON, MAX_DEPTH, SHADOW_EPS,
};

fn units(x: i64, y: i64, z: i64) -> Vec3f {
    Vec3f(x * ONE, y * ONE, z * ONE)
}

/// A value in units, rounded to the raw grid.
fn fx(v: f64) -> i64 {
    (v * ONE as f64).round() as i64
}

fn plain_sphere(center: Vec3f, radius: i64) -> Sphere {
    Sphere { center, radius, material: Material::new() }
}

fn ivory_diffuse() -> Material {
    Material {
        diffuse_color: Vec3f(fx(0.4), fx(0.4), fx(0.3)),
        albedo: Vec4f(fx(0.6), 0, 0, 0),
        specular_exponent: 50,
        refractive_index: ONE,
    }
}

fn dist2(a: Vec3f, b: Vec3f) -> i128 {
    let dx = (a.0 - b.0) as i128;
    let dy = (a.1 - b.1) as i128;
    let dz = (a.2 - b.2) as i128;
    dx * dx + dy * dy + dz * dz
}

#[test]
fn reflect_mirrors_about_normal() {
    assert_eq!(reflect(&units(1, -1, 0), &units(0, 1, 0)), units(1, 1, 0));
}

#[test]
fn refract_straight_through_with_index_one() {
    let d = units(0, -1, 0);
    assert_eq!(refract(&d, &units(0, 1, 0), ONE), d);
}

#[test]
fn refract_bends_toward_normal_entering_glass() {
    let mut d = units(1, -1, 0);
    d.normalize();
    let r = refract(&d, &units(0, 1, 0), fx(1.5));
    assert!(r.0 > 0 && r.0 < d.0);
    assert!(r.1 < 0);
}

#[test]
fn total_internal_reflection_gives_zero_vector() {
    let mut d = Vec3f(ONE, fx(0.1), 0);
    d.normalize();
    assert_eq!(refract(&d, &units(0, 1, 0), fx(1.5)), Vec3f(0, 0, 0));
}

#[test]
fn empty_scene_reports_no_hit() {
    assert!(scene_intersect(&units(0, 0, 0), &units(0, 0, -1), &[], HORIZON).is_none());
}

#[test]
fn scene_query_picks_nearest_sphere() {
    let far = plain_sphere(units(0, 0, -30), 2 * ONE);
    let near = plain_sphere(units(0, 0, -10), ONE);
    let h = scene_intersect(&units(0, 0, 0), &units(0, 0, -1), &[far, near], HORIZON).unwrap();
    assert_eq!(h.distance, 9 * ONE);
    assert_eq!(h.point, units(0, 0, -9));
    assert_eq!(h.normal, units(0, 0, 1));
}

#[test]
fn scene_query_ignores_hits_past_horizon() {
    let s = plain_sphere(units(0, 0, -2000), 2 * ONE);
    assert!(scene_intersect(&units(0, 0, 0), &units(0, 0, -1), &[s], HORIZON).is_none());
    let s = plain_sphere(units(0, 0, -990), 2 * ONE);
    let h = scene_intersect(&units(0, 0, 0), &units(0, 0, -1), &[s], HORIZON).unwrap();
    assert_eq!(h.distance, 988 * ONE);
    assert!(scene_intersect(&units(0, 0, 0), &units(0, 0, -1), &[s], 988 * ONE).is_none());
}

#[test]
fn occluded_light_adds_nothing_and_free_light_does() {
    let ground = plain_sphere(units(0, 0, -10), 2 * ONE);
    let blocker = plain_sphere(units(0, 6, -10), ONE);
    let light = Light { position: units(0, 20, -10), intensity: ONE };
    let dir = units(0, -1, 0);
    let orig = units(0, 5, -10);
    let scene = [ground];
    let cfg = RenderConfig::reference();
    let h = scene_intersect(&orig, &dir, &scene, HORIZON).unwrap();
    assert_eq!(h.point, units(0, 2, -10));
    assert_eq!(light_contribution(&dir, &[ground, blocker], &light, &h, &cfg), (0, 0));
    let (diffuse, specular) = light_contribution(&dir, &scene, &light, &h, &cfg);
    assert_eq!(diffuse, ONE);
    assert!(specular > 0);
}

#[test]
fn deep_rays_see_background() {
    let s = plain_sphere(units(0, 0, -10), 2 * ONE);
    let light = Light { position: units(0, 20, 0), intensity: ONE };
    let cfg = RenderConfig::reference();
    let c = cast_ray(&units(0, 0, 0), &units(0, 0, -1), &[s], &[light], &cfg, MAX_DEPTH + 1);
    assert_eq!(c, background_color());
    let shallow = RenderConfig { max_depth: 0, ..cfg };
    let c = cast_ray(&units(0, 0, 0), &units(0, 0, -1), &[s], &[light], &shallow, 1);
    assert_eq!(c, background_color());
    let c = cast_ray(&units(0, 0, 0), &units(0, 0, -1), &[s], &[light], &shallow, 0);
    assert_ne!(c, background_color());
    assert_eq!(background_color(), Vec3f(fx(0.2), fx(0.7), fx(0.8)));
}

#[test]
fn missing_ray_sees_background() {
    let s = plain_sphere(units(0, 0, -10), 2 * ONE);
    let c = cast_ray(&units(0, 0, 0), &units(0, 0, 1), &[s], &[], &RenderConfig::reference(), 0);
    assert_eq!(c, background_color());
}

#[test]
fn diffuse_sphere_lit_from_front() {
    let s = Sphere { center: units(0, 0, -10), radius: 2 * ONE, material: ivory_diffuse() };
    let light = Light { position: units(0, 0, 0), intensity: ONE };
    let c = cast_ray(&units(0, 0, 0), &units(0, 0, -1), &[s], &[light], &RenderConfig::reference(), 0);
    // 0.4 * 0.6 and 0.3 * 0.6, each product rounded toward zero on the raw grid.
    let k = fx(0.6);
    assert_eq!(c, Vec3f(fx(0.4) * k / ONE, fx(0.4) * k / ONE, fx(0.3) * k / ONE));
}

#[test]
fn primary_rays_follow_pinhole_camera() {
    let cfg = RenderConfig { width: 4, height: 2, ..RenderConfig::reference() };
    let d = primary_ray(&cfg, 1, 0);
    assert!(d.0 < 0 && d.1 > 0 && d.2 < 0);
    let d = primary_ray(&cfg, 3, 1);
    assert!(d.0 > 0 && d.1 < 0 && d.2 < 0);
    let n = d.norm();
    assert!(ONE - 4 <= n && n <= ONE);
    let r = RenderConfig::reference();
    assert_eq!((r.width, r.height, r.tan_half_fov), (1024, 768, ONE));
    assert_eq!((r.max_depth, r.shadow_eps, r.horizon), (4, SHADOW_EPS, 1000 * ONE));
}

#[test]
fn render_fills_row_major_framebuffer() {
    let cfg = RenderConfig { width: 3, height: 2, ..RenderConfig::reference() };
    let s = plain_sphere(units(0, 0, -10), 2 * ONE);
    let light = Light { position: units(0, 20, 0), intensity: ONE };
    let fb = render(&[s], &[light], &cfg);
    assert_eq!(fb.len(), 6);
    for j in 0..2 {
        for i in 0..3 {
            let d = primary_ray(&cfg, i, j);
            assert_eq!(fb[i + j * 3], cast_ray(&units(0, 0, 0), &d, &[s], &[light], &cfg, 0));
        }
    }
}

#[test]
fn single_ivory_sphere_scene() {
    let w: usize = 64;
    let h: usize = 48;
    let cfg = RenderConfig { width: w, height: h, ..RenderConfig::reference() };
    let m = ivory_diffuse();
    let s = Sphere { center: units(-3, 0, -16), radius: 2 * ONE, material: m };
    let light = Light { position: units(-20, 20, 20), intensity: fx(1.5) };
    let fb = render(&[s], &[light], &cfg);
    let bg = background_color();
    // x = (2i + 1 - w) / h = -3 / 16 and y = 0 at the projected centre.
    let i = 27;
    let j = 23;
    let c = fb[i + j * w];
    assert!(dist2(c, m.diffuse_color) < dist2(c, bg));
    assert_eq!(fb[0], bg);
    assert_eq!(fb[w - 1], bg);
    assert_eq!(fb[(h - 1) * w], bg);
    assert_eq!(fb[w * h - 1], bg);
}

fn units_f(v: Vec3f) -> [f64; 3] {
    [v.0 as f64 / ONE as f64, v.1 as f64 / ONE as f64, v.2 as f64 / ONE as f64]
}

fn dist_f(a: [f64; 3], b: [f64; 3]) -> f64 {
    ((a[0] - b[0]).powi(2) + (a[1] - b[1]).powi(2) + (a[2] - b[2]).powi(2)).sqrt()
}

#[test]
fn single_ivory_sphere_full_size_centre_pixel() {
    let cfg = RenderConfig::reference();
    let m = ivory_diffuse();
    let s = Sphere { center: units(-3, 0, -16), radius: 2 * ONE, material: m };
    let light = Light { position: units(-20, 20, 20), intensity: fx(1.5) };
    // x = (2i + 1 - 1024) / 768 = -3/16 and y = (768 - 2j - 1) / 768 = 0 nearest (440, 384).
    let (i, j) = (440, 384);
    let dir = primary_ray(&cfg, i, j);
    let c = cast_ray(&units(0, 0, 0), &dir, &[s], &[light], &cfg, 0);
    let h = scene_intersect(&units(0, 0, 0), &dir, &[s], cfg.horizon).unwrap();
    let p = units_f(h.point);
    let n = units_f(h.normal);
    let to_light = [-20.0 - p[0], 20.0 - p[1], 20.0 - p[2]];
    let len = dist_f(to_light, [0.0; 3]);
    let ldn = (to_light[0] * n[0] + to_light[1] * n[1] + to_light[2] * n[2]) / len;
    let k = 1.5 * ldn.max(0.0) * 0.6;
    let lit = [0.4 * k, 0.4 * k, 0.3 * k];
    let cf = units_f(c);
    assert!(dist_f(cf, lit) < dist_f(cf, [0.2, 0.7, 0.8]));
    assert!(dist_f(cf, lit) < 1e-6);
}
