//! Nearest-hit scene queries, recursive shading and the pixel loop.
use crate::fixed::{
    add_spec, div_spec, fx_add, fx_div, fx_max, fx_min, fx_mul, fx_pow, fx_sqrt, fx_sub, in_range,
    is_isqrt, lemma_isqrt_unique, lemma_sqrt_is_isqrt, max_spec, min_spec, mul_spec, pow_spec, quot,
    quot_wide, sat, sat_wide, sqrt_spec, sub_spec, LIM, ONE, WIDE,
};
use crate::geometry::{
    dot_spec, hit_distance, norm_spec, normalize_spec, vadd, vec3, vneg, vscale, vsub, Light,
    Material, Sphere, Vec3f,
};
use vstd::prelude::*;

verus! {

/// Reference recursion depth past which a ray sees only the background.
pub const MAX_DEPTH: u32 = 4;

/// Reference distance by which a secondary ray's origin is moved off the
/// surface (about 1e-3).
pub const SHADOW_EPS: i64 = 1073742;

/// Reference distance at which, or beyond which, hits count as misses
/// (1000 units).
pub const HORIZON: i64 = 1073741824000;

/// The colour of a ray that meets nothing: (0.2, 0.7, 0.8).
pub open spec fn background() -> Vec3f {
    Vec3f(214748365, 751619277, 858993459)
}

pub open spec fn white() -> Vec3f {
    Vec3f(ONE, ONE, ONE)
}

pub open spec fn zero() -> Vec3f {
    Vec3f(0, 0, 0)
}

pub fn background_color() -> (r: Vec3f)
    ensures
        r == background(),
{
    Vec3f(214748365, 751619277, 858993459)
}

/// What a scene query reports about the nearest sphere a ray meets.
#[derive(Debug, Clone, Copy, PartialEq, Eq, Structural)]
pub struct HitRecord {
    pub distance: i64,
    pub point: Vec3f,
    /// Unit outward normal at `point`.
    pub normal: Vec3f,
    pub material: Material,
}

impl HitRecord {
    pub open spec fn wf(self) -> bool {
        in_range(self.distance as int) && self.point.wf() && self.normal.wf()
            && self.material.wf()
    }
}

pub open spec fn scene_wf(spheres: Seq<Sphere>) -> bool {
    forall|i: int| 0 <= i < spheres.len() ==> (#[trigger] spheres[i]).wf()
}

pub open spec fn lights_wf(lights: Seq<Light>) -> bool {
    forall|i: int| 0 <= i < lights.len() ==> (#[trigger] lights[i]).wf()
}

/// `i - n * 2 * dot(i, n)`: the mirror image of `i` about the plane with normal `n`.
pub open spec fn reflect_spec(i: Vec3f, n: Vec3f) -> Vec3f {
    vsub(i, vscale(vscale(n, 2 * ONE), dot_spec(i, n)))
}

/// `1 - eta^2 (1 - cos^2 i)`: negative exactly under total internal reflection.
pub open spec fn refract_k(i: Vec3f, n: Vec3f, eta_t: int) -> int {
    let c = -max_spec(-ONE, min_spec(ONE as int, dot_spec(i, n)));
    let cosi = if c < 0 { -c } else { c };
    let eta = if c < 0 { div_spec(eta_t, ONE as int) } else { div_spec(ONE as int, eta_t) };
    sub_spec(ONE as int, mul_spec(mul_spec(eta, eta), sub_spec(ONE as int, mul_spec(cosi, cosi))))
}

/// The direction transmitted through a surface with normal `n` into a medium
/// of index `eta_t` (Snell's law), or the zero vector under total internal
/// reflection. A ray that leaves the medium (`dot(i, n) > 0`) swaps the two
/// indices and turns the normal round.
pub open spec fn refract_spec(i: Vec3f, n: Vec3f, eta_t: int) -> Vec3f {
    let c = -max_spec(-ONE, min_spec(ONE as int, dot_spec(i, n)));
    let cosi = if c < 0 { -c } else { c };
    let eta = if c < 0 { div_spec(eta_t, ONE as int) } else { div_spec(ONE as int, eta_t) };
    let nn = if c < 0 { vneg(n) } else { n };
    let k = refract_k(i, n, eta_t);
    if k < 0 {
        zero()
    } else {
        vadd(vscale(i, eta), vscale(nn, sub_spec(mul_spec(eta, cosi), sqrt_spec(k))))
    }
}

/// `p` moved by `eps` along `n`, to the side toward which `dir` leaves.
pub open spec fn offset_spec(p: Vec3f, n: Vec3f, dir: Vec3f, eps: int) -> Vec3f {
    if dot_spec(dir, n) < 0 {
        vsub(p, vscale(n, eps))
    } else {
        vadd(p, vscale(n, eps))
    }
}

pub open spec fn hits(s: Sphere, o: Vec3f, d: Vec3f) -> bool {
    hit_distance(s, o, d).is_some()
}

pub open spec fn dist(s: Sphere, o: Vec3f, d: Vec3f) -> int {
    match hit_distance(s, o, d) {
        Some(t) => t,
        None => 0,
    }
}

/// Sphere `k` is hit, no sphere is hit nearer, and none before it as near.
pub open spec fn is_nearest(o: Vec3f, d: Vec3f, s: Seq<Sphere>, k: int) -> bool {
    &&& 0 <= k < s.len()
    &&& hits(s[k], o, d)
    &&& forall|i: int|
        0 <= i < s.len() && #[trigger] hits(s[i], o, d) ==> dist(s[k], o, d) <= dist(s[i], o, d)
            && (i < k ==> dist(s[k], o, d) < dist(s[i], o, d))
}

/// The record of the ray from `o` along `d` meeting sphere `s`.
pub open spec fn record_spec(o: Vec3f, d: Vec3f, s: Sphere) -> HitRecord {
    let t = dist(s, o, d);
    let p = vadd(o, vscale(d, t));
    HitRecord {
        distance: t as i64,
        point: p,
        normal: normalize_spec(vsub(p, s.center)),
        material: s.material,
    }
}

/// The nearest sphere the ray meets, unless it lies at the horizon or beyond.
pub open spec fn scene_spec(o: Vec3f, d: Vec3f, s: Seq<Sphere>, horizon: int) -> Option<HitRecord> {
    if exists|k: int| is_nearest(o, d, s, k) {
        let k = choose|k: int| is_nearest(o, d, s, k);
        if dist(s[k], o, d) < horizon {
            Some(record_spec(o, d, s[k]))
        } else {
            None
        }
    } else {
        None
    }
}

pub proof fn lemma_nearest_unique(o: Vec3f, d: Vec3f, s: Seq<Sphere>, k1: int, k2: int)
    requires
        is_nearest(o, d, s, k1),
        is_nearest(o, d, s, k2),
    ensures
        k1 == k2,
{
    assert(hits(s[k1], o, d));
    assert(hits(s[k2], o, d));
}

/// The mirror image of the direction `i` about a surface with normal `n`.
pub fn reflect(i: &Vec3f, n: &Vec3f) -> (r: Vec3f)
    requires
        i.wf(),
        n.wf(),
    ensures
        r == reflect_spec(*i, *n),
        r.wf(),
{
    i.sub(n.scale(2 * ONE).scale(i.dot(*n)))
}

/// The direction `i` takes through a surface with normal `n` between air and
/// a medium of the given index, or the zero vector under total internal
/// reflection.
pub fn refract(i: &Vec3f, n: &Vec3f, refractive_index: i64) -> (r: Vec3f)
    requires
        i.wf(),
        n.wf(),
        0 < refractive_index <= LIM,
    ensures
        r == refract_spec(*i, *n, refractive_index as int),
        r.wf(),
{
    let mut cosi = -fx_max(-ONE, fx_min(ONE, i.dot(*n)));
    let mut etai: i64 = ONE;
    let mut etat: i64 = refractive_index;
    let mut nn = *n;
    if cosi < 0 {
        cosi = -cosi;
        let tmp = etai;
        etai = etat;
        etat = tmp;
        nn = nn.neg();
    }
    let eta = fx_div(etai, etat);
    let k = fx_sub(ONE, fx_mul(fx_mul(eta, eta), fx_sub(ONE, fx_mul(cosi, cosi))));
    if k < 0 {
        Vec3f::new()
    } else {
        i.scale(eta).add(nn.scale(fx_sub(fx_mul(eta, cosi), fx_sqrt(k))))
    }
}

/// The nearest sphere that the ray from `orig` along `dir` meets ahead of
/// its origin and short of the horizon, with the hit point, the unit normal
/// there and the sphere's material.
pub fn scene_intersect(orig: &Vec3f, dir: &Vec3f, spheres: &[Sphere], horizon: i64) -> (r: Option<HitRecord>)
    requires
        orig.wf(),
        dir.wf(),
        scene_wf(spheres@),
    ensures
        r == scene_spec(*orig, *dir, spheres@, horizon as int),
        r matches Some(h) ==> h.wf(),
{
    let ghost s = spheres@;
    let mut best: Option<usize> = None;
    let mut best_dist: i64 = 0;
    let mut idx: usize = 0;
    while idx < spheres.len()
        invariant
            s == spheres@,
            idx <= s.len(),
            orig.wf(),
            dir.wf(),
            scene_wf(s),
            match best {
                None => forall|i: int| 0 <= i < idx ==> !#[trigger] hits(s[i], *orig, *dir),
                Some(k) => {
                    &&& k < idx
                    &&& is_nearest(*orig, *dir, s.take(idx as int), k as int)
                    &&& best_dist == dist(s[k as int], *orig, *dir)
                },
            },
        decreases s.len() - idx,
    {
        let mut t: i64 = 0;
        let hit = spheres[idx].ray_intersect(orig, dir, &mut t);
        let ghost prefix = s.take(idx as int);
        let ghost next = s.take(idx + 1);
        assert(forall|i: int| 0 <= i < idx ==> next[i] == prefix[i] && prefix[i] == s[i]);
        assert(next[idx as int] == s[idx as int]);
        if hit {
            assert(dist(s[idx as int], *orig, *dir) == t);
            match best {
                None => {
                    best = Some(idx);
                    best_dist = t;
                },
                Some(k) => {
                    if t < best_dist {
                        best = Some(idx);
                        best_dist = t;
                    }
                },
            }
        }
        proof {
            match best {
                None => {},
                Some(k) => assert(is_nearest(*orig, *dir, next, k as int)),
            }
        }
        idx = idx + 1;
    }
    assert(s.take(s.len() as int) =~= s);
    match best {
        None => {
            assert(!exists|k: int| is_nearest(*orig, *dir, s, k));
            None
        },
        Some(k) => {
            proof {
                if exists|j: int| is_nearest(*orig, *dir, s, j) {
                    let j = choose|j: int| is_nearest(*orig, *dir, s, j);
                    lemma_nearest_unique(*orig, *dir, s, j, k as int);
                }
            }
            if best_dist < horizon {
                let sp = spheres[k];
                let point = orig.add(dir.scale(best_dist));
                let normal = point.sub(sp.center).normalized();
                Some(HitRecord { distance: best_dist, point, normal, material: sp.material })
            } else {
                None
            }
        },
    }
}

/// Image size, camera and the limits of the ray tree.
#[derive(Debug, Clone, Copy, PartialEq, Eq, Structural)]
pub struct RenderConfig {
    pub width: usize,
    pub height: usize,
    /// Tangent of half the vertical field of view, as a scalar.
    pub tan_half_fov: i64,
    /// Depth past which a ray sees only the background.
    pub max_depth: u32,
    /// Distance by which a secondary ray's origin leaves the surface.
    pub shadow_eps: i64,
    /// Distance at which, or beyond which, a hit counts as a miss.
    pub horizon: i64,
}

impl RenderConfig {
    /// The limits of the ray tree lie in range.
    pub open spec fn tracing_wf(self) -> bool {
        self.max_depth < u32::MAX && in_range(self.shadow_eps as int)
    }

    pub open spec fn wf(self) -> bool {
        &&& 0 < self.width
        &&& 0 < self.height
        &&& self.width * self.height <= usize::MAX
        &&& 0 <= self.tan_half_fov <= LIM
        &&& self.tracing_wf()
    }

    /// 1024 x 768 pixels, a vertical field of view of 90 degrees, depth
    /// limit 4, surface offset 1e-3 and horizon 1000.
    pub fn reference() -> (r: RenderConfig)
        ensures
            r == (RenderConfig {
                width: 1024,
                height: 768,
                tan_half_fov: ONE,
                max_depth: MAX_DEPTH,
                shadow_eps: SHADOW_EPS,
                horizon: HORIZON,
            }),
            r.wf(),
    {
        RenderConfig {
            width: 1024,
            height: 768,
            tan_half_fov: ONE,
            max_depth: MAX_DEPTH,
            shadow_eps: SHADOW_EPS,
            horizon: HORIZON,
        }
    }
}



/// Diffuse and specular intensity that `light` adds at the hit `h` of a ray
/// along `d`: nothing where another sphere stands between the two.
pub open spec fn light_terms(d: Vec3f, spheres: Seq<Sphere>, light: Light, h: HitRecord, cfg: RenderConfig) -> (int, int) {
    let to_light = vsub(light.position, h.point);
    let ldir = normalize_spec(to_light);
    let ldist = norm_spec(to_light);
    let ldn = dot_spec(ldir, h.normal);
    let so = offset_spec(h.point, h.normal, ldir, cfg.shadow_eps as int);
    let shadowed = match scene_spec(so, ldir, spheres, cfg.horizon as int) {
        Some(sh) => norm_spec(vsub(sh.point, so)) < ldist,
        None => false,
    };
    if shadowed {
        (0, 0)
    } else {
        let spec_base = max_spec(0, -dot_spec(reflect_spec(vneg(ldir), h.normal), d));
        (
            mul_spec(light.intensity as int, max_spec(0, ldn)),
            mul_spec(pow_spec(spec_base, h.material.specular_exponent as nat), light.intensity as int),
        )
    }
}

/// The diffuse and specular sums over the first `n` lights.
pub open spec fn light_sums(
    d: Vec3f,
    spheres: Seq<Sphere>,
    lights: Seq<Light>,
    h: HitRecord,
    cfg: RenderConfig,
    n: nat,
) -> (int, int)
    decreases n,
{
    if n == 0 || n > lights.len() {
        (0, 0)
    } else {
        let (a, b) = light_sums(d, spheres, lights, h, cfg, (n - 1) as nat);
        let (x, y) = light_terms(d, spheres, lights[n - 1], h, cfg);
        (add_spec(a, x), add_spec(b, y))
    }
}

/// The four weighted terms of the shading formula, summed.
pub open spec fn shade_spec(m: Material, diffuse: int, specular: int, reflected: Vec3f, refracted: Vec3f) -> Vec3f {
    vadd(
        vadd(
            vadd(
                vscale(vscale(m.diffuse_color, diffuse), m.albedo.0 as int),
                vscale(vscale(white(), specular), m.albedo.1 as int),
            ),
            vscale(reflected, m.albedo.2 as int),
        ),
        vscale(refracted, m.albedo.3 as int),
    )
}

/// The colour seen along the ray from `o` along `d` at recursion depth `depth`.
pub open spec fn cast_spec(
    o: Vec3f,
    d: Vec3f,
    spheres: Seq<Sphere>,
    lights: Seq<Light>,
    cfg: RenderConfig,
    depth: int,
) -> Vec3f
    decreases cfg.max_depth + 1 - depth,
{
    if depth > cfg.max_depth {
        background()
    } else {
        match scene_spec(o, d, spheres, cfg.horizon as int) {
            None => background(),
            Some(h) => {
                let rdir = normalize_spec(reflect_spec(d, h.normal));
                let fdir = normalize_spec(refract_spec(d, h.normal, h.material.refractive_index as int));
                let eps = cfg.shadow_eps as int;
                let rcol = cast_spec(offset_spec(h.point, h.normal, rdir, eps), rdir, spheres, lights, cfg, depth + 1);
                let fcol = if fdir == zero() {
                    zero()
                } else {
                    cast_spec(offset_spec(h.point, h.normal, fdir, eps), fdir, spheres, lights, cfg, depth + 1)
                };
                let (di, si) = light_sums(d, spheres, lights, h, cfg, lights.len());
                shade_spec(h.material, di, si, rcol, fcol)
            },
        }
    }
}

/// `point` moved off the surface, to the side toward which `dir` leaves.
pub fn offset(point: &Vec3f, n: &Vec3f, dir: &Vec3f, eps: i64) -> (r: Vec3f)
    requires
        point.wf(),
        n.wf(),
        dir.wf(),
        in_range(eps as int),
    ensures
        r == offset_spec(*point, *n, *dir, eps as int),
        r.wf(),
{
    if dir.dot(*n) < 0 {
        point.sub(n.scale(eps))
    } else {
        point.add(n.scale(eps))
    }
}

/// What one light adds at the hit `h`: diffuse and specular intensity.
pub fn light_contribution(
    dir: &Vec3f,
    spheres: &[Sphere],
    light: &Light,
    h: &HitRecord,
    cfg: &RenderConfig,
) -> (r: (i64, i64))
    requires
        cfg.tracing_wf(),
        dir.wf(),
        scene_wf(spheres@),
        light.wf(),
        h.wf(),
    ensures
        r.0 as int == light_terms(*dir, spheres@, *light, *h, *cfg).0,
        r.1 as int == light_terms(*dir, spheres@, *light, *h, *cfg).1,
        in_range(r.0 as int),
        in_range(r.1 as int),
{
    let to_light = light.position.sub(h.point);
    let light_dir = to_light.normalized();
    let light_distance = to_light.norm();
    let ldn = light_dir.dot(h.normal);
    let shadow_orig = offset(&h.point, &h.normal, &light_dir, cfg.shadow_eps);
    match scene_intersect(&shadow_orig, &light_dir, spheres, cfg.horizon) {
        Some(sh) => {
            if sh.point.sub(shadow_orig).norm() < light_distance {
                return (0, 0);
            }
        },
        None => {},
    }
    let a = reflect(&light_dir.neg(), &h.normal).dot(*dir);
    let b = fx_max(0, -a);
    let c = fx_pow(b, h.material.specular_exponent);
    (fx_mul(light.intensity, fx_max(0, ldn)), fx_mul(c, light.intensity))
}

/// The colour seen along the ray from `orig` along `dir`: local diffuse and
/// specular light from every unshadowed light, plus the reflected and
/// refracted colours traced one level deeper. Past `cfg.max_depth`, and where
/// the ray meets nothing, the background.
#[verifier::rlimit(60)]
pub fn cast_ray(
    orig: &Vec3f,
    dir: &Vec3f,
    spheres: &[Sphere],
    lights: &[Light],
    cfg: &RenderConfig,
    depth: u32,
) -> (r: Vec3f)
    requires
        cfg.tracing_wf(),
        orig.wf(),
        dir.wf(),
        scene_wf(spheres@),
        lights_wf(lights@),
    ensures
        r == cast_spec(*orig, *dir, spheres@, lights@, *cfg, depth as int),
        r.wf(),
    decreases cfg.max_depth + 1 - depth,
{
    if depth > cfg.max_depth {
        return background_color();
    }
    match scene_intersect(orig, dir, spheres, cfg.horizon) {
        None => background_color(),
        Some(h) => {
            let reflect_dir = reflect(dir, &h.normal).normalized();
            let refract_dir = refract(dir, &h.normal, h.material.refractive_index).normalized();
            let reflect_orig = offset(&h.point, &h.normal, &reflect_dir, cfg.shadow_eps);
            let reflect_color = cast_ray(&reflect_orig, &reflect_dir, spheres, lights, cfg, depth + 1);
            let refract_color = if refract_dir == Vec3f::new() {
                Vec3f::new()
            } else {
                let refract_orig = offset(&h.point, &h.normal, &refract_dir, cfg.shadow_eps);
                cast_ray(&refract_orig, &refract_dir, spheres, lights, cfg, depth + 1)
            };
            let mut diffuse: i64 = 0;
            let mut specular: i64 = 0;
            let mut li: usize = 0;
            while li < lights.len()
                invariant
                    li <= lights@.len(),
                    dir.wf(),
                    h.wf(),
                    cfg.tracing_wf(),
                    scene_wf(spheres@),
                    lights_wf(lights@),
                    (diffuse as int, specular as int) == light_sums(*dir, spheres@, lights@, h, *cfg, li as nat),
                    in_range(diffuse as int),
                    in_range(specular as int),
                decreases lights@.len() - li,
            {
                let (x, y) = light_contribution(dir, spheres, &lights[li], &h, cfg);
                diffuse = fx_add(diffuse, x);
                specular = fx_add(specular, y);
                li = li + 1;
            }
            let m = h.material;
            m.diffuse_color.scale(diffuse).scale(m.albedo.0).add(
                Vec3f(ONE, ONE, ONE).scale(specular).scale(m.albedo.1),
            ).add(reflect_color.scale(m.albedo.2)).add(refract_color.scale(m.albedo.3))
        },
    }
}

/// The unit direction of the primary ray through the centre of pixel
/// `(i, j)`: row 0 is the top of the image, the camera looks down `-z`, and
/// `x` is widened by the aspect ratio.
pub open spec fn primary_dir(cfg: RenderConfig, i: int, j: int) -> Vec3f {
    let w = cfg.width as int;
    let h = cfg.height as int;
    let t = cfg.tan_half_fov as int;
    normalize_spec(vec3(sat(quot((2 * i + 1 - w) * t, h)), sat(quot((h - 2 * j - 1) * t, h)), -ONE))
}

/// The colour of pixel `(i, j)`, seen from the origin.
pub open spec fn pixel_spec(cfg: RenderConfig, spheres: Seq<Sphere>, lights: Seq<Light>, i: int, j: int) -> Vec3f {
    cast_spec(zero(), primary_dir(cfg, i, j), spheres, lights, cfg, 0)
}

pub fn primary_ray(cfg: &RenderConfig, i: usize, j: usize) -> (r: Vec3f)
    requires
        cfg.wf(),
        i < cfg.width,
        j < cfg.height,
    ensures
        r == primary_dir(*cfg, i as int, j as int),
        r.wf(),
{
    let w = cfg.width as i128;
    let h = cfg.height as i128;
    let t = cfg.tan_half_fov as i128;
    assert(-WIDE <= (2 * i + 1 - w) * t <= WIDE) by (nonlinear_arith)
        requires
            0 <= i < w <= 0xFFFF_FFFF_FFFF_FFFF,
            0 <= t <= LIM,
    ;
    assert(-WIDE <= (h - 2 * j - 1) * t <= WIDE) by (nonlinear_arith)
        requires
            0 <= j < h <= 0xFFFF_FFFF_FFFF_FFFF,
            0 <= t <= LIM,
    ;
    let x = sat_wide(quot_wide((2 * i as i128 + 1 - w) * t, h));
    let y = sat_wide(quot_wide((h - 2 * j as i128 - 1) * t, h));
    Vec3f(x, y, -ONE).normalized()
}

/// Traces every pixel of a `width x height` image from the origin. Pixel
/// `(i, j)` lands at index `i + j * width`.
pub fn render(spheres: &[Sphere], lights: &[Light], cfg: &RenderConfig) -> (fb: Vec<Vec3f>)
    requires
        scene_wf(spheres@),
        lights_wf(lights@),
        cfg.wf(),
    ensures
        fb@.len() == cfg.width * cfg.height,
        forall|k: int|
            0 <= k < fb@.len() ==> #[trigger] fb@[k] == pixel_spec(
                *cfg,
                spheres@,
                lights@,
                k % cfg.width as int,
                k / cfg.width as int,
            ),
{
    let w = cfg.width;
    let h = cfg.height;
    let mut fb: Vec<Vec3f> = Vec::new();
    let mut j: usize = 0;
    while j < h
        invariant
            cfg.wf(),
            w == cfg.width,
            h == cfg.height,
            j <= h,
            scene_wf(spheres@),
            lights_wf(lights@),
            fb@.len() == j * w,
            forall|k: int|
                0 <= k < fb@.len() ==> #[trigger] fb@[k] == pixel_spec(*cfg, spheres@, lights@, k % w as int, k / w as int),
        decreases h - j,
    {
        let mut i: usize = 0;
        while i < w
            invariant
                cfg.wf(),
                w == cfg.width,
                h == cfg.height,
                j < h,
                i <= w,
                scene_wf(spheres@),
                lights_wf(lights@),
                fb@.len() == j * w + i,
                forall|k: int|
                    0 <= k < fb@.len() ==> #[trigger] fb@[k] == pixel_spec(*cfg, spheres@, lights@, k % w as int, k / w as int),
            decreases w - i,
        {
            assert((j + 1) * w <= h * w) by (nonlinear_arith)
                requires
                    j < h,
                    0 < w,
            ;
            assert(h * w == w * h) by (nonlinear_arith);
            let dir = primary_ray(cfg, i, j);
            let c = cast_ray(&Vec3f(0, 0, 0), &dir, spheres, lights, cfg, 0);
            proof {
                let k = j * w + i;
                vstd::arithmetic::div_mod::lemma_fundamental_div_mod_converse_mod(k, w as int, j as int, i as int);
                vstd::arithmetic::div_mod::lemma_fundamental_div_mod_converse_div(k, w as int, j as int, i as int);
            }
            fb.push(c);
            i = i + 1;
        }
        assert((j + 1) * w == j * w + w) by (nonlinear_arith);
        j = j + 1;
    }
    assert(h * w == w * h) by (nonlinear_arith);
    fb
}

/// A scene without spheres reports no hit.
pub proof fn lemma_empty_scene_misses(o: Vec3f, d: Vec3f, horizon: int)
    ensures
        scene_spec(o, d, Seq::<Sphere>::empty(), horizon) is None,
{
}

/// A ray whose nearest hit lies at the horizon or beyond reports no hit.
pub proof fn lemma_beyond_horizon_misses(o: Vec3f, d: Vec3f, s: Seq<Sphere>, horizon: int, k: int)
    requires
        is_nearest(o, d, s, k),
        dist(s[k], o, d) >= horizon,
    ensures
        scene_spec(o, d, s, horizon) is None,
{
    let j = choose|j: int| is_nearest(o, d, s, j);
    lemma_nearest_unique(o, d, s, j, k);
}

/// A light hidden from the hit point, where the shadow ray meets a sphere
/// nearer than the light, adds neither diffuse nor specular light.
pub proof fn lemma_occluded_light_adds_nothing(
    d: Vec3f,
    spheres: Seq<Sphere>,
    light: Light,
    h: HitRecord,
    cfg: RenderConfig,
)
    requires
        ({
            let to_light = vsub(light.position, h.point);
            let ldir = normalize_spec(to_light);
            let so = offset_spec(h.point, h.normal, ldir, cfg.shadow_eps as int);
            match scene_spec(so, ldir, spheres, cfg.horizon as int) {
                Some(sh) => norm_spec(vsub(sh.point, so)) < norm_spec(to_light),
                None => false,
            }
        }),
    ensures
        light_terms(d, spheres, light, h, cfg) == (0int, 0int),
{
}

/// A light that nothing hides from the hit point, and that shines on the
/// surface at least one raw unit of intensity, adds diffuse light.
pub proof fn lemma_unoccluded_light_lights(
    d: Vec3f,
    spheres: Seq<Sphere>,
    light: Light,
    h: HitRecord,
    cfg: RenderConfig,
)
    requires
        light.wf(),
        ({
            let ldir = normalize_spec(vsub(light.position, h.point));
            let so = offset_spec(h.point, h.normal, ldir, cfg.shadow_eps as int);
            &&& scene_spec(so, ldir, spheres, cfg.horizon as int) is None
            &&& light.intensity * dot_spec(ldir, h.normal) >= ONE
        }),
    ensures
        light_terms(d, spheres, light, h, cfg).0 > 0,
{
    let ldir = normalize_spec(vsub(light.position, h.point));
    let ldn = dot_spec(ldir, h.normal);
    let x = light.intensity * ldn;
    assert(ldn > 0) by (nonlinear_arith)
        requires
            light.intensity * ldn >= ONE,
            light.intensity >= 0,
    ;
    assert(max_spec(0, ldn) == ldn);
    vstd::arithmetic::div_mod::lemma_div_is_ordered(ONE as int, x, ONE as int);
    vstd::arithmetic::div_mod::lemma_div_multiples_vanish(1, ONE as int);
}

/// Past the depth limit a ray sees the background, whatever the scene.
pub proof fn lemma_depth_cutoff(
    o: Vec3f,
    d: Vec3f,
    spheres: Seq<Sphere>,
    lights: Seq<Light>,
    cfg: RenderConfig,
    depth: int,
)
    requires
        depth > cfg.max_depth,
    ensures
        cast_spec(o, d, spheres, lights, cfg, depth) == background(),
{
}

/// Under total internal reflection at the hit, the refracted direction is
/// the zero vector and the refracted term of the colour is zero: only the
/// local light and the reflected colour remain.
pub proof fn lemma_total_internal_reflection(
    o: Vec3f,
    d: Vec3f,
    spheres: Seq<Sphere>,
    lights: Seq<Light>,
    cfg: RenderConfig,
    depth: int,
    h: HitRecord,
)
    requires
        depth <= cfg.max_depth,
        scene_spec(o, d, spheres, cfg.horizon as int) == Some(h),
        refract_k(d, h.normal, h.material.refractive_index as int) < 0,
    ensures
        refract_spec(d, h.normal, h.material.refractive_index as int) == zero(),
        cast_spec(o, d, spheres, lights, cfg, depth) == ({
            let rdir = normalize_spec(reflect_spec(d, h.normal));
            let ro = offset_spec(h.point, h.normal, rdir, cfg.shadow_eps as int);
            let sums = light_sums(d, spheres, lights, h, cfg, lights.len());
            shade_spec(h.material, sums.0, sums.1, cast_spec(ro, rdir, spheres, lights, cfg, depth + 1), zero())
        }),
{
    lemma_sqrt_is_isqrt(0);
    assert(is_isqrt(0, 0));
    lemma_isqrt_unique(0, sqrt_spec(0), 0);
    assert(normalize_spec(zero()) == zero());
}

/// The light sums over the first `n` lights depend on those lights alone.
proof fn lemma_sums_prefix(
    d: Vec3f,
    spheres: Seq<Sphere>,
    l1: Seq<Light>,
    l2: Seq<Light>,
    h: HitRecord,
    cfg: RenderConfig,
    n: nat,
)
    requires
        n <= l1.len(),
        n <= l2.len(),
        forall|i: int| 0 <= i < n ==> l1[i] == l2[i],
    ensures
        light_sums(d, spheres, l1, h, cfg, n) == light_sums(d, spheres, l2, h, cfg, n),
    decreases n,
{
    if n > 0 {
        lemma_sums_prefix(d, spheres, l1, l2, h, cfg, (n - 1) as nat);
    }
}

/// Dropping a light that adds nothing leaves the light sums as they were.
proof fn lemma_sums_without(
    d: Vec3f,
    spheres: Seq<Sphere>,
    lights: Seq<Light>,
    h: HitRecord,
    cfg: RenderConfig,
    k: int,
    n: nat,
)
    requires
        0 <= k < n <= lights.len(),
        light_terms(d, spheres, lights[k], h, cfg) == (0int, 0int),
    ensures
        light_sums(d, spheres, lights, h, cfg, n) == light_sums(
            d,
            spheres,
            lights.remove(k),
            h,
            cfg,
            (n - 1) as nat,
        ),
    decreases n,
{
    let rest = lights.remove(k);
    if n == k + 1 {
        lemma_sums_prefix(d, spheres, lights, rest, h, cfg, k as nat);
        let prev = light_sums(d, spheres, lights, h, cfg, k as nat);
        if k > 0 {
            assert(in_range(prev.0) && in_range(prev.1));
        }
    } else {
        lemma_sums_without(d, spheres, lights, h, cfg, k, (n - 1) as nat);
        assert(rest[n - 2] == lights[n - 1]);
    }
}

/// At a hit with no reflected or refracted weight, a light hidden from the
/// hit point (the shadow ray meets a sphere nearer than the light) leaves
/// the colour exactly as it is without that light.
pub proof fn lemma_occluded_light_removed(
    o: Vec3f,
    d: Vec3f,
    spheres: Seq<Sphere>,
    lights: Seq<Light>,
    cfg: RenderConfig,
    depth: int,
    h: HitRecord,
    k: int,
)
    requires
        depth <= cfg.max_depth,
        scene_spec(o, d, spheres, cfg.horizon as int) == Some(h),
        h.material.albedo.2 == 0,
        h.material.albedo.3 == 0,
        0 <= k < lights.len(),
        ({
            let to_light = vsub(lights[k].position, h.point);
            let ldir = normalize_spec(to_light);
            let so = offset_spec(h.point, h.normal, ldir, cfg.shadow_eps as int);
            match scene_spec(so, ldir, spheres, cfg.horizon as int) {
                Some(sh) => norm_spec(vsub(sh.point, so)) < norm_spec(to_light),
                None => false,
            }
        }),
    ensures
        cast_spec(o, d, spheres, lights, cfg, depth) == cast_spec(
            o,
            d,
            spheres,
            lights.remove(k),
            cfg,
            depth,
        ),
{
    lemma_occluded_light_adds_nothing(d, spheres, lights[k], h, cfg);
    lemma_sums_without(d, spheres, lights, h, cfg, k, lights.len());
}

} // verus!
