//! Rays and spheres: the analytic ray-sphere intersection test.
use crate::fixed::{
    floor_div, floor_sqrt, fx_dot, fx_mul, is_floor_sqrt, isqrt, lemma_div_within,
    lemma_floor_sqrt_is, lemma_mul_within, v_sub, within, Vec3, COORD_LIMIT, ONE, V3,
};
use vstd::prelude::*;

verus! {

/// Largest magnitude, in fixed-point units, of a reported hit distance.
pub const DIST_LIMIT: i64 = 0x10_0000_0000;

/// A half-line from `origin` along `direction`.
#[derive(Clone, Copy, Debug, PartialEq, Eq, Structural)]
pub struct Ray {
    pub origin: Vec3,
    pub direction: Vec3,
}

pub ghost struct RayModel {
    pub origin: V3,
    pub direction: V3,
}

impl View for Ray {
    type V = RayModel;

    open spec fn view(&self) -> RayModel {
        RayModel { origin: self.origin@, direction: self.direction@ }
    }
}

impl RayModel {
    /// The origin is in range and no direction coordinate exceeds one unit,
    /// as holds of any unit direction.
    pub open spec fn wf(self) -> bool {
        within(self.origin, COORD_LIMIT as int) && within(self.direction, ONE as int)
    }
}

/// A sphere of the scene. A negative radius is accepted and never hit; a
/// radius of zero is hit only by a ray through the center.
#[derive(Clone, Copy, Debug, PartialEq, Eq, Structural)]
pub struct Sphere {
    pub center: Vec3,
    pub radius: i64,
}

pub ghost struct SphereModel {
    pub center: V3,
    pub radius: int,
}

impl View for Sphere {
    type V = SphereModel;

    open spec fn view(&self) -> SphereModel {
        SphereModel { center: self.center@, radius: self.radius as int }
    }
}

impl SphereModel {
    pub open spec fn wf(self) -> bool {
        within(self.center, COORD_LIMIT as int) && -COORD_LIMIT <= self.radius <= COORD_LIMIT
    }
}

/// Distance along the ray to the near surface of the sphere, by the
/// geometric method: reject a negative radius, project the center onto the ray (`tca`), reject a
/// center behind the origin, reject a ray that passes farther from the
/// center than the radius, and step back from the projection by the
/// half-chord `thc`. The far root `tca + thc` is never negative once
/// `tca >= 0`, so the near root `tca - thc` is the answer.
pub open spec fn hit_distance(s: SphereModel, ray: RayModel) -> Option<int> {
    let l = v_sub(s.center, ray.origin);
    let tca = fx_dot(l, ray.direction);
    let d2 = fx_dot(l, l) - fx_mul(tca, tca);
    let r2 = fx_mul(s.radius, s.radius);
    if s.radius < 0 || tca < 0 || d2 > r2 {
        None
    } else {
        Some(tca - floor_sqrt((r2 - d2) * ONE))
    }
}

/// A ray straight down -Z toward a sphere centered `k` units ahead, no
/// closer than its radius `r`, enters it `k - r` units along, at the
/// surface point nearest the origin. This is exact where `r * r` is a
/// whole number of fixed-point units; otherwise the half-chord rounds down.
pub proof fn lemma_hit_on_axis(s: SphereModel, ray: RayModel, k: int)
    requires
        ray.direction == (V3 { x: 0, y: 0, z: -ONE }),
        s.center == (V3 { x: ray.origin.x, y: ray.origin.y, z: ray.origin.z - k }),
        0 <= s.radius <= k,
        (s.radius * s.radius) % (ONE as int) == 0,
    ensures
        hit_distance(s, ray) == Some(k - s.radius),
{
    let r = s.radius;
    let l = v_sub(s.center, ray.origin);
    assert(l == V3 { x: 0, y: 0, z: -k });
    assert(fx_dot(l, ray.direction) == k) by (nonlinear_arith)
        requires
            l == (V3 { x: 0, y: 0, z: -k }),
            ray.direction == (V3 { x: 0, y: 0, z: -65536 }),
    ;
    assert(fx_dot(l, l) == fx_mul(k, k)) by (nonlinear_arith)
        requires
            l == (V3 { x: 0, y: 0, z: -k }),
    ;
    assert((fx_mul(r, r) - 0) * ONE == r * r) by (nonlinear_arith)
        requires
            (r * r) % 65536 == 0,
    ;
    assert(is_floor_sqrt(r * r, r)) by (nonlinear_arith)
        requires
            r >= 0,
    ;
    lemma_floor_sqrt_is(r * r, r);
    assert(fx_mul(r, r) >= 0) by (nonlinear_arith);
}

impl Sphere {
    /// The distance along `ray` to where it enters this sphere, if it does.
    pub fn intersects(&self, ray: &Ray) -> (r: Option<i64>)
        requires
            self@.wf(),
            ray@.wf(),
        ensures
            match r {
                Some(t) => hit_distance(self@, ray@) == Some(t as int) && -DIST_LIMIT <= t
                    <= DIST_LIMIT,
                None => hit_distance(self@, ray@) is None,
            },
    {
        if self.radius < 0 {
            return None;
        }
        let lx = self.center.x as i128 - ray.origin.x as i128;
        let ly = self.center.y as i128 - ray.origin.y as i128;
        let lz = self.center.z as i128 - ray.origin.z as i128;
        let dx = ray.direction.x as i128;
        let dy = ray.direction.y as i128;
        let dz = ray.direction.z as i128;
        let ghost b_l: int = 0x2_0000_0000int;
        proof {
            lemma_mul_within(lx as int, dx as int, b_l, ONE as int);
            lemma_mul_within(ly as int, dy as int, b_l, ONE as int);
            lemma_mul_within(lz as int, dz as int, b_l, ONE as int);
            lemma_mul_within(lx as int, lx as int, b_l, b_l);
            lemma_mul_within(ly as int, ly as int, b_l, b_l);
            lemma_mul_within(lz as int, lz as int, b_l, b_l);
        }
        let ld = lx * dx + ly * dy + lz * dz;
        let tca = floor_div(ld, ONE as i128);
        proof {
            lemma_div_within(ld as int, ONE as int, 3 * b_l);
        }
        if tca < 0 {
            return None;
        }
        let ll = floor_div(lx * lx + ly * ly + lz * lz, ONE as i128);
        proof {
            lemma_div_within((lx * lx + ly * ly + lz * lz) as int, ONE as int, 3 * b_l * b_l / ONE as int);
            lemma_mul_within(tca as int, tca as int, 3 * b_l, 3 * b_l);
        }
        let tt = floor_div(tca * tca, ONE as i128);
        proof {
            lemma_div_within((tca * tca) as int, ONE as int, 9 * b_l * b_l / ONE as int);
            lemma_mul_within(self.radius as int, self.radius as int, COORD_LIMIT as int, COORD_LIMIT as int);
        }
        let d2 = ll - tt;
        let r2 = floor_div(self.radius as i128 * self.radius as i128, ONE as i128);
        proof {
            lemma_div_within((self.radius as i128 * self.radius as i128) as int, ONE as int, COORD_LIMIT as int * COORD_LIMIT as int / ONE as int);
            assert(r2 >= 0) by (nonlinear_arith)
                requires
                    r2 == (self.radius as int * self.radius as int) / (ONE as int),
            ;
        }
        if d2 > r2 {
            return None;
        }
        let n = ((r2 - d2) * (ONE as i128)) as u128;
        let thc = isqrt(n);
        proof {
            lemma_floor_sqrt_is(n as int, thc as int);
            assert(thc < 0x8_0000_0000) by (nonlinear_arith)
                requires
                    is_floor_sqrt(n as int, thc as int),
                    n < 0x40_0000_0000_0000_0000,
            ;
        }
        Some((tca - thc as i128) as i64)
    }

    /// The outward vector from the center to `surface_point`; not
    /// normalized, so its length is the radius for a point on the surface.
    pub fn normal(&self, surface_point: Vec3) -> (r: Vec3)
        requires
            self@.wf(),
            within(surface_point@, 0x4000_0000_0000_0000),
        ensures
            r@ == v_sub(surface_point@, self.center@),
    {
        Vec3 {
            x: surface_point.x - self.center.x,
            y: surface_point.y - self.center.y,
            z: surface_point.z - self.center.z,
        }
    }
}

} // verus!
