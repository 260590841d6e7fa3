//! Grayscale facing-ratio shading of the nearest hit.
use crate::fixed::{
    floor_div, fx_dot, lemma_div_within, lemma_mul_within, v_add, v_neg, v_scale, v_sub, Vec3,
    ONE,
};
use crate::geometry::{Ray, RayModel, Sphere, SphereModel, DIST_LIMIT};
use crate::scene::{closest_in, closest_intersection, lemma_closest_is_nearest, Scene};
use vstd::prelude::*;

verus! {

/// An 8-bit RGBA color.
#[derive(Clone, Copy, Debug, PartialEq, Eq, Structural)]
pub struct Color {
    pub r: u8,
    pub g: u8,
    pub b: u8,
    pub a: u8,
}

/// Opaque black, shown where no sphere is hit.
pub open spec fn background() -> Color {
    Color { r: 0, g: 0, b: 0, a: 255 }
}

/// The opaque gray of level `v`.
pub open spec fn gray(v: u8) -> Color {
    Color { r: v, g: v, b: v, a: 255 }
}

/// The gray level of a hit at distance `t`: 255 times the facing ratio, the
/// dot product of the surface normal with the reversed ray direction,
/// clamped below at zero and saturated at 255. The normal is not
/// normalized: its length is the sphere's radius, so a sphere of radius
/// above one unit saturates where it faces the ray.
pub open spec fn shade_value(s: SphereModel, ray: RayModel, t: int) -> int {
    let point = v_add(ray.origin, v_scale(ray.direction, t));
    let normal = v_sub(point, s.center);
    let dot = fx_dot(normal, v_neg(ray.direction));
    let facing = if dot < 0 {
        0
    } else {
        dot
    };
    let level = (255 * facing) / (ONE as int);
    if level > 255 {
        255
    } else {
        level
    }
}

/// The color that the ray sees in a scene of these spheres.
pub open spec fn color_of(spheres: Seq<Sphere>, ray: RayModel) -> Color {
    match closest_in(spheres, ray) {
        None => background(),
        Some(b) => gray(shade_value(spheres[b.0]@, ray, b.1) as u8),
    }
}

/// The gray level of `sphere` seen along `ray` at `distance`.
pub fn shade(sphere: &Sphere, ray: &Ray, distance: i64) -> (r: u8)
    requires
        sphere@.wf(),
        ray@.wf(),
        -DIST_LIMIT <= distance <= DIST_LIMIT,
    ensures
        r as int == shade_value(sphere@, ray@, distance as int),
{
    let t = distance as i128;
    let ghost b_t: int = DIST_LIMIT as int;
    proof {
        lemma_mul_within(ray.direction.x as int, t as int, ONE as int, b_t);
        lemma_mul_within(ray.direction.y as int, t as int, ONE as int, b_t);
        lemma_mul_within(ray.direction.z as int, t as int, ONE as int, b_t);
        lemma_div_within(ray.direction.x * t, ONE as int, b_t);
        lemma_div_within(ray.direction.y * t, ONE as int, b_t);
        lemma_div_within(ray.direction.z * t, ONE as int, b_t);
    }
    let point = Vec3 {
        x: (ray.origin.x as i128 + floor_div(ray.direction.x as i128 * t, ONE as i128)) as i64,
        y: (ray.origin.y as i128 + floor_div(ray.direction.y as i128 * t, ONE as i128)) as i64,
        z: (ray.origin.z as i128 + floor_div(ray.direction.z as i128 * t, ONE as i128)) as i64,
    };
    let n = sphere.normal(point);
    let ghost b_n: int = 0x40_0000_0000int;
    proof {
        lemma_mul_within(n.x as int, -ray.direction.x, b_n, ONE as int);
        lemma_mul_within(n.y as int, -ray.direction.y, b_n, ONE as int);
        lemma_mul_within(n.z as int, -ray.direction.z, b_n, ONE as int);
    }
    let raw = n.x as i128 * -(ray.direction.x as i128) + n.y as i128 * -(ray.direction.y as i128)
        + n.z as i128 * -(ray.direction.z as i128);
    let dot = floor_div(raw, ONE as i128);
    proof {
        lemma_div_within(raw as int, ONE as int, 3 * b_n);
    }
    let facing = if dot < 0 {
        0
    } else {
        dot
    };
    let level = floor_div(255 * facing, ONE as i128);
    if level > 255 {
        255
    } else {
        proof {
            assert(level >= 0) by (nonlinear_arith)
                requires
                    facing >= 0,
                    level == (255 * facing) / 65536,
            ;
        }
        level as u8
    }
}

/// The color that `ray` sees in `scene`: the shaded nearest hit, or the
/// background where nothing is hit.
pub fn get_pixel_color(scene: &Scene, ray: &Ray) -> (r: Color)
    requires
        scene.wf(),
        ray@.wf(),
    ensures
        r == color_of(scene.spheres@, ray@),
{
    match closest_intersection(scene, ray) {
        None => Color { r: 0, g: 0, b: 0, a: 255 },
        Some((i, t)) => {
            proof {
                lemma_closest_is_nearest(scene.spheres@, ray@);
                assert(scene.spheres@[i as int]@.wf());
            }
            let v = shade(&scene.spheres[i], ray, t);
            Color { r: v, g: v, b: v, a: 255 }
        },
    }
}

} // verus!
