//! The pinhole camera: from a pixel to a primary ray.
use crate::fixed::{
    dot_raw, div_toward_zero, floor_div, floor_sqrt, trunc_div, is_floor_sqrt, isqrt, lemma_div_within,
    lemma_floor_sqrt_exists, lemma_floor_sqrt_is, lemma_mul_within, v_sub, Vec3, COORD_LIMIT, ONE,
    V3,
};
use crate::geometry::{Ray, RayModel};
use vstd::prelude::*;

verus! {

/// Largest width or height of a viewport, in pixels.
pub const MAX_SIDE: u32 = 65536;

/// A camera looking down its local -Z axis, whose frame is aligned with
/// the world axes. `up` and `at` describe an orientation that ray
/// generation does not apply.
#[derive(Clone, Copy, Debug, PartialEq, Eq, Structural)]
pub struct Camera {
    pub position: Vec3,
    pub up: Vec3,
    pub at: Vec3,
    /// The tangent of half the vertical field of view, in fixed-point units.
    pub fov_scale: i64,
}

impl Camera {
    /// The position is in range and the field of view is strictly between
    /// zero and a bound well short of a half turn.
    pub open spec fn wf(&self) -> bool {
        crate::fixed::within(self.position@, COORD_LIMIT as int) && 0 < self.fov_scale
            <= COORD_LIMIT
    }
}

/// The size in pixels of the image to render.
#[derive(Clone, Copy, Debug, PartialEq, Eq, Structural)]
pub struct RenderOptions {
    pub width: u32,
    pub height: u32,
}

impl RenderOptions {
    pub open spec fn wf(&self) -> bool {
        self.width <= MAX_SIDE && self.height <= MAX_SIDE
    }
}

/// The point on the image plane `z = -1` through the center of pixel
/// `(px, py)`, row 0 at the top: screen coordinates `2 (px + 1/2) / w - 1`
/// and `1 - 2 (py + 1/2) / h`, the first scaled by the aspect ratio `w / h`,
/// both by the field-of-view tangent, and rounded toward zero once.
pub open spec fn image_plane_point(cam: Camera, opts: RenderOptions, px: int, py: int) -> V3 {
    let w = opts.width as int;
    let h = opts.height as int;
    let f = cam.fov_scale as int;
    V3 {
        x: div_toward_zero((2 * px + 1 - w) * f, h),
        y: div_toward_zero((h - 2 * py - 1) * f, h),
        z: -ONE,
    }
}

/// `v` scaled to unit length, each coordinate rounded down; `None` for the
/// zero vector.
pub open spec fn normalized(v: V3) -> Option<V3> {
    let len = floor_sqrt(dot_raw(v, v));
    if len == 0 {
        None
    } else {
        Some(V3 { x: v.x * ONE / len, y: v.y * ONE / len, z: v.z * ONE / len })
    }
}

/// The ray from the camera through the center of pixel `(px, py)`; `None`
/// where the camera sits on that image-plane point.
pub open spec fn primary_ray(cam: Camera, opts: RenderOptions, px: int, py: int) -> Option<
    RayModel,
> {
    match normalized(v_sub(image_plane_point(cam, opts, px, py), cam.position@)) {
        None => None,
        Some(d) => Some(RayModel { origin: cam.position@, direction: d }),
    }
}

proof fn lemma_coord_le_len(c: int, n: int, len: int)
    requires
        c * c <= n,
        is_floor_sqrt(n, len),
    ensures
        -len <= c <= len,
{
    assert(-len <= c <= len) by (nonlinear_arith)
        requires
            c * c <= n,
            n < (len + 1) * (len + 1),
            0 <= len,
    ;
}

/// The unit direction of `(vx, vy, vz)`, or `None` for the zero vector.
fn normalize(vx: i128, vy: i128, vz: i128) -> (r: Option<Vec3>)
    requires
        -0x2_0000_0000_0000 <= vx <= 0x2_0000_0000_0000,
        -0x2_0000_0000_0000 <= vy <= 0x2_0000_0000_0000,
        -0x2_0000_0000_0000 <= vz <= 0x2_0000_0000_0000,
    ensures
        match r {
            Some(d) => normalized(V3 { x: vx as int, y: vy as int, z: vz as int }) == Some(d@)
                && crate::fixed::within(d@, ONE as int),
            None => normalized(V3 { x: vx as int, y: vy as int, z: vz as int }) is None,
        },
{
    let ghost v = V3 { x: vx as int, y: vy as int, z: vz as int };
    let ghost b: int = 0x2_0000_0000_0000int;
    proof {
        lemma_mul_within(vx as int, vx as int, b, b);
        lemma_mul_within(vy as int, vy as int, b, b);
        lemma_mul_within(vz as int, vz as int, b, b);
        assert(vx * vx >= 0 && vy * vy >= 0 && vz * vz >= 0) by (nonlinear_arith);
    }
    let n = (vx * vx + vy * vy + vz * vz) as u128;
    let len = isqrt(n);
    proof {
        assert(dot_raw(v, v) == n as int);
        lemma_floor_sqrt_is(n as int, len as int);
    }
    if len == 0 {
        return None;
    }
    let l = len as i128;
    proof {
        lemma_coord_le_len(vx as int, n as int, len as int);
        lemma_coord_le_len(vy as int, n as int, len as int);
        lemma_coord_le_len(vz as int, n as int, len as int);
        lemma_mul_within(vx as int, ONE as int, len as int, ONE as int);
        lemma_mul_within(vy as int, ONE as int, len as int, ONE as int);
        lemma_mul_within(vz as int, ONE as int, len as int, ONE as int);
        lemma_div_within(vx * ONE, len as int, ONE as int);
        lemma_div_within(vy * ONE, len as int, ONE as int);
        lemma_div_within(vz * ONE, len as int, ONE as int);
    }
    let dx = floor_div(vx * (ONE as i128), l);
    let dy = floor_div(vy * (ONE as i128), l);
    let dz = floor_div(vz * (ONE as i128), l);
    Some(Vec3 { x: dx as i64, y: dy as i64, z: dz as i64 })
}

/// The primary ray through the center of pixel `(px, py)`.
pub fn camera_ray(camera: &Camera, options: &RenderOptions, px: u32, py: u32) -> (r: Option<Ray>)
    requires
        camera.wf(),
        options.wf(),
        px < options.width,
        py < options.height,
    ensures
        match r {
            Some(ray) => primary_ray(*camera, *options, px as int, py as int) == Some(ray@)
                && ray@.wf(),
            None => primary_ray(*camera, *options, px as int, py as int) is None,
        },
{
    let w = options.width as i128;
    let h = options.height as i128;
    let f = camera.fov_scale as i128;
    let ax = 2 * (px as i128) + 1 - w;
    let ay = h - 2 * (py as i128) - 1;
    let ghost b: int = 0x1_0000_0000_0000int;
    proof {
        lemma_mul_within(ax as int, f as int, 0x1_0000int, COORD_LIMIT as int);
        lemma_mul_within(ay as int, f as int, 0x1_0000int, COORD_LIMIT as int);
        assert(b <= b * h) by (nonlinear_arith)
            requires
                h >= 1,
                b > 0,
        ;
        lemma_div_within(ax * f, h as int, b);
        lemma_div_within(ay * f, h as int, b);
        lemma_div_within(-(ax * f), h as int, b);
        lemma_div_within(-(ay * f), h as int, b);
    }
    let sx = trunc_div(ax * f, h);
    let sy = trunc_div(ay * f, h);
    let vx = sx - camera.position.x as i128;
    let vy = sy - camera.position.y as i128;
    let vz = -(ONE as i128) - camera.position.z as i128;
    match normalize(vx, vy, vz) {
        None => None,
        Some(d) => Some(Ray { origin: camera.position, direction: d }),
    }
}

/// For an even-sized viewport and a camera at the world origin, the ray
/// through the pixel nearest the image center points down the forward
/// axis, off it sideways by no more than the half-pixel offset on the image
/// plane, `fov_scale / height`.
pub proof fn lemma_center_ray_forward(cam: Camera, opts: RenderOptions)
    requires
        cam.wf(),
        opts.wf(),
        cam.position@ == (V3 { x: 0, y: 0, z: 0 }),
        opts.width > 0,
        opts.height > 0,
        opts.width % 2 == 0,
        opts.height % 2 == 0,
    ensures
        ({
            let h = opts.height as int;
            let f = cam.fov_scale as int;
            let p = primary_ray(cam, opts, opts.width as int / 2, h / 2);
            &&& p is Some
            &&& p->0.origin == cam.position@
            &&& -ONE <= p->0.direction.z < 0
            &&& 0 <= p->0.direction.x && p->0.direction.x * h <= f
            &&& p->0.direction.y <= 0 && -p->0.direction.y * h <= f
        }),
{
    let w = opts.width as int;
    let h = opts.height as int;
    let f = cam.fov_scale as int;
    let pt = image_plane_point(cam, opts, w / 2, h / 2);
    assert(2 * (w / 2) + 1 - w == 1);
    assert(h - 2 * (h / 2) - 1 == -1);
    assert(pt.x == f / h);
    assert(pt.y == -(f / h));
    assert(0 <= f / h && (f / h) * h <= f) by (nonlinear_arith)
        requires
            f > 0,
            h > 0,
    ;
    let v = v_sub(pt, cam.position@);
    assert(v == pt);
    let n = dot_raw(v, v);
    assert(v.x * v.x >= 0 && v.y * v.y >= 0) by (nonlinear_arith);
    assert(v.z == -65536);
    let vz = v.z;
    assert(vz * vz == 65536 * 65536) by (nonlinear_arith)
        requires
            vz == -65536,
    ;
    assert(n >= ONE * ONE);
    lemma_floor_sqrt_exists(n);
    let len = floor_sqrt(n);
    assert(len >= ONE) by (nonlinear_arith)
        requires
            n >= 65536 * 65536,
            n < (len + 1) * (len + 1),
            len >= 0,
    ;
    let dx = v.x * ONE / len;
    let dy = v.y * ONE / len;
    assert(0 <= dx <= v.x) by (nonlinear_arith)
        requires
            v.x >= 0,
            len >= 65536,
            dx == v.x * 65536 / len,
    ;
    assert(v.y <= dy <= 0) by (nonlinear_arith)
        requires
            v.y <= 0,
            len >= 65536,
            dy == v.y * 65536 / len,
    ;
    assert(dx * h <= f && -dy * h <= f) by (nonlinear_arith)
        requires
            0 <= dx <= v.x,
            v.y <= dy <= 0,
            v.x == f / h,
            v.y == -(f / h),
            (f / h) * h <= f,
            h > 0,
    ;
    assert(-ONE <= v.z * ONE / len < 0) by (nonlinear_arith)
        requires
            v.z == -65536,
            len >= 65536,
    ;
}

} // verus!
