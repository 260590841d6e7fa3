use rs_tracer::camera::{camera_ray, Camera, RenderOptions};
use rs_tracer::fixed::{floor_div, isqrt, trunc_div, Vec3, ONE};
use rs_tracer::frame::{render_frame, Frame};
use rs_tracer::geometry::{Ray, Sphere};
use rs_tracer::scene::{closest_intersection, Scene};
use rs_tracer::shade::{get_pixel_color, shade, Color};

fn v(x: i64, y: i64, z: i64) -> Vec3 {
    Vec3 { x, y, z }
}

fn sphere(x: i64, y: i64, z: i64, radius: i64) -> Sphere {
    Sphere { center: v(x * ONE, y * ONE, z * ONE), radius }
}

fn forward_ray() -> Ray {
    Ray { origin: v(0, 0, 0), direction: v(0, 0, -ONE) }
}

fn default_camera() -> Camera {
    Camera { position: v(0, 0, 0), up: v(0, ONE, 0), at: v(ONE, 0, 0), fov_scale: ONE }
}

fn pixel(frame: &Frame, x: u32, y: u32) -> [u8; 4] {
    frame.image.get_pixel(x, y).0
}

#[test]
fn ray_misses_far_off_axis_sphere() {
    assert_eq!(sphere(100, 100, 100, ONE).intersects(&forward_ray()), None);
}

#[test]
fn direct_hit_distance() {
    assert_eq!(sphere(0, 0, -5, ONE).intersects(&forward_ray()), Some(4 * ONE));
}

#[test]
fn sphere_behind_origin_is_rejected() {
    assert_eq!(sphere(0, 0, 5, ONE).intersects(&forward_ray()), None);
}

#[test]
fn tangent_ray_hits_once() {
    // The ray grazes the sphere at (1, 0, -5).
    assert_eq!(sphere(1, 0, -5, ONE).intersects(&forward_ray()), Some(5 * ONE));
}

#[test]
fn degenerate_radius_is_hit_at_most_through_the_center() {
    assert_eq!(sphere(0, 0, -5, 0).intersects(&forward_ray()), Some(5 * ONE));
    assert_eq!(sphere(0, 0, -5, -ONE).intersects(&forward_ray()), None);
    assert_eq!(sphere(1, 0, -5, 0).intersects(&forward_ray()), None);
}

#[test]
fn half_unit_radius_hit_distance() {
    assert_eq!(sphere(0, 0, -5, ONE / 2).intersects(&forward_ray()), Some(4 * ONE + ONE / 2));
}

#[test]
fn normal_points_from_center() {
    let s = sphere(1, 2, -3, ONE);
    assert_eq!(s.normal(v(ONE, 2 * ONE, -2 * ONE)), v(0, 0, ONE));
}

#[test]
fn closest_of_many_in_either_order() {
    let near = sphere(0, 0, -5, ONE);
    let far = sphere(0, 0, -10, 2 * ONE);
    let a = Scene { spheres: vec![near, far] };
    let b = Scene { spheres: vec![far, near] };
    let ra = closest_intersection(&a, &forward_ray()).unwrap();
    let rb = closest_intersection(&b, &forward_ray()).unwrap();
    assert_eq!(ra, (0, 4 * ONE));
    assert_eq!(rb, (1, 4 * ONE));
    assert_eq!(a.spheres[ra.0], b.spheres[rb.0]);
}

#[test]
fn closest_of_none_is_none() {
    let s = Scene { spheres: vec![sphere(0, 0, 5, ONE), sphere(100, 0, 0, ONE)] };
    assert_eq!(closest_intersection(&s, &forward_ray()), None);
    assert_eq!(closest_intersection(&Scene { spheres: vec![] }, &forward_ray()), None);
}

#[test]
fn center_pixel_points_forward() {
    let opts = RenderOptions { width: 640, height: 640 };
    let ray = camera_ray(&default_camera(), &opts, 320, 320).unwrap();
    assert_eq!(ray.origin, v(0, 0, 0));
    // Half a pixel on the image plane is ONE / 640, that is 102.4 units.
    assert_eq!(ray.direction, v(102, -102, -ONE));
    assert!(ray.direction.x.abs() * 640 <= ONE && ray.direction.y.abs() * 640 <= ONE);
}

#[test]
fn corner_pixel_direction_is_normalized() {
    let opts = RenderOptions { width: 2, height: 2 };
    let ray = camera_ray(&default_camera(), &opts, 0, 0).unwrap();
    assert_eq!(ray.direction, v(-26756, 26755, -53511));
}

#[test]
fn camera_on_image_plane_point_gives_no_ray() {
    let opts = RenderOptions { width: 2, height: 2 };
    let mut cam = default_camera();
    cam.position = v(ONE / 2, -ONE / 2, -ONE);
    assert_eq!(camera_ray(&cam, &opts, 1, 1), None);
    assert!(camera_ray(&cam, &opts, 0, 0).is_some());
}

#[test]
fn shading_is_facing_ratio() {
    let s = sphere(0, 0, -5, ONE / 2);
    assert_eq!(shade(&s, &forward_ray(), 4 * ONE + ONE / 2), 127);
    let scene = Scene { spheres: vec![s] };
    assert_eq!(get_pixel_color(&scene, &forward_ray()), Color { r: 127, g: 127, b: 127, a: 255 });
}

#[test]
fn shading_saturates_for_large_radius() {
    let s = sphere(0, 0, -10, 2 * ONE);
    assert_eq!(shade(&s, &forward_ray(), 8 * ONE), 255);
}

#[test]
fn shading_clamps_back_facing_to_zero() {
    // A point past the far side of the sphere: its normal faces along the ray.
    let s = sphere(0, 0, -5, ONE);
    assert_eq!(shade(&s, &forward_ray(), 6 * ONE), 0);
}

#[test]
fn miss_is_background() {
    let scene = Scene { spheres: vec![sphere(0, 0, 5, ONE)] };
    assert_eq!(get_pixel_color(&scene, &forward_ray()), Color { r: 0, g: 0, b: 0, a: 255 });
}

#[test]
fn empty_scene_renders_black() {
    let opts = RenderOptions { width: 4, height: 3 };
    let mut frame = Frame::new(4, 3);
    render_frame(&Scene { spheres: vec![] }, &default_camera(), &opts, &mut frame);
    for x in 0..4 {
        for y in 0..3 {
            assert_eq!(pixel(&frame, x, y), [0, 0, 0, 255]);
        }
    }
}

#[test]
fn rendering_twice_is_identical() {
    let scene = Scene { spheres: vec![sphere(-2, 0, -4, ONE), sphere(4, 2, -10, ONE * 9 / 10)] };
    let opts = RenderOptions { width: 32, height: 24 };
    let mut a = Frame::new(32, 24);
    let mut b = Frame::new(32, 24);
    render_frame(&scene, &default_camera(), &opts, &mut a);
    render_frame(&scene, &default_camera(), &opts, &mut b);
    assert_eq!(a.image.as_raw(), b.image.as_raw());
    let lit = a.image.as_raw().chunks(4).filter(|p| p[0] > 0).count();
    assert!(lit > 0);
}

#[test]
fn rendered_pixel_matches_pixel_color() {
    let scene = Scene { spheres: vec![sphere(0, 0, -5, ONE)] };
    let cam = default_camera();
    let opts = RenderOptions { width: 8, height: 8 };
    let mut frame = Frame::new(8, 8);
    render_frame(&scene, &cam, &opts, &mut frame);
    for x in 0..8 {
        for y in 0..8 {
            let c = get_pixel_color(&scene, &camera_ray(&cam, &opts, x, y).unwrap());
            assert_eq!(pixel(&frame, x, y), [c.r, c.g, c.b, c.a]);
        }
    }
    let center = pixel(&frame, 4, 4);
    assert!(center[0] > 100 && center[0] < 255);
    assert_eq!(pixel(&frame, 0, 0), [0, 0, 0, 255]);
}

#[test]
fn camera_on_pixel_point_renders_background_there() {
    let scene = Scene { spheres: vec![sphere(0, 0, -5, 10 * ONE)] };
    let mut cam = default_camera();
    cam.position = v(ONE / 2, -ONE / 2, -ONE);
    let opts = RenderOptions { width: 2, height: 2 };
    let mut frame = Frame::new(2, 2);
    render_frame(&scene, &cam, &opts, &mut frame);
    assert_eq!(pixel(&frame, 1, 1), [0, 0, 0, 255]);
}

#[test]
fn zero_sized_frame_renders_nothing() {
    let scene = Scene { spheres: vec![sphere(0, 0, -5, ONE)] };
    let mut frame = Frame::new(0, 0);
    render_frame(&scene, &default_camera(), &RenderOptions { width: 0, height: 0 }, &mut frame);
    assert!(frame.image.as_raw().is_empty());
}

#[test]
fn new_frame_is_transparent_black() {
    let frame = Frame::new(3, 2);
    assert_eq!(frame.image.dimensions(), (3, 2));
    assert!(frame.image.as_raw().iter().all(|&s| s == 0));
}

#[test]
fn floor_division_rounds_down() {
    assert_eq!(floor_div(7, 2), 3);
    assert_eq!(floor_div(-7, 2), -4);
    assert_eq!(floor_div(-8, 2), -4);
    assert_eq!(floor_div(-1, 65536), -1);
}

#[test]
fn integer_square_root() {
    assert_eq!(isqrt(0), 0);
    assert_eq!(isqrt(15), 3);
    assert_eq!(isqrt(16), 4);
    assert_eq!(isqrt(6442450944), 80264);
    assert_eq!(isqrt(u128::MAX), u64::MAX);
}

#[test]
fn hit_distance_on_axis_is_center_minus_radius() {
    assert_eq!(sphere(0, 0, -7, 3 * ONE).intersects(&forward_ray()), Some(4 * ONE));
    assert_eq!(sphere(0, 0, -2, 2 * ONE).intersects(&forward_ray()), Some(0));
}

#[test]
fn center_pixel_of_full_frame_faces_on_axis_sphere() {
    let scene = Scene { spheres: vec![sphere(0, 0, -5, ONE)] };
    let opts = RenderOptions { width: 640, height: 640 };
    let mut frame = Frame::new(640, 640);
    render_frame(&scene, &default_camera(), &opts, &mut frame);
    assert_eq!(pixel(&frame, 320, 320), [254, 254, 254, 255]);
    assert_eq!(pixel(&frame, 0, 0), [0, 0, 0, 255]);
}

#[test]
fn frame_size_reports_dimensions() {
    assert_eq!(Frame::new(7, 5).size(), (7, 5));
}

#[test]
fn zero_height_frame_is_left_unchanged() {
    let scene = Scene { spheres: vec![sphere(0, 0, -5, ONE)] };
    let mut frame = Frame::new(4, 0);
    render_frame(&scene, &default_camera(), &RenderOptions { width: 4, height: 0 }, &mut frame);
    assert_eq!(frame.size(), (4, 0));
    assert!(frame.image.as_raw().is_empty());
}

#[test]
fn truncating_division_rounds_toward_zero() {
    assert_eq!(trunc_div(7, 2), 3);
    assert_eq!(trunc_div(-7, 2), -3);
    assert_eq!(trunc_div(-65536, 640), -102);
}
