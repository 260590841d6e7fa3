//! The frame buffer, an `image::RgbaImage`, and the renderer that fills it.
use crate::camera::{camera_ray, primary_ray, Camera, RenderOptions};
use crate::scene::Scene;
use crate::geometry::Sphere;
use crate::shade::{background, color_of, get_pixel_color, Color};
use vstd::prelude::*;

verus! {

/// A row-major RGBA image with eight bits per channel.
#[verifier::external_body]
pub struct Frame {
    pub image: image::RgbaImage,
}

/// The width and height of the frame, in pixels.
pub uninterp spec fn frame_size(f: Frame) -> (u32, u32);

/// The samples of the frame: four per pixel (red, green, blue, alpha),
/// pixels row by row from the top left.
pub uninterp spec fn frame_samples(f: Frame) -> Seq<u8>;

/// Where the samples of pixel `(x, y)` begin in a frame `width` pixels wide.
pub open spec fn pixel_index(width: int, x: int, y: int) -> int {
    (y * width + x) * 4
}

/// The color stored for pixel `(x, y)`.
pub open spec fn pixel_at(samples: Seq<u8>, width: int, x: int, y: int) -> Color {
    let i = pixel_index(width, x, y);
    Color { r: samples[i], g: samples[i + 1], b: samples[i + 2], a: samples[i + 3] }
}

/// The samples with the four at `i` onward replaced by the channels of `c`.
pub open spec fn write_pixel(samples: Seq<u8>, i: int, c: Color) -> Seq<u8> {
    samples.update(i, c.r).update(i + 1, c.g).update(i + 2, c.b).update(i + 3, c.a)
}

/// Relies on `image::ImageBuffer::new`: a buffer of the given size whose
/// samples are all zero, four per pixel.
#[verifier::external_body]
fn new_image(width: u32, height: u32) -> (r: Frame)
    requires
        4 * width * height <= isize::MAX,
    ensures
        frame_size(r) == (width, height),
        frame_samples(r) == Seq::new((4 * width * height) as nat, |i: int| 0u8),
{
    Frame { image: image::RgbaImage::new(width, height) }
}

/// Relies on `image::ImageBuffer::dimensions`: the size given at
/// construction, which the sample buffer always has room for.
#[verifier::external_body]
fn dimensions(f: &Frame) -> (r: (u32, u32))
    ensures
        r == frame_size(*f),
        frame_samples(*f).len() >= 4 * r.0 * r.1,
{
    f.image.dimensions()
}

/// Relies on `image::ImageBuffer::put_pixel`: it stores the channels of the
/// pixel in the four samples at `(y * width + x) * 4` and changes nothing
/// else.
#[verifier::external_body]
fn put_rgba(f: &mut Frame, x: u32, y: u32, c: Color)
    requires
        x < frame_size(*old(f)).0,
        y < frame_size(*old(f)).1,
        frame_samples(*old(f)).len() >= 4 * frame_size(*old(f)).0 * frame_size(*old(f)).1,
    ensures
        frame_size(*final(f)) == frame_size(*old(f)),
        frame_samples(*final(f)) == write_pixel(
            frame_samples(*old(f)),
            pixel_index(frame_size(*old(f)).0 as int, x as int, y as int),
            c,
        ),
{
    f.image.put_pixel(x, y, image::Rgba([c.r, c.g, c.b, c.a]))
}

impl Frame {
    /// The width and height of the frame, in pixels.
    pub fn size(&self) -> (r: (u32, u32))
        ensures
            r == frame_size(*self),
            frame_samples(*self).len() >= 4 * r.0 * r.1,
    {
        dimensions(self)
    }

    /// A black, fully transparent frame of the given size.
    pub fn new(width: u32, height: u32) -> (r: Frame)
        requires
            4 * width * height <= isize::MAX,
        ensures
            frame_size(r) == (width, height),
            forall|x: int, y: int|
                0 <= x < width && 0 <= y < height ==> #[trigger] pixel_at(
                    frame_samples(r),
                    width as int,
                    x,
                    y,
                ) == (Color { r: 0, g: 0, b: 0, a: 0 }),
    {
        let f = new_image(width, height);
        proof {
            assert forall|x: int, y: int| 0 <= x < width && 0 <= y < height implies #[trigger] pixel_at(
                frame_samples(f),
                width as int,
                x,
                y,
            ) == (Color { r: 0, g: 0, b: 0, a: 0 }) by {
                lemma_pixel_in_bounds(width as int, height as int, x, y);
            }
        }
        f
    }
}

/// The color that pixel `(x, y)` should show.
pub open spec fn expected_pixel(
    scene: Seq<Sphere>,
    cam: Camera,
    opts: RenderOptions,
    x: int,
    y: int,
) -> Color {
    match primary_ray(cam, opts, x, y) {
        None => background(),
        Some(ray) => color_of(scene, ray),
    }
}

/// The frame has the size of the options and every pixel shows the scene.
pub open spec fn shows(f: Frame, scene: Seq<Sphere>, cam: Camera, opts: RenderOptions) -> bool {
    &&& frame_size(f) == (opts.width, opts.height)
    &&& forall|x: int, y: int|
        0 <= x < opts.width && 0 <= y < opts.height ==> #[trigger] pixel_at(
            frame_samples(f),
            opts.width as int,
            x,
            y,
        ) == expected_pixel(scene, cam, opts, x, y)
}

proof fn lemma_pixel_in_bounds(w: int, h: int, x: int, y: int)
    requires
        0 <= x < w,
        0 <= y < h,
    ensures
        0 <= pixel_index(w, x, y),
        pixel_index(w, x, y) + 4 <= 4 * w * h,
{
    assert(0 <= y * w + x && y * w + x + 1 <= w * h) by (nonlinear_arith)
        requires
            0 <= x < w,
            0 <= y < h,
    ;
    assert(4 * w * h == 4 * (w * h)) by (nonlinear_arith);
}

proof fn lemma_pixels_apart(w: int, x: int, y: int, x2: int, y2: int)
    requires
        0 <= x < w,
        0 <= x2 < w,
        0 <= y,
        0 <= y2,
        x != x2 || y != y2,
    ensures
        pixel_index(w, x, y) + 4 <= pixel_index(w, x2, y2) || pixel_index(w, x2, y2) + 4
            <= pixel_index(w, x, y),
{
    assert(y * w + x != y2 * w + x2) by (nonlinear_arith)
        requires
            0 <= x < w,
            0 <= x2 < w,
            0 <= y,
            0 <= y2,
            x != x2 || y != y2,
    ;
}

/// Render the scene as seen by the camera into `img`, one primary ray per
/// pixel, column by column.
pub fn render_frame(scene: &Scene, camera: &Camera, render_options: &RenderOptions, img: &mut Frame)
    requires
        scene.wf(),
        camera.wf(),
        render_options.wf(),
        frame_size(*old(img)) == (render_options.width, render_options.height),
    ensures
        shows(*final(img), scene.spheres@, *camera, *render_options),
        frame_samples(*final(img)).len() == frame_samples(*old(img)).len(),
        forall|i: int|
            4 * render_options.width * render_options.height <= i < frame_samples(
                *old(img),
            ).len() ==> #[trigger] frame_samples(*final(img))[i] == frame_samples(*old(img))[i],
        render_options.width * render_options.height == 0 ==> frame_samples(*final(img))
            == frame_samples(*old(img)),
{
    let _ = dimensions(img);
    let ghost start = frame_samples(*img);
    let w = render_options.width;
    let h = render_options.height;
    let mut px_x: u32 = 0;
    while px_x < w
        invariant
            scene.wf(),
            camera.wf(),
            render_options.wf(),
            w == render_options.width,
            h == render_options.height,
            px_x <= w,
            frame_size(*img) == (w, h),
            frame_samples(*img).len() >= 4 * w * h,
            frame_samples(*img).len() == start.len(),
            forall|i: int|
                4 * w * h <= i < start.len() ==> #[trigger] frame_samples(*img)[i] == start[i],
            forall|x: int, y: int|
                0 <= x < px_x && 0 <= y < h ==> #[trigger] pixel_at(
                    frame_samples(*img),
                    w as int,
                    x,
                    y,
                ) == expected_pixel(scene.spheres@, *camera, *render_options, x, y),
        decreases w - px_x,
    {
        let mut px_y: u32 = 0;
        while px_y < h
            invariant
                scene.wf(),
                camera.wf(),
                render_options.wf(),
                w == render_options.width,
                h == render_options.height,
                px_x < w,
                px_y <= h,
                frame_size(*img) == (w, h),
                frame_samples(*img).len() >= 4 * w * h,
                frame_samples(*img).len() == start.len(),
                forall|i: int|
                    4 * w * h <= i < start.len() ==> #[trigger] frame_samples(*img)[i] == start[i],
                forall|x: int, y: int|
                    0 <= x < w && 0 <= y < h && (x < px_x || (x == px_x && y < px_y))
                        ==> #[trigger] pixel_at(frame_samples(*img), w as int, x, y)
                        == expected_pixel(scene.spheres@, *camera, *render_options, x, y),
            decreases h - px_y,
        {
            let color = match camera_ray(camera, render_options, px_x, px_y) {
                None => Color { r: 0, g: 0, b: 0, a: 255 },
                Some(ray) => get_pixel_color(scene, &ray),
            };
            let ghost before = frame_samples(*img);
            proof {
                lemma_pixel_in_bounds(w as int, h as int, px_x as int, px_y as int);
            }
            put_rgba(img, px_x, px_y, color);
            proof {
                let after = frame_samples(*img);
                assert forall|x: int, y: int|
                    0 <= x < w && 0 <= y < h && (x < px_x || (x == px_x && y < px_y + 1))
                        implies #[trigger] pixel_at(after, w as int, x, y) == expected_pixel(
                        scene.spheres@,
                        *camera,
                        *render_options,
                        x,
                        y,
                    ) by {
                    lemma_pixel_in_bounds(w as int, h as int, x, y);
                    if x != px_x || y != px_y {
                        lemma_pixels_apart(w as int, x, y, px_x as int, px_y as int);
                        assert(pixel_at(after, w as int, x, y) == pixel_at(before, w as int, x, y));
                    }
                }
            }
            px_y = px_y + 1;
        }
        px_x = px_x + 1;
    }
    proof {
        if w * h == 0 {
            assert(4 * w * h == 0) by (nonlinear_arith)
                requires
                    w * h == 0,
            ;
            assert(frame_samples(*img) =~= start);
        }
    }
}

/// Rendering keeps no state between frames: two frames that show the same
/// scene through the same camera and options hold the same pixels.
pub proof fn lemma_render_repeatable(
    a: Frame,
    b: Frame,
    scene: Seq<Sphere>,
    cam: Camera,
    opts: RenderOptions,
)
    requires
        shows(a, scene, cam, opts),
        shows(b, scene, cam, opts),
    ensures
        frame_size(a) == frame_size(b),
        forall|x: int, y: int|
            0 <= x < opts.width && 0 <= y < opts.height ==> #[trigger] pixel_at(
                frame_samples(a),
                opts.width as int,
                x,
                y,
            ) == pixel_at(frame_samples(b), opts.width as int, x, y),
{
    assert forall|x: int, y: int| 0 <= x < opts.width && 0 <= y < opts.height implies #[trigger] pixel_at(
        frame_samples(a),
        opts.width as int,
        x,
        y,
    ) == pixel_at(frame_samples(b), opts.width as int, x, y) by {
        assert(pixel_at(frame_samples(a), opts.width as int, x, y) == expected_pixel(scene, cam, opts, x, y));
        assert(pixel_at(frame_samples(b), opts.width as int, x, y) == expected_pixel(scene, cam, opts, x, y));
    }
}

/// A frame that shows an empty scene is opaque black at every pixel.
pub proof fn lemma_empty_scene_black(f: Frame, cam: Camera, opts: RenderOptions)
    requires
        shows(f, Seq::empty(), cam, opts),
    ensures
        forall|x: int, y: int|
            0 <= x < opts.width && 0 <= y < opts.height ==> #[trigger] pixel_at(
                frame_samples(f),
                opts.width as int,
                x,
                y,
            ) == background(),
{
    assert forall|x: int, y: int| 0 <= x < opts.width && 0 <= y < opts.height implies #[trigger] pixel_at(
        frame_samples(f),
        opts.width as int,
        x,
        y,
    ) == background() by {
        assert(pixel_at(frame_samples(f), opts.width as int, x, y) == expected_pixel(Seq::empty(), cam, opts, x, y));
        assert(crate::scene::closest_in(Seq::<Sphere>::empty(), primary_ray(cam, opts, x, y)->0) is None);
    }
}

} // verus!
