use vstd::prelude::*;
use crate::point::{in_bounds, Point2d};

verus! {

/// An RGBA raster, held in an image buffer of the `image` crate.
#[verifier::external_body]
pub struct Canvas {
    img: image::RgbaImage,
}

/// The pixel colors of a canvas, keyed by `(x, y)`.
pub uninterp spec fn canvas_pixels(c: Canvas) -> Map<(int, int), [u8; 4]>;

/// The `(width, height)` a canvas was made with.
pub uninterp spec fn canvas_size(c: Canvas) -> (int, int);

/// The coordinates of a canvas of `w` columns and `h` rows.
pub open spec fn rect(w: int, h: int) -> Set<(int, int)> {
    Set::new(|p: (int, int)| 0 <= p.0 < w && 0 <= p.1 < h)
}

pub open spec fn canvas_wf(c: Canvas) -> bool {
    &&& 0 <= canvas_size(c).0 <= u32::MAX
    &&& 0 <= canvas_size(c).1 <= u32::MAX
    &&& canvas_pixels(c).dom() == rect(canvas_size(c).0, canvas_size(c).1)
}

/// Relies on ImageBuffer::new: a buffer of the given size with every channel
/// of every pixel zero. It panics where four times the width, or that times
/// the height, overflows `usize`.
#[verifier::external_body]
fn image_new(width: u32, height: u32) -> (r: Canvas)
    requires
        4 * (width as int) <= usize::MAX,
        4 * (width as int) * (height as int) <= usize::MAX,
    ensures
        canvas_size(r) == (width as int, height as int),
        canvas_pixels(r).dom() == rect(width as int, height as int),
        forall|p: (int, int)|
            #[trigger] canvas_pixels(r).contains_key(p) ==> canvas_pixels(r)[p] == [0u8, 0u8, 0u8, 0u8],
{
    Canvas { img: image::RgbaImage::new(width, height) }
}

/// Relies on ImageBuffer::width: the width the buffer was made with.
#[verifier::external_body]
fn image_width(c: &Canvas) -> (r: u32)
    ensures
        r == canvas_size(*c).0,
{
    c.img.width()
}

/// Relies on ImageBuffer::height: the height the buffer was made with.
#[verifier::external_body]
fn image_height(c: &Canvas) -> (r: u32)
    ensures
        r == canvas_size(*c).1,
{
    c.img.height()
}

/// Relies on ImageBuffer::put_pixel: sets the one pixel at `(x, y)`; it panics
/// outside the buffer.
#[verifier::external_body]
fn image_put(c: &mut Canvas, x: u32, y: u32, color: [u8; 4])
    requires
        (x as int) < canvas_size(*old(c)).0,
        (y as int) < canvas_size(*old(c)).1,
    ensures
        canvas_size(*final(c)) == canvas_size(*old(c)),
        canvas_pixels(*final(c)) == canvas_pixels(*old(c)).insert((x as int, y as int), color),
{
    c.img.put_pixel(x, y, image::Rgba(color))
}

/// Relies on ImageBuffer::get_pixel: the color at `(x, y)`; it panics outside
/// the buffer.
#[verifier::external_body]
fn image_get(c: &Canvas, x: u32, y: u32) -> (r: [u8; 4])
    requires
        (x as int) < canvas_size(*c).0,
        (y as int) < canvas_size(*c).1,
    ensures
        r == canvas_pixels(*c)[(x as int, y as int)],
{
    c.img.get_pixel(x, y).0
}

impl Canvas {
    /// A canvas of `width` by `height` pixels, all of them zero.
    pub fn new(width: u32, height: u32) -> (r: Canvas)
        requires
            4 * (width as int) <= usize::MAX,
            4 * (width as int) * (height as int) <= usize::MAX,
        ensures
            canvas_wf(r),
            canvas_size(r) == (width as int, height as int),
            forall|p: (int, int)|
                #[trigger] canvas_pixels(r).contains_key(p) ==> canvas_pixels(r)[p] == [0u8, 0u8, 0u8, 0u8],
    {
        image_new(width, height)
    }

    pub fn width(&self) -> (r: u32)
        ensures
            r == canvas_size(*self).0,
    {
        image_width(self)
    }

    pub fn height(&self) -> (r: u32)
        ensures
            r == canvas_size(*self).1,
    {
        image_height(self)
    }

    /// The color at `(x, y)`, or `None` outside the canvas.
    pub fn pixel(&self, x: u32, y: u32) -> (r: Option<[u8; 4]>)
        requires
            canvas_wf(*self),
        ensures
            r == if (x as int) < canvas_size(*self).0 && (y as int) < canvas_size(*self).1 {
                Some(canvas_pixels(*self)[(x as int, y as int)])
            } else {
                None
            },
    {
        if x < image_width(self) && y < image_height(self) {
            Some(image_get(self, x, y))
        } else {
            None
        }
    }

    /// Sets the pixel at `(x, y)` to `color`; a point outside the canvas changes nothing.
    pub fn put(&mut self, x: u32, y: u32, color: [u8; 4])
        requires
            canvas_wf(*old(self)),
        ensures
            canvas_wf(*final(self)),
            canvas_size(*final(self)) == canvas_size(*old(self)),
            canvas_pixels(*final(self)) == if (x as int) < canvas_size(*old(self)).0 && (y as int)
                < canvas_size(*old(self)).1 {
                canvas_pixels(*old(self)).insert((x as int, y as int), color)
            } else {
                canvas_pixels(*old(self))
            },
    {
        if in_bounds(&Point2d { x, y }, image_width(self), image_height(self)) {
            image_put(self, x, y, color);
            assert(canvas_pixels(*self).dom() =~= rect(canvas_size(*self).0, canvas_size(*self).1));
        }
    }
}

} // verus!
