//! The `image` crate's pixel buffers, as the drawing code sees them.
//!
//! An image is a collection of pixels. Its contents are named by
//! [`rgba_pixels`] (for an RGBA8 buffer) and [`dynamic_pixels`] (for a
//! `DynamicImage`, read as RGBA8), and its size by [`rgba_dimensions`] and
//! [`dynamic_dimensions`]. The wrappers below say what each call of the
//! crate does to those names.

use vstd::prelude::*;
use image::{DynamicImage, GenericImageView, Rgba, RgbaImage};

verus! {

#[verifier::external_type_specification]
#[verifier::external_body]
pub struct ExDynamicImage(DynamicImage);

/// An RGBA8 pixel buffer of the `image` crate (`RgbaImage`): a width, a
/// height, and four 8-bit channels (red, green, blue, alpha) for each pixel.
/// Its contents are known only through `rgba_pixels` and `rgba_dimensions`.
#[verifier::external_body]
pub struct RgbaBuffer {
    buf: RgbaImage,
}

/// One pixel: red, green, blue and alpha channels.
pub type Px = (u8, u8, u8, u8);

/// The pixels of an RGBA8 buffer, keyed by `(x, y)`.
pub uninterp spec fn rgba_pixels(img: RgbaBuffer) -> Map<(u32, u32), Px>;

/// The `(width, height)` an RGBA8 buffer was made with.
pub uninterp spec fn rgba_dimensions(img: RgbaBuffer) -> (u32, u32);

/// The pixels of a `DynamicImage`, read as RGBA8, keyed by `(x, y)`.
pub uninterp spec fn dynamic_pixels(img: DynamicImage) -> Map<(u32, u32), Px>;

/// The `(width, height)` of a `DynamicImage`.
pub uninterp spec fn dynamic_dimensions(img: DynamicImage) -> (u32, u32);

/// Whether a `DynamicImage` is the `ImageRgba8` variant: its pixels are
/// stored as 8-bit RGBA.
pub uninterp spec fn is_rgba8(img: DynamicImage) -> bool;

/// The pixel keys of a `width` by `height` image.
pub open spec fn in_bounds(dims: (u32, u32), p: (u32, u32)) -> bool {
    p.0 < dims.0 && p.1 < dims.1
}

/// `DynamicImage::to_rgba8`: a copy of the image as an RGBA8 buffer. The
/// copy has the image's size and holds one pixel for each position inside
/// it; its pixels are the image's pixels read as RGBA8.
#[verifier::external_body]
pub(crate) fn to_rgba8(img: &DynamicImage) -> (r: RgbaBuffer)
    ensures
        rgba_pixels(r) == dynamic_pixels(*img),
        rgba_dimensions(r) == dynamic_dimensions(*img),
        forall|p: (u32, u32)|
            #[trigger] rgba_pixels(r).dom().contains(p) <==> in_bounds(rgba_dimensions(r), p),
{
    RgbaBuffer { buf: img.to_rgba8() }
}

/// `DynamicImage::ImageRgba8`: wraps an RGBA8 buffer in the RGBA8 variant.
/// Read back as RGBA8 (`to_rgba8` clones the buffer of this variant) it has
/// the buffer's pixels and size.
#[verifier::external_body]
pub(crate) fn from_rgba8(buf: RgbaBuffer) -> (r: DynamicImage)
    ensures
        dynamic_pixels(r) == rgba_pixels(buf),
        dynamic_dimensions(r) == rgba_dimensions(buf),
        is_rgba8(r),
{
    DynamicImage::ImageRgba8(buf.buf)
}

/// `GenericImageView::dimensions` of a `DynamicImage`: its width and height.
#[verifier::external_body]
pub(crate) fn dimensions(img: &DynamicImage) -> (d: (u32, u32))
    ensures
        d == dynamic_dimensions(*img),
{
    img.dimensions()
}

/// `ImageBuffer::width`: the width the buffer was made with.
#[verifier::external_body]
pub(crate) fn width(img: &RgbaBuffer) -> (w: u32)
    ensures
        w == rgba_dimensions(*img).0,
{
    img.buf.width()
}

/// `ImageBuffer::height`: the height the buffer was made with.
#[verifier::external_body]
pub(crate) fn height(img: &RgbaBuffer) -> (h: u32)
    ensures
        h == rgba_dimensions(*img).1,
{
    img.buf.height()
}

/// `ImageBuffer::put_pixel` with `Rgba([r, g, b, a])`: overwrites the pixel
/// at `(x, y)` and nothing else. It panics outside the image, so the
/// position must lie inside.
#[verifier::external_body]
pub(crate) fn put_pixel(img: &mut RgbaBuffer, x: u32, y: u32, r: u8, g: u8, b: u8, a: u8)
    requires
        x < rgba_dimensions(*old(img)).0,
        y < rgba_dimensions(*old(img)).1,
    ensures
        rgba_pixels(*final(img)) == rgba_pixels(*old(img)).insert((x, y), (r, g, b, a)),
        rgba_dimensions(*final(img)) == rgba_dimensions(*old(img)),
{
    img.buf.put_pixel(x, y, Rgba([r, g, b, a]))
}

} // verus!
