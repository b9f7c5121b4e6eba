//! Drawing red rectangles onto images, as the debug output does for the
//! bounding boxes of text.

use vstd::prelude::*;
use image::DynamicImage;
use crate::decimal::{decimal, lemma_decimal_injective, push_decimal};
use crate::raster::{
    dimensions, dynamic_dimensions, dynamic_pixels, from_rgba8, height, in_bounds, is_rgba8, put_pixel, rgba_dimensions,
    rgba_pixels, to_rgba8, width, Px, RgbaBuffer,
};

verus! {

/// The colour every drawn pixel gets: opaque red.
pub open spec fn red() -> Px {
    (255u8, 0u8, 0u8, 255u8)
}

/// The pixels of an image of size `dims`: one for each position inside it.
pub open spec fn is_image_of(m: Map<(u32, u32), Px>, dims: (u32, u32)) -> bool {
    forall|p: (u32, u32)| #[trigger] m.dom().contains(p) <==> in_bounds(dims, p)
}

/// A rectangle `(x, y, width, height)` in pixels.
pub type Rect = (u32, u32, u32, u32);

/// The drawing loops can compute their bounds without overflow: `x + w`
/// always, and `y + h` whenever there is a column to draw.
pub open spec fn bounds_fit(rect: Rect) -> bool {
    &&& rect.0 + rect.2 <= u32::MAX
    &&& rect.2 > 0 ==> rect.1 + rect.3 <= u32::MAX
}

/// Whether drawing `rect` colours position `(i, j)` (before clipping to the
/// image): it lies inside the rectangle and, unless `fill`, on its border.
pub open spec fn marks(rect: Rect, fill: bool, i: int, j: int) -> bool {
    let (x, y, w, h) = rect;
    &&& x <= i < x + w
    &&& y <= j < y + h
    &&& (fill || i == x || i == x + w - 1 || j == y || j == y + h - 1)
}

/// The pixels `m` after drawing `rect`: the marked positions that lie in
/// the image turn red, every other pixel keeps its colour.
pub open spec fn paint(m: Map<(u32, u32), Px>, rect: Rect, fill: bool) -> Map<(u32, u32), Px> {
    Map::new(
        |p: (u32, u32)| m.dom().contains(p),
        |p: (u32, u32)| if marks(rect, fill, p.0 as int, p.1 as int) { red() } else { m[p] },
    )
}

/// `paint` carried out on the positions before `(ci, cj)` in column order.
spec fn painted_until(m: Map<(u32, u32), Px>, rect: Rect, fill: bool, ci: int, cj: int) -> Map<
    (u32, u32),
    Px,
> {
    Map::new(
        |p: (u32, u32)| m.dom().contains(p),
        |p: (u32, u32)|
            if marks(rect, fill, p.0 as int, p.1 as int) && (p.0 < ci || (p.0 == ci && p.1 < cj)) {
                red()
            } else {
                m[p]
            },
    )
}


/// A rectangle reaches past the image it was to be drawn on.
pub struct RectOutOfBounds {
    /// The first rectangle that did not fit.
    pub rect: Rect,
    /// The image's width.
    pub width: u32,
    /// The image's height.
    pub height: u32,
}

/// Whether every position of `rect` lies inside an image of size `dims`
/// (an empty rectangle always does).
pub open spec fn fits(rect: Rect, dims: (u32, u32)) -> bool {
    rect.2 == 0 || rect.3 == 0 || (rect.0 + rect.2 <= dims.0 && rect.1 + rect.3 <= dims.1)
}

/// Every rectangle of `rects` fits an image of size `dims`.
pub open spec fn all_fit(rects: Seq<Rect>, dims: (u32, u32)) -> bool {
    forall|k: int| 0 <= k < rects.len() ==> fits(#[trigger] rects[k], dims)
}

/// The pixels `m` after drawing each of `rects` in turn.
pub open spec fn paint_all(m: Map<(u32, u32), Px>, rects: Seq<Rect>, fill: bool) -> Map<
    (u32, u32),
    Px,
>
    decreases rects.len(),
{
    if rects.len() == 0 {
        m
    } else {
        paint(paint_all(m, rects.drop_last(), fill), rects.last(), fill)
    }
}

/// Some rectangle of `rects` marks position `p`.
pub open spec fn marked_by_any(rects: Seq<Rect>, fill: bool, p: (u32, u32)) -> bool {
    exists|k: int| 0 <= k < rects.len() && marks(#[trigger] rects[k], fill, p.0 as int, p.1 as int)
}

/// Drawing a list of rectangles keeps the image's positions, and turns a
/// pixel red exactly when some rectangle of the list marks it; every other
/// pixel keeps its colour.
pub proof fn lemma_paint_all_pixels(m: Map<(u32, u32), Px>, rects: Seq<Rect>, fill: bool)
    ensures
        paint_all(m, rects, fill).dom() == m.dom(),
        forall|p: (u32, u32)|
            #![trigger paint_all(m, rects, fill)[p]]
            m.dom().contains(p) ==> paint_all(m, rects, fill)[p] == if marked_by_any(rects, fill, p) {
                red()
            } else {
                m[p]
            },
    decreases rects.len(),
{
    if rects.len() == 0 {
        assert(forall|p: (u32, u32)| !marked_by_any(rects, fill, p));
    } else {
        let init = rects.drop_last();
        let last = rects.last();
        lemma_paint_all_pixels(m, init, fill);
        assert(paint_all(m, rects, fill).dom() =~= m.dom());
        assert forall|p: (u32, u32)| m.dom().contains(p) implies #[trigger] paint_all(
            m,
            rects,
            fill,
        )[p] == if marked_by_any(rects, fill, p) {
            red()
        } else {
            m[p]
        } by {
            if marks(last, fill, p.0 as int, p.1 as int) {
                assert(rects[rects.len() - 1] == last);
                assert(marked_by_any(rects, fill, p));
            } else {
                assert(paint_all(m, rects, fill)[p] == paint_all(m, init, fill)[p]);
                if marked_by_any(rects, fill, p) {
                    let k = choose|k: int|
                        0 <= k < rects.len() && marks(#[trigger] rects[k], fill, p.0 as int, p.1 as int);
                    assert(k < rects.len() - 1);
                    assert(init[k] == rects[k]);
                    assert(marked_by_any(init, fill, p));
                }
                if marked_by_any(init, fill, p) {
                    let k = choose|k: int|
                        0 <= k < init.len() && marks(#[trigger] init[k], fill, p.0 as int, p.1 as int);
                    assert(rects[k] == init[k]);
                    assert(marked_by_any(rects, fill, p));
                }
            }
        }
    }
}

/// The order in which rectangles are drawn does not matter: two lists that
/// hold the same rectangles (in any order, any number of times) give the
/// same pixels.
pub proof fn lemma_paint_all_order_free(
    m: Map<(u32, u32), Px>,
    a: Seq<Rect>,
    b: Seq<Rect>,
    fill: bool,
)
    requires
        forall|r: Rect| a.contains(r) <==> b.contains(r),
    ensures
        paint_all(m, a, fill) == paint_all(m, b, fill),
{
    lemma_paint_all_pixels(m, a, fill);
    lemma_paint_all_pixels(m, b, fill);
    assert forall|p: (u32, u32)| marked_by_any(a, fill, p) <==> marked_by_any(b, fill, p) by {
        if marked_by_any(a, fill, p) {
            let k = choose|k: int|
                0 <= k < a.len() && marks(#[trigger] a[k], fill, p.0 as int, p.1 as int);
            assert(a.contains(a[k]));
            assert(b.contains(a[k]));
            let k2 = choose|k2: int| 0 <= k2 < b.len() && b[k2] == a[k];
            assert(marks(b[k2], fill, p.0 as int, p.1 as int));
        }
        if marked_by_any(b, fill, p) {
            let k = choose|k: int|
                0 <= k < b.len() && marks(#[trigger] b[k], fill, p.0 as int, p.1 as int);
            assert(b.contains(b[k]));
            assert(a.contains(b[k]));
            let k2 = choose|k2: int| 0 <= k2 < a.len() && a[k2] == b[k];
            assert(marks(a[k2], fill, p.0 as int, p.1 as int));
        }
    }
    assert(paint_all(m, a, fill) =~= paint_all(m, b, fill));
}

/// Draws `rect` on `img`, position by position in column order, as
/// `draw_rect` does. Positions outside the image are skipped, unless
/// `strict`: then the first one ends the drawing with `false`, and the
/// pixels drawn so far stay.
fn paint_rect(img: &mut RgbaBuffer, rect: Rect, fill: bool, strict: bool) -> (ok: bool)
    requires
        bounds_fit(rect),
        is_image_of(rgba_pixels(*old(img)), rgba_dimensions(*old(img))),
    ensures
        rgba_dimensions(*final(img)) == rgba_dimensions(*old(img)),
        is_image_of(rgba_pixels(*final(img)), rgba_dimensions(*final(img))),
        ok == (!strict || fits(rect, rgba_dimensions(*old(img)))),
        ok ==> rgba_pixels(*final(img)) == paint(rgba_pixels(*old(img)), rect, fill),
{
    let (x, y, w, h) = rect;
    let ghost m0 = rgba_pixels(*img);
    let ghost dims = rgba_dimensions(*img);
    assert(rgba_pixels(*img) =~= painted_until(m0, rect, fill, x as int, 0));
    for i in x..(x + w)
        invariant
            rect == (x, y, w, h),
            bounds_fit(rect),
            rgba_dimensions(*img) == dims,
            dims == rgba_dimensions(*old(img)),
            is_image_of(m0, dims),
            rgba_pixels(*img) == painted_until(m0, rect, fill, i as int, 0),
            strict && h > 0 && i > x ==> i <= dims.0 && y + h <= dims.1,
    {
        assert(rgba_pixels(*img) =~= painted_until(m0, rect, fill, i as int, y as int));
        for j in y..(y + h)
            invariant
                rect == (x, y, w, h),
                bounds_fit(rect),
                x <= i < x + w,
                rgba_dimensions(*img) == dims,
                dims == rgba_dimensions(*old(img)),
                is_image_of(m0, dims),
                rgba_pixels(*img) == painted_until(m0, rect, fill, i as int, j as int),
                strict && j > y ==> i < dims.0 && j <= dims.1,
        {
            if i >= width(img) || j >= height(img) {
                // outside the image
                assert(!m0.dom().contains((i, j)));
                if strict {
                    assert(!fits(rect, dims));
                    assert(rgba_pixels(*img).dom() =~= m0.dom());
                    return false;
                }
            } else if fill || i == x || i == x + w - 1 || j == y || j == y + h - 1 {
                put_pixel(img, i, j, 255, 0, 0, 255);
                assert(m0.dom().contains((i, j)));
            }
            assert(rgba_pixels(*img) =~= painted_until(m0, rect, fill, i as int, j + 1));
        }
        assert(rgba_pixels(*img) =~= painted_until(m0, rect, fill, i + 1, 0));
    }
    assert(rgba_pixels(*img) =~= paint(m0, rect, fill));
    true
}

/// Draws `rect` in red on a copy of `images` converted to RGBA8: its
/// border, or the whole rectangle when `fill`. The parts that fall outside
/// the image are skipped. The result is an RGBA8 image.
pub fn draw_rect(images: &DynamicImage, rect: Rect, fill: bool) -> (r: DynamicImage)
    requires
        bounds_fit(rect),
    ensures
        is_rgba8(r),
        dynamic_dimensions(r) == dynamic_dimensions(*images),
        dynamic_pixels(r) == paint(dynamic_pixels(*images), rect, fill),
{
    let mut img = to_rgba8(images);
    paint_rect(&mut img, rect, fill, false);
    from_rgba8(img)
}

/// Draws each of `rects` in red on a copy of `image` (converted to RGBA8),
/// in order, as `draw_rect` does. Every rectangle must lie inside the image:
/// the first one that reaches past it is reported instead of an image.
pub fn draw_rects(image: &DynamicImage, rects: &[Rect], fill: bool) -> (r: Result<
    DynamicImage,
    RectOutOfBounds,
>)
    requires
        forall|k: int|
            0 <= k < rects@.len() && all_fit(rects@.take(k), dynamic_dimensions(*image))
                ==> bounds_fit(#[trigger] rects@[k]),
    ensures
        r is Ok <==> all_fit(rects@, dynamic_dimensions(*image)),
        r matches Ok(img) ==> {
            &&& is_rgba8(img)
            &&& dynamic_dimensions(img) == dynamic_dimensions(*image)
            &&& dynamic_pixels(img) == paint_all(dynamic_pixels(*image), rects@, fill)
        },
        r matches Err(e) ==> exists|k: int|
            {
                &&& 0 <= k < rects@.len()
                &&& all_fit(rects@.take(k), dynamic_dimensions(*image))
                &&& !fits(#[trigger] rects@[k], dynamic_dimensions(*image))
                &&& e == RectOutOfBounds {
                    rect: rects@[k],
                    width: dynamic_dimensions(*image).0,
                    height: dynamic_dimensions(*image).1,
                }
            },
{
    let mut img = to_rgba8(image);
    let ghost m0 = rgba_pixels(img);
    let ghost dims = rgba_dimensions(img);
    assert(rects@.take(0) =~= Seq::<Rect>::empty());
    for k in 0..rects.len()
        invariant
            dims == dynamic_dimensions(*image),
            m0 == dynamic_pixels(*image),
            rgba_dimensions(img) == dims,
            is_image_of(rgba_pixels(img), dims),
            forall|k: int|
                0 <= k < rects@.len() && all_fit(rects@.take(k), dims)
                    ==> bounds_fit(#[trigger] rects@[k]),
            all_fit(rects@.take(k as int), dims),
            rgba_pixels(img) == paint_all(m0, rects@.take(k as int), fill),
    {
        let rect = rects[k];
        assert(bounds_fit(rects@[k as int]));
        if !paint_rect(&mut img, rect, fill, true) {
            let w = width(&img);
            let h = height(&img);
            return Err(RectOutOfBounds { rect, width: w, height: h });
        }
        assert(rects@.take(k + 1).drop_last() =~= rects@.take(k as int));
        assert(all_fit(rects@.take(k + 1), dims)) by {
            assert forall|k2: int| 0 <= k2 < k + 1 implies fits(#[trigger] rects@.take(k + 1)[k2], dims) by {
                if k2 < k {
                    assert(rects@.take(k + 1)[k2] == rects@.take(k as int)[k2]);
                }
            }
        }
    }
    assert(rects@.take(rects@.len() as int) =~= rects@);
    Ok(from_rgba8(img))
}

} // verus!

verus! {

/// The report of a rectangle that does not fit:
/// `Rectangle (x, y, w, h) exceeds image bounds (width, height)`.
pub open spec fn out_of_bounds_message(e: RectOutOfBounds) -> Seq<char> {
    "Rectangle ("@ + decimal(e.rect.0 as nat) + ", "@ + decimal(e.rect.1 as nat) + ", "@ + decimal(
        e.rect.2 as nat,
    ) + ", "@ + decimal(e.rect.3 as nat) + ") exceeds image bounds ("@ + decimal(e.width as nat)
        + ", "@ + decimal(e.height as nat) + ")"@
}

impl RectOutOfBounds {
    /// The message that describes this error.
    pub fn to_string(&self) -> (s: String)
        ensures
            s@ == out_of_bounds_message(*self),
    {
        let mut s = String::new();
        s.append("Rectangle (");
        push_decimal(&mut s, self.rect.0 as u64);
        s.append(", ");
        push_decimal(&mut s, self.rect.1 as u64);
        s.append(", ");
        push_decimal(&mut s, self.rect.2 as u64);
        s.append(", ");
        push_decimal(&mut s, self.rect.3 as u64);
        s.append(") exceeds image bounds (");
        push_decimal(&mut s, self.width as u64);
        s.append(", ");
        push_decimal(&mut s, self.height as u64);
        s.append(")");
        assert(s@ =~= out_of_bounds_message(*self));
        s
    }
}

/// The file name under which page `index` (counted from 0) of `pdf_title`
/// is saved: `{pdf_title}_{index + 1}.png`.
pub open spec fn image_file_name_spec(pdf_title: Seq<char>, index: nat) -> Seq<char> {
    pdf_title + "_"@ + decimal(index + 1) + ".png"@
}

/// The file name of the image of page `index` (counted from 0) of
/// `pdf_title`; pages are numbered from 1 in the name.
pub fn image_file_name(pdf_title: &str, index: usize) -> (s: String)
    requires
        index < usize::MAX,
    ensures
        s@ == image_file_name_spec(pdf_title@, index as nat),
{
    let mut s = String::from_str(pdf_title);
    s.append("_");
    push_decimal(&mut s, (index + 1) as u64);
    s.append(".png");
    assert(s@ =~= image_file_name_spec(pdf_title@, index as nat));
    s
}

} // verus!

verus! {

/// Whether the debug output draws the box `rect` on an image of size
/// `dims`: its top-left corner lies inside the image and it is not empty.
pub open spec fn visible(rect: Rect, dims: (u32, u32)) -> bool {
    rect.0 < dims.0 && rect.1 < dims.1 && rect.2 > 0 && rect.3 > 0
}

/// Some box of `rects` is visible on an image of size `dims`.
pub open spec fn any_visible(rects: Seq<Rect>, dims: (u32, u32)) -> bool {
    exists|k: int| 0 <= k < rects.len() && visible(#[trigger] rects[k], dims)
}

/// The pixels `m` after outlining, in turn, each of `rects` that is visible
/// on an image of size `dims`.
pub open spec fn outline_visible(m: Map<(u32, u32), Px>, rects: Seq<Rect>, dims: (u32, u32)) -> Map<
    (u32, u32),
    Px,
>
    decreases rects.len(),
{
    if rects.len() == 0 {
        m
    } else {
        let before = outline_visible(m, rects.drop_last(), dims);
        if visible(rects.last(), dims) {
            paint(before, rects.last(), false)
        } else {
            before
        }
    }
}

/// Outlines on `image` the boxes of text found on its page, as the debug
/// output does: each of `rects` (already scaled to the image's pixels) whose
/// top-left corner lies inside the image and which is not empty is drawn
/// with `draw_rect`, without fill; the others are skipped. When none is
/// drawn the image is handed back as it came; otherwise the result is an
/// RGBA8 image.
pub fn draw_boxes(image: DynamicImage, rects: &[Rect]) -> (r: DynamicImage)
    requires
        forall|k: int|
            0 <= k < rects@.len() && visible(#[trigger] rects@[k], dynamic_dimensions(image))
                ==> bounds_fit(rects@[k]),
    ensures
        dynamic_dimensions(r) == dynamic_dimensions(image),
        dynamic_pixels(r) == outline_visible(dynamic_pixels(image), rects@, dynamic_dimensions(image)),
        any_visible(rects@, dynamic_dimensions(image)) ==> is_rgba8(r),
        !any_visible(rects@, dynamic_dimensions(image)) ==> r == image,
{
    let ghost m0 = dynamic_pixels(image);
    let ghost dims = dynamic_dimensions(image);
    let ghost original = image;
    let mut image = image;
    assert(rects@.take(0) =~= Seq::<Rect>::empty());
    for k in 0..rects.len()
        invariant
            dims == dynamic_dimensions(image),
            forall|k: int|
                0 <= k < rects@.len() && visible(#[trigger] rects@[k], dims) ==> bounds_fit(
                    rects@[k],
                ),
            dynamic_pixels(image) == outline_visible(m0, rects@.take(k as int), dims),
            any_visible(rects@.take(k as int), dims) ==> is_rgba8(image),
            !any_visible(rects@.take(k as int), dims) ==> image == original,
    {
        let (x, y, w, h) = rects[k];
        let (img_width, img_height) = dimensions(&image);
        if x < img_width && y < img_height && w > 0 && h > 0 {
            assert(visible(rects@[k as int], dims));
            image = draw_rect(&image, (x, y, w, h), false);
        }
        assert(rects@.take(k + 1).drop_last() =~= rects@.take(k as int));
        assert(rects@.take(k + 1)[k as int] == rects@[k as int]);
        assert(any_visible(rects@.take(k + 1), dims) <==> (any_visible(rects@.take(k as int), dims)
            || visible(rects@[k as int], dims))) by {
            if any_visible(rects@.take(k + 1), dims) {
                let k2 = choose|k2: int|
                    0 <= k2 < k + 1 && visible(#[trigger] rects@.take(k + 1)[k2], dims);
                if k2 < k {
                    assert(rects@.take(k as int)[k2] == rects@.take(k + 1)[k2]);
                }
            }
            if any_visible(rects@.take(k as int), dims) {
                let k2 = choose|k2: int|
                    0 <= k2 < k && visible(#[trigger] rects@.take(k as int)[k2], dims);
                assert(rects@.take(k as int)[k2] == rects@.take(k + 1)[k2]);
            }
        }
    }
    assert(rects@.take(rects@.len() as int) =~= rects@);
    image
}

} // verus!

verus! {

/// A rectangle whose top-left corner lies outside the image leaves every
/// pixel as it was.
pub proof fn lemma_rect_outside_image_draws_nothing(
    m: Map<(u32, u32), Px>,
    dims: (u32, u32),
    rect: Rect,
    fill: bool,
)
    requires
        is_image_of(m, dims),
        rect.0 >= dims.0 || rect.1 >= dims.1,
    ensures
        paint(m, rect, fill) == m,
{
    assert(paint(m, rect, fill) =~= m);
}

/// A rectangle of zero width or height leaves every pixel as it was.
pub proof fn lemma_empty_rect_draws_nothing(m: Map<(u32, u32), Px>, rect: Rect, fill: bool)
    requires
        rect.2 == 0 || rect.3 == 0,
    ensures
        paint(m, rect, fill) == m,
{
    assert(paint(m, rect, fill) =~= m);
}

/// Filled and outlined drawings of one rectangle agree on its border; inside
/// the border the filled one is red and the outlined one keeps the image's
/// pixels.
pub proof fn lemma_outline_is_border_of_fill(m: Map<(u32, u32), Px>, rect: Rect)
    ensures
        paint(m, rect, true).dom() == m.dom(),
        paint(m, rect, false).dom() == m.dom(),
        forall|p: (u32, u32)|
            #![trigger paint(m, rect, false)[p]]
            m.dom().contains(p) && marks(rect, false, p.0 as int, p.1 as int) ==> paint(
                m,
                rect,
                true,
            )[p] == red() && paint(m, rect, false)[p] == red(),
        forall|p: (u32, u32)|
            #![trigger paint(m, rect, false)[p]]
            m.dom().contains(p) && marks(rect, true, p.0 as int, p.1 as int) && !marks(
                rect,
                false,
                p.0 as int,
                p.1 as int,
            ) ==> paint(m, rect, true)[p] == red() && paint(m, rect, false)[p] == m[p],
{
    assert(paint(m, rect, true).dom() =~= m.dom());
    assert(paint(m, rect, false).dom() =~= m.dom());
}

/// Drawing the same rectangle twice gives what drawing it once gives.
pub proof fn lemma_draw_twice_is_draw_once(m: Map<(u32, u32), Px>, rect: Rect, fill: bool)
    ensures
        paint(paint(m, rect, fill), rect, fill) == paint(m, rect, fill),
{
    assert(paint(paint(m, rect, fill), rect, fill) =~= paint(m, rect, fill));
}

/// Filling a rectangle over its outline gives the filled rectangle.
pub proof fn lemma_fill_covers_outline(m: Map<(u32, u32), Px>, rect: Rect)
    ensures
        paint(paint(m, rect, false), rect, true) == paint(m, rect, true),
{
    assert(paint(paint(m, rect, false), rect, true) =~= paint(m, rect, true));
}

/// A rectangle that fits the image is drawn whole: every position it marks
/// lies in the image and turns red.
pub proof fn lemma_fitting_rect_drawn_whole(
    m: Map<(u32, u32), Px>,
    dims: (u32, u32),
    rect: Rect,
    fill: bool,
)
    requires
        is_image_of(m, dims),
        fits(rect, dims),
    ensures
        forall|p: (u32, u32)|
            #![trigger paint(m, rect, fill)[p]]
            marks(rect, fill, p.0 as int, p.1 as int) ==> m.dom().contains(p) && paint(
                m,
                rect,
                fill,
            )[p] == red(),
{
    assert forall|p: (u32, u32)| marks(rect, fill, p.0 as int, p.1 as int) implies m.dom().contains(
        p,
    ) && #[trigger] paint(m, rect, fill)[p] == red() by {
        assert(in_bounds(dims, p));
    }
}

/// Drawing a list of one rectangle with `draw_rects` gives the pixels that
/// `draw_rect` gives for it.
pub proof fn lemma_one_rect_list_is_one_rect(m: Map<(u32, u32), Px>, rect: Rect, fill: bool)
    ensures
        paint_all(m, seq![rect], fill) == paint(m, rect, fill),
{
    assert(seq![rect].drop_last() =~= Seq::<Rect>::empty());
    assert(paint_all(m, Seq::<Rect>::empty(), fill) == m);
    assert(seq![rect].last() == rect);
}

/// Drawing a list of rectangles one after another: the rectangles of the
/// list followed by one more are drawn as the list, then that one.
pub proof fn lemma_rect_list_appends(m: Map<(u32, u32), Px>, rects: Seq<Rect>, rect: Rect, fill: bool)
    ensures
        paint_all(m, rects.push(rect), fill) == paint(paint_all(m, rects, fill), rect, fill),
{
    assert(rects.push(rect).drop_last() =~= rects);
}

/// Different pages of one document get different file names, so no saved
/// page image overwrites another.
pub proof fn lemma_page_file_names_differ(pdf_title: Seq<char>, i: nat, j: nat)
    requires
        i != j,
    ensures
        image_file_name_spec(pdf_title, i) != image_file_name_spec(pdf_title, j),
{
    let a = image_file_name_spec(pdf_title, i);
    let b = image_file_name_spec(pdf_title, j);
    if a == b {
        reveal_strlit("_");
        reveal_strlit(".png");
        let di = decimal(i + 1);
        let dj = decimal(j + 1);
        let n = pdf_title.len() + 1;
        assert(a.len() == n + di.len() + 4);
        assert(b.len() == n + dj.len() + 4);
        assert(a.subrange(n as int, (n + di.len()) as int) =~= di);
        assert(b.subrange(n as int, (n + dj.len()) as int) =~= dj);
        lemma_decimal_injective(i + 1, j + 1);
    }
}

} // verus!

verus! {

/// Drawing a rectangle, pixel by pixel: a pixel of the image that lies
/// outside the rectangle keeps its colour; with `fill` every pixel inside it
/// turns red.
pub proof fn lemma_draw_rect_inside_outside(m: Map<(u32, u32), Px>, rect: Rect, fill: bool)
    ensures
        paint(m, rect, fill).dom() == m.dom(),
        forall|p: (u32, u32)|
            #![trigger paint(m, rect, fill)[p]]
            m.dom().contains(p) && !(rect.0 <= p.0 < rect.0 + rect.2 && rect.1 <= p.1 < rect.1
                + rect.3) ==> paint(m, rect, fill)[p] == m[p],
        forall|p: (u32, u32)|
            #![trigger paint(m, rect, true)[p]]
            m.dom().contains(p) && rect.0 <= p.0 < rect.0 + rect.2 && rect.1 <= p.1 < rect.1
                + rect.3 ==> paint(m, rect, true)[p] == red(),
{
    assert(paint(m, rect, fill).dom() =~= m.dom());
}

/// An outlined rectangle is one pixel wide: the pixels of its first and
/// last column and of its first and last row turn red, and every pixel
/// strictly inside that border keeps its colour.
pub proof fn lemma_outline_is_one_pixel_border(m: Map<(u32, u32), Px>, rect: Rect)
    ensures
        forall|p: (u32, u32)|
            #![trigger paint(m, rect, false)[p]]
            m.dom().contains(p) && rect.0 < p.0 < rect.0 + rect.2 - 1 && rect.1 < p.1 < rect.1
                + rect.3 - 1 ==> paint(m, rect, false)[p] == m[p],
        forall|p: (u32, u32)|
            #![trigger paint(m, rect, false)[p]]
            m.dom().contains(p) && rect.0 <= p.0 < rect.0 + rect.2 && rect.1 <= p.1 < rect.1
                + rect.3 && (p.0 == rect.0 || p.0 == rect.0 + rect.2 - 1 || p.1 == rect.1 || p.1
                == rect.1 + rect.3 - 1) ==> paint(m, rect, false)[p] == red(),
{
}

/// A rectangle fits an image exactly when every position it covers is a
/// position of the image; so `draw_rects` succeeds exactly when every
/// rectangle lies inside the image.
pub proof fn lemma_fits_iff_inside_image(rect: Rect, dims: (u32, u32))
    ensures
        fits(rect, dims) <==> forall|i: u32, j: u32|
            rect.0 <= i < rect.0 + rect.2 && rect.1 <= j < rect.1 + rect.3 ==> #[trigger] in_bounds(
                dims,
                (i, j),
            ),
        rect.2 == 0 || rect.3 == 0 || (rect.0 + rect.2 <= dims.0 && rect.1 + rect.3 <= dims.1)
            ==> fits(rect, dims),
{
    let (x, y, w, h) = rect;
    if !fits(rect, dims) {
        // the far corner, or the last position a u32 can hold, lies outside
        let i: u32 = if x + w - 1 <= u32::MAX { (x + w - 1) as u32 } else { u32::MAX };
        let j: u32 = if y + h - 1 <= u32::MAX { (y + h - 1) as u32 } else { u32::MAX };
        assert(x <= i < x + w && y <= j < y + h);
        assert(!in_bounds(dims, (i, j)));
    }
}

/// A box is drawn by `draw_boxes` exactly when its top-left corner is a
/// pixel of the image and it is not empty.
pub proof fn lemma_visible_iff_corner_in_image(m: Map<(u32, u32), Px>, dims: (u32, u32), rect: Rect)
    requires
        is_image_of(m, dims),
    ensures
        visible(rect, dims) <==> (m.dom().contains((rect.0, rect.1)) && rect.2 > 0 && rect.3 > 0),
{
}

/// Whether some box of `rects`, with its top-left corner on a pixel of `m`
/// and not empty, has position `p` on its border.
spec fn on_some_drawn_border(m: Map<(u32, u32), Px>, rects: Seq<Rect>, p: (u32, u32)) -> bool {
    exists|k: int|
        0 <= k < rects.len() && m.dom().contains((#[trigger] rects[k].0, rects[k].1))
            && rects[k].2 > 0 && rects[k].3 > 0 && marks(rects[k], false, p.0 as int, p.1 as int)
}

proof fn lemma_outline_visible_pixels_rec(m: Map<(u32, u32), Px>, rects: Seq<Rect>, dims: (u32, u32))
    requires
        is_image_of(m, dims),
    ensures
        outline_visible(m, rects, dims).dom() == m.dom(),
        forall|p: (u32, u32)|
            #![trigger outline_visible(m, rects, dims)[p]]
            m.dom().contains(p) ==> outline_visible(m, rects, dims)[p] == if on_some_drawn_border(
                m,
                rects,
                p,
            ) {
                red()
            } else {
                m[p]
            },
    decreases rects.len(),
{
    if rects.len() == 0 {
        assert(forall|p: (u32, u32)| !on_some_drawn_border(m, rects, p));
    } else {
        let init = rects.drop_last();
        let last = rects.last();
        lemma_outline_visible_pixels_rec(m, init, dims);
        let before = outline_visible(m, init, dims);
        assert(paint(before, last, false).dom() =~= before.dom());
        assert forall|p: (u32, u32)| m.dom().contains(p) implies #[trigger] outline_visible(
            m,
            rects,
            dims,
        )[p] == if on_some_drawn_border(m, rects, p) {
            red()
        } else {
            m[p]
        } by {
            let drawn_last = visible(last, dims) && marks(last, false, p.0 as int, p.1 as int);
            if drawn_last {
                assert(rects[rects.len() - 1] == last);
                assert(m.dom().contains((last.0, last.1)));
                assert(on_some_drawn_border(m, rects, p));
            } else {
                assert(outline_visible(m, rects, dims)[p] == before[p]);
                if on_some_drawn_border(m, rects, p) {
                    let k = choose|k: int|
                        0 <= k < rects.len() && m.dom().contains((#[trigger] rects[k].0, rects[k].1))
                            && rects[k].2 > 0 && rects[k].3 > 0 && marks(
                            rects[k],
                            false,
                            p.0 as int,
                            p.1 as int,
                        );
                    if k == rects.len() - 1 {
                        assert(visible(last, dims));
                    }
                    assert(init[k] == rects[k]);
                    assert(on_some_drawn_border(m, init, p));
                }
                if on_some_drawn_border(m, init, p) {
                    let k = choose|k: int|
                        0 <= k < init.len() && m.dom().contains((#[trigger] init[k].0, init[k].1))
                            && init[k].2 > 0 && init[k].3 > 0 && marks(
                            init[k],
                            false,
                            p.0 as int,
                            p.1 as int,
                        );
                    assert(rects[k] == init[k]);
                    assert(on_some_drawn_border(m, rects, p));
                }
            }
        }
    }
}

/// The boxes drawn by `draw_boxes` accumulate: in the result, a pixel of the
/// image is red exactly when it lies on the one-pixel border of some box of
/// the list whose top-left corner is a pixel of the image and which is not
/// empty; every other pixel keeps its colour.
pub proof fn lemma_draw_boxes_pixels(m: Map<(u32, u32), Px>, rects: Seq<Rect>, dims: (u32, u32))
    requires
        is_image_of(m, dims),
    ensures
        outline_visible(m, rects, dims).dom() == m.dom(),
        forall|p: (u32, u32)|
            #![trigger outline_visible(m, rects, dims)[p]]
            m.dom().contains(p) ==> outline_visible(m, rects, dims)[p] == if exists|k: int|
                0 <= k < rects.len() && m.dom().contains((#[trigger] rects[k].0, rects[k].1))
                    && rects[k].2 > 0 && rects[k].3 > 0 && rects[k].0 <= p.0 < rects[k].0
                    + rects[k].2 && rects[k].1 <= p.1 < rects[k].1 + rects[k].3 && (p.0
                    == rects[k].0 || p.0 == rects[k].0 + rects[k].2 - 1 || p.1 == rects[k].1 || p.1
                    == rects[k].1 + rects[k].3 - 1) {
                red()
            } else {
                m[p]
            },
{
    lemma_outline_visible_pixels_rec(m, rects, dims);
}

} // verus!
