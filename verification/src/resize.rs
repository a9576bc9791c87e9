//! Bringing a decoded image to the size and the pixel layout of an output.
use image::imageops::FilterType;
use image::{DynamicImage, GenericImageView};
use vstd::prelude::*;

verus! {

/// A decoded image, as the `image` crate holds it.
#[verifier::external_type_specification]
#[verifier::external_body]
pub struct ExDynamicImage(DynamicImage);

/// A sampling filter of the `image` crate.
#[verifier::external_type_specification]
#[verifier::external_body]
pub struct ExFilterType(FilterType);

/// A side of at most so many pixels can be scaled from or to any length.
pub const MAX_EITHER: u32 = 0x40_0000;

/// Sides of at most so many pixels can be scaled to each other.
pub const MAX_BOTH: u32 = 0x80_0000;

/// Width and height of an image, as `DynamicImage::dimensions` gives them.
pub uninterp spec fn image_size(img: DynamicImage) -> (u32, u32);

/// The bytes of an image as blue, green, red and alpha, row by row:
/// `DynamicImage::into_bgra8`, then `ImageBuffer::into_raw`.
pub uninterp spec fn bgra_pixels(img: DynamicImage) -> Seq<u8>;

/// How long the buffer of an image is whose pixels are blue, green, red and alpha
/// already, as `DynamicImage::as_bgra8` and `ImageBuffer::as_raw` give it; nothing for
/// an image of another kind.
pub uninterp spec fn bgra_buffer_len(img: DynamicImage) -> Option<usize>;

/// The bytes that a pixel of an image takes, as `DynamicImage::color` and
/// `ColorType::bytes_per_pixel` give them.
pub uninterp spec fn pixel_depth(img: DynamicImage) -> u8;

/// Whether a filter is `FilterType::Nearest`.
pub uninterp spec fn is_nearest(filter: FilterType) -> bool;

/// `out` is an outcome of `DynamicImage::resize_to_fill` on `img`, the target width
/// and height, and the filter. It is a relation, not a function: the filters compute
/// in floating point with library functions whose last bits are not fixed.
pub uninterp spec fn fills(
    img: DynamicImage,
    width: u32,
    height: u32,
    filter: FilterType,
    out: DynamicImage,
) -> bool;

/// The bytes that `width` times `height` pixels take.
pub open spec fn pixel_bytes(width: u32, height: u32) -> int {
    width * height * 4
}

/// The size to which an image of the given size is scaled, keeping its aspect
/// ratio, so that it covers `width` times `height`.
pub open spec fn fill_size(size: (u32, u32), width: u32, height: u32) -> (int, int) {
    if width * size.1 > size.0 * height {
        let scaled = (size.1 * width) / (size.0 as int);
        (width as int, if scaled < 1 {
            1
        } else {
            scaled
        })
    } else {
        let scaled = (size.0 * height) / (size.1 as int);
        (if scaled < 1 {
            1
        } else {
            scaled
        }, height as int)
    }
}

/// A side of an image can be sampled at another length. The nearest pixel is always
/// found. The other filters weigh the pixels around a position that is computed in
/// single precision: within these bounds it never lies further than three quarters of a
/// sampling step beyond the middle of the last pixel, where the weights of every filter
/// still add up to more than nothing.
pub open spec fn can_sample(source: int, scaled: int, nearest: bool) -> bool {
    ||| nearest
    ||| source <= MAX_EITHER
    ||| scaled <= MAX_EITHER
    ||| source <= MAX_BOTH && scaled <= MAX_BOTH
}

/// An image of the given size, with `depth` bytes for each pixel, can be made to fill
/// `width` times `height`: it is not empty, what it is scaled to can be addressed, and
/// both its sides can be sampled.
pub open spec fn can_fill(
    size: (u32, u32),
    depth: u8,
    width: u32,
    height: u32,
    nearest: bool,
) -> bool {
    let scaled = fill_size(size, width, height);
    &&& 0 < size.0
    &&& 0 < size.1
    &&& scaled.0 <= u32::MAX
    &&& scaled.1 <= u32::MAX
    &&& can_sample(size.0 as int, scaled.0, nearest)
    &&& can_sample(size.1 as int, scaled.1, nearest)
    &&& size.0 * scaled.1 * depth <= isize::MAX
    &&& scaled.0 * scaled.1 * depth <= isize::MAX
}

/// An image of the given size, with `depth` bytes for each pixel, can be shown at
/// `width` times `height`.
pub open spec fn can_resize(
    size: (u32, u32),
    depth: u8,
    width: u32,
    height: u32,
    nearest: bool,
) -> bool {
    &&& width * 4 <= usize::MAX
    &&& pixel_bytes(width, height) <= isize::MAX
    &&& size != (width, height) ==> can_fill(size, depth, width, height, nearest)
}

/// An image can be shown at `width` times `height` with a filter.
pub open spec fn is_showable(
    img: DynamicImage,
    width: u32,
    height: u32,
    filter: FilterType,
) -> bool {
    can_resize(image_size(img), pixel_depth(img), width, height, is_nearest(filter))
}

/// The bytes that an image has as blue, green, red and alpha: four for each pixel, but
/// for an image that is held so already, which keeps its buffer.
pub open spec fn bgra_len(img: DynamicImage) -> int {
    match bgra_buffer_len(img) {
        Some(len) => len as int,
        None => pixel_bytes(image_size(img).0, image_size(img).1),
    }
}

/// `bytes` shows `img` at `width` times `height`: its own pixels if it has that
/// size, and otherwise those of an image that was made to fill it.
pub open spec fn resized(
    img: DynamicImage,
    width: u32,
    height: u32,
    filter: FilterType,
    bytes: Seq<u8>,
) -> bool {
    if image_size(img) == (width, height) {
        &&& bytes == bgra_pixels(img)
        &&& bytes.len() == bgra_len(img)
        &&& bytes.len() >= pixel_bytes(width, height)
    } else {
        &&& exists|out: DynamicImage| #[trigger]
            fills(img, width, height, filter, out) && bytes == bgra_pixels(out)
        &&& bytes.len() == pixel_bytes(width, height)
    }
}

/// The image has four bytes for each pixel in its own buffer, or will have when it is
/// turned into blue, green, red and alpha.
pub open spec fn has_exact_bytes(img: DynamicImage) -> bool {
    bgra_len(img) == pixel_bytes(image_size(img).0, image_size(img).1)
}

/// Calls `GenericImageView::dimensions`: the width and the height of the image.
#[verifier::external_body]
fn dimensions(img: &DynamicImage) -> (size: (u32, u32))
    ensures
        size == image_size(*img),
{
    img.dimensions()
}

/// Calls `DynamicImage::resize_to_fill`. The outcome has exactly the size asked for,
/// and its buffer exactly the bytes of that size; which pixels it has is not said
/// beyond naming the outcome.
///
/// The call divides by the sides of the image, so neither may be zero; it panics
/// where one of its buffers would outgrow the address space, and where the weights that
/// a filter other than `Nearest` gives to the sources of a pixel add up to zero. They
/// do so for some longer sides: with `Triangle` from 4196353 to 16781428 pixels, and
/// from 8388610 to as many.
#[verifier::external_body]
fn resize_to_fill(
    img: &DynamicImage,
    width: u32,
    height: u32,
    filter: FilterType,
) -> (out: DynamicImage)
    requires
        can_fill(image_size(*img), pixel_depth(*img), width, height, is_nearest(filter)),
    ensures
        fills(*img, width, height, filter, out),
        image_size(out) == (width, height),
        bgra_pixels(out).len() == pixel_bytes(width, height),
{
    img.resize_to_fill(width, height, filter)
}

/// Calls `DynamicImage::as_bgra8` and `ImageBuffer::as_raw`: the length of the buffer of
/// an image that is held as blue, green, red and alpha.
#[verifier::external_body]
fn bgra_buffer(img: &DynamicImage) -> (len: Option<usize>)
    ensures
        len == bgra_buffer_len(*img),
{
    img.as_bgra8().map(|buffer| buffer.as_raw().len())
}

/// Calls `DynamicImage::color` and `ColorType::bytes_per_pixel`: how many bytes a pixel
/// of the image takes, which is from one to eight.
#[verifier::external_body]
fn bytes_per_pixel(img: &DynamicImage) -> (depth: u8)
    ensures
        depth == pixel_depth(*img),
        1 <= depth <= 8,
{
    img.color().bytes_per_pixel()
}

/// Tells `FilterType::Nearest` from the other filters.
#[verifier::external_body]
fn nearest(filter: FilterType) -> (r: bool)
    ensures
        r == is_nearest(filter),
{
    match filter {
        FilterType::Nearest => true,
        FilterType::Triangle => false,
        FilterType::CatmullRom => false,
        FilterType::Gaussian => false,
        FilterType::Lanczos3 => false,
    }
}

/// Calls `DynamicImage::into_bgra8` and `ImageBuffer::into_raw`. There are four bytes
/// for each pixel; only an image that is held so already keeps its buffer, which may be
/// longer. The call panics where a row, or the whole, would outgrow the address space.
#[verifier::external_body]
fn into_bgra_bytes(img: DynamicImage) -> (raw: Vec<u8>)
    requires
        image_size(img).0 * 4 <= usize::MAX,
        pixel_bytes(image_size(img).0, image_size(img).1) <= isize::MAX,
    ensures
        raw@ == bgra_pixels(img),
        raw@.len() == bgra_len(img),
        raw@.len() >= pixel_bytes(image_size(img).0, image_size(img).1),
{
    img.into_bgra8().into_raw()
}

/// Resizes an image to fill `width` times `height`, if it has not that size already,
/// and gives its bytes in the order blue, green, red, alpha.
pub fn img_resize(img: DynamicImage, width: u32, height: u32, filter: FilterType) -> (r: Vec<u8>)
    requires
        is_showable(img, width, height, filter),
    ensures
        resized(img, width, height, filter, r@),
        r@.len() == (if image_size(img) == (width, height) {
            bgra_len(img)
        } else {
            pixel_bytes(width, height)
        }),
        has_exact_bytes(img) ==> r@.len() == pixel_bytes(width, height),
{
    let size = dimensions(&img);
    if size.0 != width || size.1 != height {
        let out = resize_to_fill(&img, width, height, filter);
        into_bgra_bytes(out)
    } else {
        into_bgra_bytes(img)
    }
}

fn product(a: u32, b: u32) -> (r: u64)
    ensures
        r == a * b,
{
    proof {
        assert(a * b <= u64::MAX) by (nonlinear_arith)
            requires
                a <= u32::MAX,
                b <= u32::MAX,
        ;
    }
    (a as u64) * (b as u64)
}

/// Whether a side of an image can be sampled at another length.
fn is_sampled(source: u32, scaled: u32, nearest: bool) -> (r: bool)
    ensures
        r == can_sample(source as int, scaled as int, nearest),
{
    nearest || source <= MAX_EITHER || scaled <= MAX_EITHER || (source <= MAX_BOTH && scaled
        <= MAX_BOTH)
}

/// Whether `width` times `height` pixels of `depth` bytes each can be addressed.
fn is_addressable(width: u32, height: u32, depth: u8) -> (r: bool)
    ensures
        r == (width * height * depth <= isize::MAX),
{
    let area: u64 = product(width, height);
    proof {
        assert(area * depth <= u128::MAX) by (nonlinear_arith)
            requires
                area <= u64::MAX,
                depth <= u8::MAX,
        ;
    }
    (area as u128) * (depth as u128) <= isize::MAX as u128
}

/// Whether an image of the given size, with `depth` bytes for each pixel, can be shown
/// at `width` times `height`; `nearest` is whether this is to be done with
/// `FilterType::Nearest`.
pub fn is_resizable(
    size: (u32, u32),
    depth: u8,
    width: u32,
    height: u32,
    nearest: bool,
) -> (r: bool)
    ensures
        r == can_resize(size, depth, width, height, nearest),
{
    if width as u64 * 4 > usize::MAX as u64 || !is_addressable(width, height, 4) {
        return false;
    }
    if size.0 == width && size.1 == height {
        return true;
    }
    if size.0 == 0 || size.1 == 0 {
        return false;
    }
    let across: u64 = product(size.1, width);
    let down: u64 = product(size.0, height);
    assert(width * size.1 == size.1 * width) by (nonlinear_arith);
    let scaled: u64 = if across > down {
        across / (size.0 as u64)
    } else {
        down / (size.1 as u64)
    };
    let side: u64 = if scaled < 1 {
        1
    } else {
        scaled
    };
    let (w, h): (u64, u64) = if across > down {
        (width as u64, side)
    } else {
        (side, height as u64)
    };
    assert(w == fill_size(size, width, height).0);
    assert(h == fill_size(size, width, height).1);
    if w > u32::MAX as u64 || h > u32::MAX as u64 {
        return false;
    }
    let (w, h): (u32, u32) = (w as u32, h as u32);
    is_sampled(size.0, w, nearest) && is_sampled(size.1, h, nearest) && is_addressable(
        size.0,
        h,
        depth,
    ) && is_addressable(w, h, depth)
}

/// Whether an image can be shown at `width` times `height` with a filter.
pub fn fits(img: &DynamicImage, width: u32, height: u32, filter: FilterType) -> (r: bool)
    ensures
        r == is_showable(*img, width, height, filter),
{
    is_resizable(dimensions(img), bytes_per_pixel(img), width, height, nearest(filter))
}

/// Whether an image has four bytes for each pixel. Only one that is held as blue,
/// green, red and alpha can have more.
pub fn is_exact(img: &DynamicImage) -> (r: bool)
    ensures
        r == has_exact_bytes(*img),
{
    match bgra_buffer(img) {
        Some(len) => {
            let size = dimensions(img);
            let area: u64 = product(size.0, size.1);
            len as u64 / 4 == area && len % 4 == 0
        },
        None => true,
    }
}

/// Like `img_resize`, for an image of any size: gives nothing where the image cannot
/// be brought to the size asked for.
pub fn try_img_resize(
    img: DynamicImage,
    width: u32,
    height: u32,
    filter: FilterType,
) -> (r: Option<Vec<u8>>)
    ensures
        r is Some <==> is_showable(img, width, height, filter),
        r matches Some(bytes) ==> {
            &&& resized(img, width, height, filter, bytes@)
            &&& bytes@.len() == (if image_size(img) == (width, height) {
                bgra_len(img)
            } else {
                pixel_bytes(width, height)
            })
        },
{
    if fits(&img, width, height, filter) {
        Some(img_resize(img, width, height, filter))
    } else {
        None
    }
}

/// A picture that is not empty is refused for its sides only where some machine limit is
/// passed: with the nearest pixel always, and with every other filter if its own sides
/// are not longer than `MAX_EITHER`, whatever the size asked for.
pub proof fn ordinary_pictures_are_never_refused(
    size: (u32, u32),
    depth: u8,
    width: u32,
    height: u32,
    nearest: bool,
)
    requires
        0 < size.0,
        0 < size.1,
        nearest || (size.0 <= MAX_EITHER && size.1 <= MAX_EITHER),
    ensures
        ({
            let scaled = fill_size(size, width, height);
            &&& width * 4 <= usize::MAX
            &&& pixel_bytes(width, height) <= isize::MAX
            &&& scaled.0 <= u32::MAX
            &&& scaled.1 <= u32::MAX
            &&& size.0 * scaled.1 * depth <= isize::MAX
            &&& scaled.0 * scaled.1 * depth <= isize::MAX
        }) ==> can_resize(size, depth, width, height, nearest),
{
}

/// Showing an image gives its own pixels if it has the size asked for, and otherwise those
/// of an image that was made to fill that size, with the filter. There are four bytes for
/// each pixel of that size; only a longer buffer of an image that is held as blue, green,
/// red and alpha already is kept whole.
pub proof fn a_resized_image_shows_the_picture(
    img: DynamicImage,
    width: u32,
    height: u32,
    filter: FilterType,
    r: Vec<u8>,
)
    requires
        call_ensures(img_resize, (img, width, height, filter), r) || call_ensures(
            try_img_resize,
            (img, width, height, filter),
            Some(r),
        ),
    ensures
        image_size(img) == (width, height) ==> {
            &&& r@ == bgra_pixels(img)
            &&& bgra_buffer_len(img) is None ==> r@.len() == 4 * (width * height)
            &&& bgra_buffer_len(img) matches Some(len) ==> r@.len() == len
        },
        image_size(img) != (width, height) ==> {
            &&& exists|out: DynamicImage| #[trigger]
                fills(img, width, height, filter, out) && r@ == bgra_pixels(out)
            &&& r@.len() == 4 * (width * height)
        },
{
}

/// A size is scaled by the same factor in both directions, rounded down, but never to
/// nothing, so that it covers what is asked for: whichever of the two factors is the
/// larger one decides. It can be done if the image is not empty, no buffer is too large
/// to be addressed, and sides are not too long for the filter. `w` and `h` are the size
/// to which the image is scaled.
pub proof fn sizes_are_refused_only_at_the_limits(
    size: (u32, u32),
    depth: u8,
    width: u32,
    height: u32,
    nearest: bool,
    r: bool,
    w: int,
    h: int,
)
    requires
        call_ensures(is_resizable, (size, depth, width, height, nearest), r),
        0 < size.0,
        0 < size.1,
        width * size.1 > height * size.0 ==> {
            &&& w == width
            &&& size.1 * width < (h + 1) * size.0
            &&& h == 1 || h * size.0 <= size.1 * width
            &&& h >= 1
        },
        width * size.1 <= height * size.0 ==> {
            &&& h == height
            &&& size.0 * height < (w + 1) * size.1
            &&& w == 1 || w * size.1 <= size.0 * height
            &&& w >= 1
        },
    ensures
        w >= width,
        h >= height,
        r <==> {
            &&& 4 * width <= usize::MAX
            &&& 4 * (width * height) <= isize::MAX
            &&& size == (width, height) || {
                &&& w <= u32::MAX
                &&& h <= u32::MAX
                &&& size.0 * h * depth <= isize::MAX
                &&& w * h * depth <= isize::MAX
                &&& nearest || size.0 <= 4_194_304 || w <= 4_194_304 || (size.0 <= 8_388_608 && w
                    <= 8_388_608)
                &&& nearest || size.1 <= 4_194_304 || h <= 4_194_304 || (size.1 <= 8_388_608 && h
                    <= 8_388_608)
            }
        },
{
    let (a, b) = (size.0 as int, size.1 as int);
    let (tw, th) = (width as int, height as int);
    assert(th * a == a * th) by (nonlinear_arith);
    assert(tw * b == b * tw) by (nonlinear_arith);
    if tw * b > a * th {
        quotient_is(b * tw, a, h);
        assert(h >= th) by (nonlinear_arith)
            requires
                b * tw > a * th,
                b * tw < (h + 1) * a,
                a > 0,
        ;
    } else {
        quotient_is(a * th, b, w);
        assert(w >= tw) by (nonlinear_arith)
            requires
                tw * b <= a * th,
                a * th < (w + 1) * b,
                b > 0,
        ;
    }
    assert(w == fill_size(size, width, height).0);
    assert(h == fill_size(size, width, height).1);
}

proof fn quotient_is(n: int, d: int, q: int)
    requires
        0 < d,
        0 <= n,
        1 <= q,
        n < (q + 1) * d,
        q == 1 || q * d <= n,
    ensures
        q == (if n / d < 1 {
            1
        } else {
            n / d
        }),
{
    let e = n / d;
    assert(e * d <= n < (e + 1) * d && 0 <= e) by (nonlinear_arith)
        requires
            e == n / d,
            0 < d,
            0 <= n,
    ;
    assert(e <= q) by (nonlinear_arith)
        requires
            e * d <= n,
            n < (q + 1) * d,
            0 < d,
    ;
    if q > 1 {
        assert(q <= e) by (nonlinear_arith)
            requires
                q * d <= n,
                n < (e + 1) * d,
                0 < d,
        ;
    }
}

/// An empty image can be shown only at its own size.
pub proof fn an_empty_image_has_only_its_own_size(
    size: (u32, u32),
    depth: u8,
    width: u32,
    height: u32,
    nearest: bool,
    r: bool,
)
    requires
        call_ensures(is_resizable, (size, depth, width, height, nearest), r),
        size.0 == 0 || size.1 == 0,
    ensures
        r <==> size == (width, height) && 4 * width <= usize::MAX && 4 * (width * height)
            <= isize::MAX,
{
}

/// Whether an image can be shown is decided by its size, its depth and whether the filter
/// is the nearest pixel; bringing it to size succeeds exactly then, and can be asked for.
pub proof fn an_image_is_judged_by_its_size(
    img: DynamicImage,
    width: u32,
    height: u32,
    filter: FilterType,
    by_image: bool,
    by_size: bool,
    bytes: Option<Vec<u8>>,
)
    requires
        call_ensures(fits, (&img, width, height, filter), by_image),
        call_ensures(
            is_resizable,
            (image_size(img), pixel_depth(img), width, height, is_nearest(filter)),
            by_size,
        ),
        call_ensures(try_img_resize, (img, width, height, filter), bytes),
    ensures
        by_image == by_size,
        bytes is Some <==> by_size,
        by_size ==> call_requires(img_resize, (img, width, height, filter)),
{
}

/// An image is exact unless its own buffer of blue, green, red and alpha has more or fewer
/// than four bytes for each pixel.
pub proof fn exact_images_have_four_bytes_per_pixel(img: DynamicImage, r: bool)
    requires
        call_ensures(is_exact, (&img,), r),
    ensures
        r <==> (bgra_buffer_len(img) matches Some(len) ==> len == 4 * (image_size(img).0
            * image_size(img).1)),
{
}

} // verus!
