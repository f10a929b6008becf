//! RGB frame images.

use crate::palette::Rgb8;
use vstd::prelude::*;

verus! {

/// An 8-bit RGB image, held in an `image::ImageBuffer`. The verifier sees
/// nothing inside it: the type of the buffer is bound by a trait of its crate
/// and cannot be declared by itself.
#[verifier::external_body]
pub struct FrameImage {
    buf: image::ImageBuffer<image::Rgb<u8>, Vec<u8>>,
}

/// Width and height of an image, in pixels.
pub uninterp spec fn image_size(img: FrameImage) -> (nat, nat);

/// The pixels of an image: the colour at each `(x, y)` inside it.
pub uninterp spec fn image_pixels(img: FrameImage) -> Map<(int, int), Rgb8>;

/// The pixel at `(x, y)` of a raw buffer: three samples, rows one after the
/// other.
pub open spec fn raw_pixel(data: Seq<u8>, width: int, x: int, y: int) -> Rgb8 {
    Rgb8 {
        r: data[3 * (y * width + x)],
        g: data[3 * (y * width + x) + 1],
        b: data[3 * (y * width + x) + 2],
    }
}

/// The image has a pixel at `(x, y)` exactly if `(x, y)` lies inside its
/// width and height.
pub open spec fn image_whole(img: FrameImage) -> bool {
    forall|k: (int, int)|
        #[trigger] image_pixels(img).dom().contains(k) <==> 0 <= k.0 < image_size(img).0 && 0 <= k.1
            < image_size(img).1
}

/// The pixels of `img` are those of the raw buffer `data`.
pub open spec fn image_holds_raw(img: FrameImage, data: Seq<u8>) -> bool {
    &&& data.len() == 3 * image_size(img).0 * image_size(img).1
    &&& forall|x: int, y: int|
        0 <= x < image_size(img).0 && 0 <= y < image_size(img).1 ==> #[trigger] image_pixels(
            img,
        )[(x, y)] == raw_pixel(data, image_size(img).0 as int, x, y)
}

/// Calls `ImageBuffer::new`. Trusted, from its source: the image has the
/// width and height asked for and every sample is 0. It panics where the
/// samples of a row or of the image are more than a vector can hold, which
/// `requires` leaves out.
#[verifier::external_body]
pub(crate) fn image_new(width: u32, height: u32) -> (img: FrameImage)
    requires
        3 * width <= isize::MAX,
        3 * width * height <= isize::MAX,
    ensures
        image_size(img) == (width as nat, height as nat),
        image_pixels(img) == Map::new(
            |k: (int, int)| 0 <= k.0 < width && 0 <= k.1 < height,
            |k: (int, int)| (Rgb8 { r: 0, g: 0, b: 0 }),
        ),
{
    FrameImage { buf: image::ImageBuffer::new(width, height) }
}

/// Calls `ImageBuffer::put_pixel`. Trusted, from its source: the pixel at
/// `(x, y)` becomes `c` and nothing else changes. It panics outside the
/// image, which `requires` leaves out.
#[verifier::external_body]
pub(crate) fn image_put(img: &mut FrameImage, x: u32, y: u32, c: Rgb8)
    requires
        x < image_size(*old(img)).0,
        y < image_size(*old(img)).1,
    ensures
        image_size(*final(img)) == image_size(*old(img)),
        image_pixels(*final(img)) == image_pixels(*old(img)).insert((x as int, y as int), c),
{
    img.buf.put_pixel(x, y, image::Rgb([c.r, c.g, c.b]));
}

/// Calls `ImageBuffer::get_pixel`. Trusted, from its source: it gives the
/// pixel at `(x, y)`. It panics outside the image, which `requires` leaves
/// out.
#[verifier::external_body]
pub(crate) fn image_get(img: &FrameImage, x: u32, y: u32) -> (c: Rgb8)
    requires
        x < image_size(*img).0,
        y < image_size(*img).1,
    ensures
        c == image_pixels(*img)[(x as int, y as int)],
{
    let p = img.buf.get_pixel(x, y);
    Rgb8 { r: p[0], g: p[1], b: p[2] }
}

/// Calls `ImageBuffer::dimensions`. Trusted, from its source: it gives the
/// width and the height of the image.
#[verifier::external_body]
pub(crate) fn image_dimensions(img: &FrameImage) -> (d: (u32, u32))
    ensures
        d.0 == image_size(*img).0,
        d.1 == image_size(*img).1,
{
    img.buf.dimensions()
}

/// Calls `ImageBuffer::from_raw` with a buffer of exactly three samples for
/// each pixel. Trusted, from its source: such a buffer is accepted where the
/// samples of a row can be counted in `usize`, and the pixel at `(x, y)` is
/// made of the three samples from `3 * (y * width + x)` on.
#[verifier::external_body]
pub(crate) fn image_from_raw(width: u32, height: u32, data: Vec<u8>) -> (r: Option<FrameImage>)
    requires
        data@.len() == 3 * width * height,
        3 * width <= usize::MAX,
    ensures
        r is Some,
        image_size(r->Some_0) == (width as nat, height as nat),
        image_whole(r->Some_0),
        image_holds_raw(r->Some_0, data@),
{
    match image::ImageBuffer::from_raw(width, height, data) {
        Some(buf) => Some(FrameImage { buf }),
        None => None,
    }
}

/// Calls `ImageBuffer::as_raw` and copies what it gives. Trusted: every image
/// of this type was made by `image_new` or `image_from_raw`, so its buffer has
/// exactly three samples for each pixel, laid out as `image_from_raw` says.
#[verifier::external_body]
pub(crate) fn image_raw(img: &FrameImage) -> (data: Vec<u8>)
    ensures
        image_holds_raw(*img, data@),
{
    img.buf.as_raw().clone()
}

impl FrameImage {
    /// Width in pixels.
    pub fn width(&self) -> (w: u32)
        ensures
            w == image_size(*self).0,
    {
        image_dimensions(self).0
    }

    /// Height in pixels.
    pub fn height(&self) -> (h: u32)
        ensures
            h == image_size(*self).1,
    {
        image_dimensions(self).1
    }

    /// The pixel at `(x, y)`, or `None` outside the image.
    pub fn pixel(&self, x: u32, y: u32) -> (c: Option<Rgb8>)
        ensures
            c == if x < image_size(*self).0 && y < image_size(*self).1 {
                Some(image_pixels(*self)[(x as int, y as int)])
            } else {
                None
            },
    {
        let (w, h) = image_dimensions(self);
        if x < w && y < h {
            Some(image_get(self, x, y))
        } else {
            None
        }
    }

    /// An image of the given size from raw samples, three for each pixel, rows
    /// one after the other. `None` unless `data` has exactly
    /// `3 * width * height` samples and the samples of a row can be counted
    /// in `usize`.
    pub fn from_raw(width: u32, height: u32, data: Vec<u8>) -> (r: Option<FrameImage>)
        ensures
            r is Some <==> data@.len() == 3 * width * height && 3 * width <= usize::MAX,
            r is Some ==> image_size(r->Some_0) == (width as nat, height as nat) && image_whole(
                r->Some_0,
            ) && image_holds_raw(r->Some_0, data@),
    {
        assert(0 <= width * height <= 0xffff_ffff * 0xffff_ffff) by (nonlinear_arith)
            requires
                0 <= width <= 0xffff_ffff,
                0 <= height <= 0xffff_ffff,
        ;
        let area: u128 = (width as u128) * (height as u128);
        let need: u128 = 3u128 * area;
        assert(need == 3 * width * height) by (nonlinear_arith)
            requires
                need == 3 * area,
                area == width * height,
        ;
        if data.len() as u128 == need && 3 * (width as u64) <= usize::MAX as u64 {
            image_from_raw(width, height, data)
        } else {
            None
        }
    }

    /// The raw samples of the image, three for each pixel, rows one after the
    /// other.
    pub fn to_raw(&self) -> (data: Vec<u8>)
        ensures
            image_holds_raw(*self, data@),
    {
        image_raw(self)
    }
}

} // verus!
