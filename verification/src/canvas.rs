//! The raster that a render is written to and a texture is read from: an
//! `image::RgbImage` behind the few calls that the library makes on it.

use image::{Rgb, RgbImage};
use vstd::prelude::*;

verus! {

/// An RGB raster of the `image` crate.
///
/// Nothing of the buffer is visible here. What it holds goes by three
/// names, `canvas_width`, `canvas_height` and `canvas_bytes`, and the
/// functions below say of each call what it does to them.
#[verifier::external_body]
pub struct Canvas {
    img: RgbImage,
}

/// The number of pixels in a row of the raster.
pub uninterp spec fn canvas_width(c: Canvas) -> nat;

/// The number of rows of the raster.
pub uninterp spec fn canvas_height(c: Canvas) -> nat;

/// The samples of the raster as the buffer holds them: row after row from
/// the top, pixel after pixel from the left, red, green and blue of each.
pub uninterp spec fn canvas_bytes(c: Canvas) -> Seq<u8>;

/// The place in the buffer of the first sample of the pixel in column `x`
/// of row `y`, in a raster `width` wide.
pub open spec fn sample_index(width: nat, x: int, y: int) -> int {
    3 * (y * width + x)
}

impl Canvas {
    /// Column `x` of row `y` lies on the raster.
    pub open spec fn covers(self, x: int, y: int) -> bool {
        0 <= x < canvas_width(self) && 0 <= y < canvas_height(self)
    }

    /// The buffer is long enough for every pixel of the raster.
    pub open spec fn well_formed(self) -> bool {
        3 * (canvas_width(self) * canvas_height(self)) <= canvas_bytes(self).len()
    }

    /// The colour of the pixel in column `x` of row `y`.
    pub open spec fn color_at(self, x: int, y: int) -> [u8; 3] {
        let at = sample_index(canvas_width(self), x, y);
        [canvas_bytes(self)[at], canvas_bytes(self)[at + 1], canvas_bytes(self)[at + 2]]
    }

    /// A black raster `width` by `height`, where a buffer can hold the
    /// samples of a row and those of the whole.
    pub fn new(width: u32, height: u32) -> (res: Option<Canvas>)
        ensures
            res is Some <==> 3 * width <= usize::MAX && 3 * (width * height) <= usize::MAX,
            res matches Some(c) ==> c.well_formed() && canvas_width(c) == width && canvas_height(c)
                == height && canvas_bytes(c) == Seq::new(
                (3 * (width * height)) as nat,
                |i: int| 0u8,
            ),
    {
        proof {
            assert(width * height <= 0xffff_ffff * 0xffff_ffff) by (nonlinear_arith)
                requires
                    0 <= width <= 0xffff_ffff,
                    0 <= height <= 0xffff_ffff,
            ;
        }
        let samples: u128 = 3 * ((width as u128) * (height as u128));
        if 3 * (width as u128) <= usize::MAX as u128 && samples <= usize::MAX as u128 {
            Some(blank(width, height))
        } else {
            None
        }
    }

    /// The samples of the raster, row after row from the top.
    pub fn into_bytes(self) -> (buf: Vec<u8>)
        ensures
            buf@ == canvas_bytes(self),
    {
        into_raw(self)
    }
}

/// `image::ImageBuffer::new`: a raster `width` by `height` with every
/// sample 0.
#[verifier::external_body]
pub(crate) fn blank(width: u32, height: u32) -> (c: Canvas)
    requires
        3 * width <= usize::MAX,
        3 * (width * height) <= usize::MAX,
    ensures
        canvas_width(c) == width,
        canvas_height(c) == height,
        canvas_bytes(c) == Seq::new((3 * (width * height)) as nat, |i: int| 0u8),
{
    Canvas { img: RgbImage::new(width, height) }
}

/// `image::ImageBuffer::from_raw`: the raster `width` by `height` over
/// the samples of `buf`, where `buf` has enough of them.
#[verifier::external_body]
pub(crate) fn from_raw(width: u32, height: u32, buf: Vec<u8>) -> (res: Option<Canvas>)
    requires
        height > 0,
    ensures
        res is Some <==> 3 * (width * height) <= buf@.len(),
        res matches Some(c) ==> canvas_width(c) == width && canvas_height(c) == height
            && canvas_bytes(c) == buf@,
{
    match RgbImage::from_raw(width, height, buf) {
        Some(img) => Some(Canvas { img }),
        None => None,
    }
}

/// `image::ImageBuffer::into_raw`: the buffer of the raster.
#[verifier::external_body]
pub(crate) fn into_raw(c: Canvas) -> (buf: Vec<u8>)
    ensures
        buf@ == canvas_bytes(c),
{
    c.img.into_raw()
}

/// `image::ImageBuffer::width`.
#[verifier::external_body]
pub(crate) fn width(c: &Canvas) -> (w: u32)
    ensures
        w == canvas_width(*c),
{
    c.img.width()
}

/// `image::ImageBuffer::height`.
#[verifier::external_body]
pub(crate) fn height(c: &Canvas) -> (h: u32)
    ensures
        h == canvas_height(*c),
{
    c.img.height()
}

/// `image::ImageBuffer::get_pixel`: the three samples of the pixel in
/// column `x` of row `y`.
#[verifier::external_body]
pub(crate) fn get_pixel(c: &Canvas, x: u32, y: u32) -> (rgb: [u8; 3])
    requires
        c.covers(x as int, y as int),
    ensures
        rgb == c.color_at(x as int, y as int),
{
    c.img.get_pixel(x, y).0
}

/// `image::ImageBuffer::put_pixel`: the three samples of the pixel in
/// column `x` of row `y` become `rgb`, and nothing else changes.
#[verifier::external_body]
pub(crate) fn put_pixel(c: &mut Canvas, x: u32, y: u32, rgb: [u8; 3])
    requires
        old(c).covers(x as int, y as int),
    ensures
        canvas_width(*final(c)) == canvas_width(*old(c)),
        canvas_height(*final(c)) == canvas_height(*old(c)),
        canvas_bytes(*final(c)) == canvas_bytes(*old(c)).update(
            sample_index(canvas_width(*old(c)), x as int, y as int),
            rgb[0],
        ).update(sample_index(canvas_width(*old(c)), x as int, y as int) + 1, rgb[1]).update(
            sample_index(canvas_width(*old(c)), x as int, y as int) + 2,
            rgb[2],
        ),
{
    c.img.put_pixel(x, y, Rgb(rgb))
}

/// Writes `rgb` to the pixel in column `i` of row `j`, where the raster
/// has such a pixel, and leaves the raster as it is where it has not.
pub fn write_color(rgb: [u8; 3], img: &mut Canvas, i: usize, j: usize)
    requires
        old(img).well_formed(),
    ensures
        final(img).well_formed(),
        canvas_width(*final(img)) == canvas_width(*old(img)),
        canvas_height(*final(img)) == canvas_height(*old(img)),
        canvas_bytes(*final(img)).len() == canvas_bytes(*old(img)).len(),
        !old(img).covers(i as int, j as int) ==> canvas_bytes(*final(img)) == canvas_bytes(
            *old(img),
        ),
        old(img).covers(i as int, j as int) ==> canvas_bytes(*final(img)) == canvas_bytes(
            *old(img),
        ).update(sample_index(canvas_width(*old(img)), i as int, j as int), rgb[0]).update(
            sample_index(canvas_width(*old(img)), i as int, j as int) + 1,
            rgb[1],
        ).update(sample_index(canvas_width(*old(img)), i as int, j as int) + 2, rgb[2]),
        old(img).covers(i as int, j as int) ==> final(img).color_at(i as int, j as int) == rgb,
        forall|x: int, y: int|
            old(img).covers(x, y) && !(x == i && y == j) ==> final(img).color_at(x, y) == old(
                img,
            ).color_at(x, y),
{
    let w = width(img);
    let h = height(img);
    if i < w as usize && j < h as usize {
        proof {
            lemma_sample_index_bounds(canvas_width(*img), canvas_height(*img), i as int, j as int);
            assert forall|x: int, y: int| img.covers(x, y) && !(x == i && y == j) implies {
                let a = sample_index(canvas_width(*img), x, y);
                let b = sample_index(canvas_width(*img), i as int, j as int);
                0 <= a && a + 2 < canvas_bytes(*img).len() && (a + 2 < b || b + 2 < a)
            } by {
                lemma_sample_index_bounds(canvas_width(*img), canvas_height(*img), x, y);
                lemma_sample_index_apart(canvas_width(*img), x, y, i as int, j as int);
            }
        }
        put_pixel(img, i as u32, j as u32, rgb);
        proof {
            assert(final(img).color_at(i as int, j as int)@ =~= rgb@);
            assert forall|x: int, y: int|
                old(img).covers(x, y) && !(x == i && y == j) implies final(img).color_at(x, y)
                == old(img).color_at(x, y) by {
                assert(final(img).color_at(x, y)@ =~= old(img).color_at(x, y)@);
            }
        }
    }
}

/// The three samples of a pixel on the raster lie in its buffer.
pub proof fn lemma_sample_index_bounds(width: nat, height: nat, x: int, y: int)
    requires
        0 <= x < width,
        0 <= y < height,
    ensures
        0 <= sample_index(width, x, y),
        sample_index(width, x, y) + 3 <= 3 * (width * height),
{
    assert(y * width + x < width * height) by (nonlinear_arith)
        requires
            0 <= x < width,
            0 <= y < height,
    ;
    assert(0 <= y * width + x) by (nonlinear_arith)
        requires
            0 <= x < width,
            0 <= y,
    ;
}

/// The samples of two pixels of the raster do not overlap.
pub proof fn lemma_sample_index_apart(width: nat, x: int, y: int, i: int, j: int)
    requires
        0 <= x < width,
        0 <= i < width,
        0 <= y,
        0 <= j,
        !(x == i && y == j),
    ensures
        sample_index(width, x, y) + 3 <= sample_index(width, i, j) || sample_index(width, i, j)
            + 3 <= sample_index(width, x, y),
{
    assert(y * width + x != j * width + i) by (nonlinear_arith)
        requires
            0 <= x < width,
            0 <= i < width,
            0 <= y,
            0 <= j,
            !(x == i && y == j),
    ;
}

} // verus!
