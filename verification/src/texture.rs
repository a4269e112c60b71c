//! The lookups behind textures: which cell of a checker a point lies in,
//! which texel of an image a coordinate falls on, and which texels a
//! blend between neighbours takes.

use vstd::prelude::*;
use crate::canvas::{canvas_bytes, canvas_height, canvas_width, from_raw, get_pixel, height, width, Canvas};

verus! {

/// Whether the cell `(xgrid, ygrid, zgrid)` of a checker is one of the
/// even ones: those whose three coordinates add up to an even number.
pub fn on_even_cell(xgrid: i64, ygrid: i64, zgrid: i64) -> (even: bool)
    ensures
        even == ((xgrid + ygrid + zgrid) % 2 == 0),
{
    let sum: i128 = xgrid as i128 + ygrid as i128 + zgrid as i128;
    sum % 2 == 0
}

/// The two texels along one axis that a blend at `at` takes, in an image
/// with `size` texels along that axis: `at` brought onto the image, and
/// the texel after it, or the same one at the far edge.
pub fn bilinear_span(at: i32, size: i32) -> (res: (i32, i32))
    requires
        size >= 1,
    ensures
        res.0 == if at < 0 {
            0
        } else if at > size - 1 {
            size - 1
        } else {
            at as int
        },
        res.1 == if res.0 + 1 > size - 1 {
            size - 1
        } else {
            res.0 + 1
        },
        0 <= res.0 <= res.1 < size,
{
    let last = size - 1;
    let first = if at < 0 {
        0
    } else if at > last {
        last
    } else {
        at
    };
    let second = if first + 1 > last {
        last
    } else {
        first + 1
    };
    (first, second)
}

/// A texture read from a decoded image.
pub struct ImageTexture {
    img: Canvas,
}

impl ImageTexture {
    #[verifier::type_invariant]
    spec fn has_texels(self) -> bool {
        &&& self.img.well_formed()
        &&& canvas_width(self.img) > 0
        &&& canvas_height(self.img) > 0
    }

    /// The number of texels in a row.
    pub closed spec fn columns(self) -> nat {
        canvas_width(self.img)
    }

    /// The number of rows.
    pub closed spec fn rows(self) -> nat {
        canvas_height(self.img)
    }

    /// The samples of the image: row after row from the top, texel after
    /// texel from the left, red, green and blue of each.
    pub closed spec fn samples(self) -> Seq<u8> {
        canvas_bytes(self.img)
    }

    /// The texel in column `i` of row `j`.
    pub open spec fn texel(self, i: int, j: int) -> [u8; 3] {
        let at = 3 * (j * self.columns() + i);
        [self.samples()[at], self.samples()[at + 1], self.samples()[at + 2]]
    }

    /// The texture over an image `width` by `height` with the samples
    /// `data`, where the image has a texel and `data` a sample for each.
    pub fn new(width: u32, height: u32, data: Vec<u8>) -> (res: Option<Self>)
        ensures
            res is Some <==> width > 0 && height > 0 && 3 * (width * height) <= data@.len(),
            res matches Some(tex) ==> tex.columns() == width && tex.rows() == height
                && tex.samples() == data@,
    {
        if width == 0 || height == 0 {
            return None;
        }
        match from_raw(width, height, data) {
            Some(img) => Some(Self { img }),
            None => None,
        }
    }

    /// The number of texels in a row.
    pub fn width(&self) -> (w: u32)
        ensures
            w == self.columns(),
            w > 0,
    {
        proof {
            use_type_invariant(self);
        }
        width(&self.img)
    }

    /// The number of rows.
    pub fn height(&self) -> (h: u32)
        ensures
            h == self.rows(),
            h > 0,
    {
        proof {
            use_type_invariant(self);
        }
        height(&self.img)
    }

    /// The texel in column `i` of row `j`, where the image has one there.
    pub fn value(&self, i: u32, j: u32) -> (res: Option<[u8; 3]>)
        ensures
            res is Some <==> i < self.columns() && j < self.rows(),
            res matches Some(rgb) ==> rgb == self.texel(i as int, j as int),
    {
        proof {
            use_type_invariant(self);
        }
        if i < width(&self.img) && j < height(&self.img) {
            Some(get_pixel(&self.img, i, j))
        } else {
            None
        }
    }
}

} // verus!
