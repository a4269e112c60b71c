//! The camera's share of a render: how large the image is, which pixels
//! there are to compute and in which order, where in a pixel its samples
//! are taken, and where each computed colour goes.

use crossbeam::queue::ArrayQueue;
use vstd::prelude::*;
use crate::canvas::{
    blank, canvas_bytes, canvas_height, canvas_width, into_raw, lemma_sample_index_bounds,
    write_color,
};
use crate::utils::isqrt;

verus! {

/// The bounded queue of the `crossbeam` crate.
#[verifier::external_type_specification]
#[verifier::external_body]
#[verifier::reject_recursive_types(T)]
pub struct ExArrayQueue<T>(ArrayQueue<T>);

/// The pixels waiting in a queue of pixels, the one to leave next first.
pub uninterp spec fn queued_pixels(q: ArrayQueue<(usize, usize)>) -> Seq<(usize, usize)>;

/// The number of pixels that a queue of pixels was made to hold.
pub uninterp spec fn pixel_room(q: ArrayQueue<(usize, usize)>) -> nat;

/// The colours waiting in a queue of results, each with the column and
/// the row of its pixel, the one to leave next first.
pub uninterp spec fn queued_colors(q: ArrayQueue<([u8; 3], usize, usize)>) -> Seq<
    ([u8; 3], usize, usize),
>;

/// `ArrayQueue::new`, once for the pixels of a render and once for its
/// results: two empty queues with room for `cap` each.
#[verifier::external_body]
fn queues_of(cap: usize) -> (q: (ArrayQueue<(usize, usize)>, ArrayQueue<([u8; 3], usize, usize)>))
    requires
        0 < cap <= usize::MAX / 2,
    ensures
        queued_pixels(q.0) == Seq::<(usize, usize)>::empty(),
        pixel_room(q.0) == cap,
        queued_colors(q.1) == Seq::<([u8; 3], usize, usize)>::empty(),
{
    (ArrayQueue::new(cap), ArrayQueue::new(cap))
}

/// `ArrayQueue::push` by the one holder of the queue: the pixel joins the
/// end of the queue where there is room, and is turned away where there
/// is none.
#[verifier::external_body]
fn push_pixel(q: &mut ArrayQueue<(usize, usize)>, pixel: (usize, usize)) -> (ok: bool)
    ensures
        ok == (queued_pixels(*old(q)).len() < pixel_room(*old(q))),
        pixel_room(*final(q)) == pixel_room(*old(q)),
        queued_pixels(*final(q)) == if ok {
            queued_pixels(*old(q)).push(pixel)
        } else {
            queued_pixels(*old(q))
        },
{
    q.push(pixel).is_ok()
}

/// `ArrayQueue::pop` by the one holder of the queue: the first result
/// leaves the queue, where there is one.
#[verifier::external_body]
fn pop_color(q: &mut ArrayQueue<([u8; 3], usize, usize)>) -> (res: Option<([u8; 3], usize, usize)>)
    ensures
        match res {
            Some(first) => queued_colors(*old(q)).len() > 0 && first == queued_colors(*old(q))[0]
                && queued_colors(*final(q)) == queued_colors(*old(q)).skip(1),
            None => queued_colors(*old(q)).len() == 0 && queued_colors(*final(q))
                == queued_colors(*old(q)),
        },
{
    q.pop()
}

/// The part of a camera's settings that counts things.
#[derive(Clone, Copy, Debug, PartialEq, Eq, Structural)]
pub struct CameraConfig {
    pub img_width: usize,
    pub sample_times: usize,
    pub reflect_depth: usize,
    pub thread_count: usize,
}

impl Default for CameraConfig {
    fn default() -> (res: Self)
        ensures
            res == (CameraConfig {
                img_width: 100,
                sample_times: 10,
                reflect_depth: 10,
                thread_count: 16,
            }),
    {
        Self { img_width: 100, sample_times: 10, reflect_depth: 10, thread_count: 16 }
    }
}

/// Why settings make no camera.
#[derive(Clone, Copy, Debug, PartialEq, Eq, Structural)]
pub enum ConfigError {
    /// The image has no columns.
    NoWidth,
    /// No sample is asked for.
    NoSamples,
    /// No thread is given to the render.
    NoThreads,
    /// The image has more pixels than a buffer can hold.
    TooLarge,
}

/// The part of a camera that counts things: the size of the image, the
/// scatterings a path is allowed, the threads of a render, and the side
/// of the square grid of samples taken of each pixel.
#[derive(Clone, Copy, Debug, PartialEq, Eq, Structural)]
pub struct Camera {
    pub image_width: usize,
    pub image_height: usize,
    pub reflect_depth: usize,
    pub thread_count: usize,
    pub sample_sqrt_times: usize,
}

/// The pixels of an image in the order in which a render takes them up:
/// row after row from the top, each from left to right, the column
/// before the row.
pub open spec fn row_major(width: usize, height: usize) -> Seq<(usize, usize)> {
    Seq::new(
        (width * height) as nat,
        |k: int| ((k % (width as int)) as usize, (k / (width as int)) as usize),
    )
}

/// The cells of a square grid with `side` cells along each side, by
/// column and row: column after column, each from its first row.
pub open spec fn grid_cells(side: usize) -> Seq<(usize, usize)> {
    Seq::new(
        (side * side) as nat,
        |k: int| ((k / (side as int)) as usize, (k % (side as int)) as usize),
    )
}

/// The colour that results leave at column `x` of row `y`: that of the
/// last of them for this pixel, and black where there is none.
pub open spec fn painted(results: Seq<([u8; 3], usize, usize)>, x: int, y: int) -> [u8; 3]
    decreases results.len(),
{
    if results.len() == 0 {
        [0u8, 0u8, 0u8]
    } else if results.last().1 == x && results.last().2 == y {
        results.last().0
    } else {
        painted(results.drop_last(), x, y)
    }
}

/// `raw` is the image `width` by `height` that `results` leave: three
/// samples for each pixel, row after row from the top.
pub open spec fn shows(raw: Seq<u8>, width: usize, height: usize, results: Seq<([u8; 3], usize, usize)>) -> bool {
    &&& raw.len() == 3 * (width * height)
    &&& forall|x: int, y: int, c: int|
        0 <= x < width && 0 <= y < height && 0 <= c < 3 ==> #[trigger] raw[3 * (y * width + x)
            + c] == painted(results, x, y)[c]
}

/// `rows`, or 1 where `rows` is 0.
pub open spec fn at_least_one(rows: usize) -> usize {
    if rows == 0 {
        1
    } else {
        rows
    }
}

impl Camera {
    /// The image has a pixel, a render has a thread and a sample to take,
    /// and the image is no larger than a buffer can hold.
    pub open spec fn well_formed(self) -> bool {
        &&& 0 < self.image_width <= u32::MAX
        &&& 0 < self.image_height <= u32::MAX
        &&& 3 * (self.image_width * self.image_height) <= usize::MAX
        &&& 0 < self.thread_count
        &&& 0 < self.sample_sqrt_times
        &&& self.sample_sqrt_times * self.sample_sqrt_times <= usize::MAX
    }

    /// The camera for `cfg` and an image of `rows` rows, or of one row
    /// where `rows` is 0. Of each pixel it takes the largest square grid
    /// of samples that `cfg.sample_times` allows.
    pub fn new(cfg: CameraConfig, rows: usize) -> (res: Result<Self, ConfigError>)
        ensures
            match res {
                Ok(cam) => {
                    &&& cam.well_formed()
                    &&& cam.image_width == cfg.img_width
                    &&& cam.image_height == at_least_one(rows)
                    &&& cam.reflect_depth == cfg.reflect_depth
                    &&& cam.thread_count == cfg.thread_count
                    &&& cam.sample_sqrt_times * cam.sample_sqrt_times <= cfg.sample_times < (
                    cam.sample_sqrt_times + 1) * (cam.sample_sqrt_times + 1)
                },
                Err(ConfigError::NoWidth) => cfg.img_width == 0,
                Err(ConfigError::NoSamples) => cfg.img_width > 0 && cfg.sample_times == 0,
                Err(ConfigError::NoThreads) => cfg.img_width > 0 && cfg.sample_times > 0
                    && cfg.thread_count == 0,
                Err(ConfigError::TooLarge) => {
                    &&& cfg.img_width > 0 && cfg.sample_times > 0 && cfg.thread_count > 0
                    &&& cfg.img_width > u32::MAX || rows > u32::MAX || 3 * (cfg.img_width
                        * at_least_one(rows)) > usize::MAX
                },
            },
            res is Ok <==> {
                &&& cfg.img_width > 0 && cfg.sample_times > 0 && cfg.thread_count > 0
                &&& cfg.img_width <= u32::MAX && rows <= u32::MAX && 3 * (cfg.img_width
                    * at_least_one(rows)) <= usize::MAX
            },
    {
        if cfg.img_width == 0 {
            return Err(ConfigError::NoWidth);
        }
        if cfg.sample_times == 0 {
            return Err(ConfigError::NoSamples);
        }
        if cfg.thread_count == 0 {
            return Err(ConfigError::NoThreads);
        }
        let image_height: usize = if rows == 0 {
            1
        } else {
            rows
        };
        if cfg.img_width > u32::MAX as usize || rows > u32::MAX as usize {
            return Err(ConfigError::TooLarge);
        }
        proof {
            assert(cfg.img_width * image_height <= 0xffff_ffff * 0xffff_ffff) by (nonlinear_arith)
                requires
                    0 <= cfg.img_width <= 0xffff_ffff,
                    0 <= image_height <= 0xffff_ffff,
            ;
        }
        let samples: u128 = 3 * ((cfg.img_width as u128) * (image_height as u128));
        if samples > usize::MAX as u128 {
            return Err(ConfigError::TooLarge);
        }
        let sample_sqrt_times = isqrt(cfg.sample_times);
        proof {
            assert(sample_sqrt_times > 0) by (nonlinear_arith)
                requires
                    cfg.sample_times > 0,
                    cfg.sample_times < (sample_sqrt_times + 1) * (sample_sqrt_times + 1),
                    sample_sqrt_times >= 0,
            ;
        }
        Ok(
            Camera {
                image_width: cfg.img_width,
                image_height,
                reflect_depth: cfg.reflect_depth,
                thread_count: cfg.thread_count,
                sample_sqrt_times,
            },
        )
    }

    /// The two queues of a render: that of the pixels of the image, each
    /// by its column and row, in the order in which a render takes them
    /// up, and that for the results, empty.
    pub fn queues(&self) -> (q: (ArrayQueue<(usize, usize)>, ArrayQueue<([u8; 3], usize, usize)>))
        requires
            self.well_formed(),
        ensures
            queued_pixels(q.0) == row_major(self.image_width, self.image_height),
            pixel_room(q.0) == self.image_width * self.image_height,
            queued_colors(q.1) == Seq::<([u8; 3], usize, usize)>::empty(),
    {
        let width = self.image_width;
        let height = self.image_height;
        proof {
            lemma_area(width, height);
        }
        let (mut pix_que, img_que) = queues_of(height * width);
        let ghost all = row_major(width, height);
        let mut j: usize = 0;
        while j < height
            invariant
                j <= height,
                0 < width,
                width * height <= usize::MAX / 2,
                all == row_major(width, height),
                pixel_room(pix_que) == width * height,
                queued_pixels(pix_que) == all.take(j * width),
            decreases height - j,
        {
            let mut i: usize = 0;
            while i < width
                invariant
                    j < height,
                    i <= width,
                    0 < width,
                    width * height <= usize::MAX / 2,
                    all == row_major(width, height),
                    pixel_room(pix_que) == width * height,
                    queued_pixels(pix_que) == all.take(j * width + i),
                decreases width - i,
            {
                proof {
                    lemma_row_major_at(width, height, i, j);
                    assert(all.take(j * width + i).push((i, j)) =~= all.take(j * width + i + 1));
                }
                let ok = push_pixel(&mut pix_que, (i, j));
                i += 1;
            }
            proof {
                assert(j * width + width == (j + 1) * width) by (nonlinear_arith);
            }
            j += 1;
        }
        proof {
            assert(height * width == width * height) by (nonlinear_arith);
            assert(all.take(j * width) =~= all);
        }
        (pix_que, img_que)
    }

    /// The image that the results of a render leave, as its samples row
    /// after row. One result is taken from the queue for each pixel of
    /// the image, or all of them where there are fewer; each colour goes
    /// to the pixel it names, a later one over an earlier one, and a
    /// pixel that none names stays black. A result that names no pixel of
    /// the image is dropped.
    pub fn develop(&self, img_que: &mut ArrayQueue<([u8; 3], usize, usize)>) -> (raw: Vec<u8>)
        requires
            self.well_formed(),
        ensures
            ({
                let waiting = queued_colors(*old(img_que));
                let taken = if waiting.len() <= self.image_width * self.image_height {
                    waiting.len() as int
                } else {
                    self.image_width * self.image_height
                };
                &&& queued_colors(*final(img_que)) == waiting.skip(taken)
                &&& shows(raw@, self.image_width, self.image_height, waiting.take(taken))
            }),
    {
        let width = self.image_width;
        let height = self.image_height;
        proof {
            lemma_area(width, height);
        }
        let mut img = blank(width as u32, height as u32);
        let ghost waiting = queued_colors(*img_que);
        let total: usize = height * width;
        let mut n: usize = 0;
        proof {
            assert(waiting.skip(0) =~= waiting);
            assert forall|x: int, y: int| img.covers(x, y) implies img.color_at(x, y) == painted(
                waiting.take(0),
                x,
                y,
            ) by {
                lemma_sample_index_bounds(width as nat, height as nat, x, y);
                assert(img.color_at(x, y)@ =~= painted(waiting.take(0), x, y)@);
            }
        }
        while n < total
            invariant
                n <= total == width * height,
                n <= waiting.len(),
                canvas_width(img) == width,
                canvas_height(img) == height,
                canvas_bytes(img).len() == 3 * (width * height),
                img.well_formed(),
                queued_colors(*img_que) == waiting.skip(n as int),
                forall|x: int, y: int|
                    img.covers(x, y) ==> img.color_at(x, y) == painted(
                        waiting.take(n as int),
                        x,
                        y,
                    ),
            ensures
                n <= total,
                n <= waiting.len(),
                n == total || n == waiting.len(),
                canvas_width(img) == width,
                canvas_height(img) == height,
                canvas_bytes(img).len() == 3 * (width * height),
                queued_colors(*img_que) == waiting.skip(n as int),
                forall|x: int, y: int|
                    img.covers(x, y) ==> img.color_at(x, y) == painted(
                        waiting.take(n as int),
                        x,
                        y,
                    ),
            decreases total - n,
        {
            match pop_color(img_que) {
                None => {
                    break ;
                },
                Some((color, i, j)) => {
                    proof {
                        let before = waiting.take(n as int);
                        let after = waiting.take(n + 1);
                        assert(waiting.skip(n as int)[0] == waiting[n as int]);
                        assert(waiting.skip(n as int).skip(1) =~= waiting.skip(n + 1));
                        assert(after.drop_last() =~= before);
                        assert(after.last() == (color, i, j));
                    }
                    write_color(color, &mut img, i, j);
                    n += 1;
                },
            }
        }
        let ghost taken = waiting.take(n as int);
        let raw = into_raw(img);
        proof {
            assert forall|x: int, y: int, c: int|
                0 <= x < width && 0 <= y < height && 0 <= c < 3 implies #[trigger] raw@[3 * (y
                * width + x) + c] == painted(taken, x, y)[c] by {
                assert(img.covers(x, y));
                assert(img.color_at(x, y) == painted(taken, x, y));
            }
        }
        raw
    }

    /// The cells of the square grid laid over a pixel, one sample to be
    /// taken within each: column after column, each from its first row.
    pub fn sample_grid(&self) -> (cells: Vec<(usize, usize)>)
        requires
            self.well_formed(),
        ensures
            cells@ == grid_cells(self.sample_sqrt_times),
    {
        let side = self.sample_sqrt_times;
        let ghost all = grid_cells(side);
        let mut cells: Vec<(usize, usize)> = Vec::new();
        let mut u: usize = 0;
        while u < side
            invariant
                u <= side,
                side * side <= usize::MAX,
                all == grid_cells(side),
                cells@ == all.take(u * side),
            decreases side - u,
        {
            let mut v: usize = 0;
            while v < side
                invariant
                    u < side,
                    v <= side,
                    side * side <= usize::MAX,
                    all == grid_cells(side),
                    cells@ == all.take(u * side + v),
                decreases side - v,
            {
                proof {
                    lemma_row_major_at(side, side, v, u);
                    assert(all[u * side + v] == (u, v));
                    assert(all.take(u * side + v).push((u, v)) =~= all.take(u * side + v + 1));
                }
                cells.push((u, v));
                v += 1;
            }
            proof {
                assert(u * side + side == (u + 1) * side) by (nonlinear_arith);
            }
            u += 1;
        }
        proof {
            assert(all.take(u * side) =~= all);
        }
        cells
    }

    /// The number of samples taken of each pixel.
    pub fn sample_count(&self) -> (n: usize)
        requires
            self.well_formed(),
        ensures
            n == self.sample_sqrt_times * self.sample_sqrt_times,
    {
        self.sample_sqrt_times * self.sample_sqrt_times
    }
}

/// An image that fits a buffer has a pixel count that fits a queue.
proof fn lemma_area(width: usize, height: usize)
    requires
        0 < width,
        0 < height,
        3 * (width * height) <= usize::MAX,
    ensures
        0 < height * width == width * height <= usize::MAX / 2,
        3 * width <= usize::MAX,
{
    assert(3 * width <= 3 * (width * height)) by (nonlinear_arith)
        requires
            0 < width,
            0 < height,
    ;
    assert(0 < width * height) by (nonlinear_arith)
        requires
            0 < width,
            0 < height,
    ;
    assert(height * width == width * height) by (nonlinear_arith);
}

/// The pixel in column `i` of row `j` is taken up after all of the rows
/// above and all of its row to the left.
pub proof fn lemma_row_major_at(width: usize, height: usize, i: usize, j: usize)
    requires
        i < width,
        j < height,
    ensures
        0 <= j * width + i < width * height,
        row_major(width, height)[j * width + i] == (i, j),
{
    let k = j * width + i;
    assert(0 <= k < width * height) by (nonlinear_arith)
        requires
            k == j * width + i,
            0 <= i < width,
            0 <= j < height,
    ;
    vstd::arithmetic::div_mod::lemma_fundamental_div_mod_converse(
        k,
        width as int,
        j as int,
        i as int,
    );
}

/// No pixel is taken up twice in a render.
pub proof fn lemma_row_major_once(width: usize, height: usize, a: int, b: int)
    requires
        0 <= a < b < width * height,
    ensures
        row_major(width, height)[a] != row_major(width, height)[b],
{
    let w = width as int;
    assert(w > 0) by (nonlinear_arith)
        requires
            0 <= a < w * height,
            0 <= height,
    ;
    vstd::arithmetic::div_mod::lemma_fundamental_div_mod(a, w);
    vstd::arithmetic::div_mod::lemma_fundamental_div_mod(b, w);
    lemma_row_major_cell(width, height, a);
    lemma_row_major_cell(width, height, b);
}

/// The pixel taken up at place `k` of a render is the one in column
/// `k % width` of row `k / width`, and lies on the image.
pub proof fn lemma_row_major_cell(width: usize, height: usize, k: int)
    requires
        0 <= k < width * height,
    ensures
        0 <= k % (width as int) < width,
        0 <= k / (width as int) < height,
        row_major(width, height)[k] == ((k % (width as int)) as usize, (k / (width as int)) as usize),
{
    let w = width as int;
    assert(w > 0) by (nonlinear_arith)
        requires
            0 <= k < w * height,
            0 <= height,
    ;
    vstd::arithmetic::div_mod::lemma_fundamental_div_mod(k, w);
    vstd::arithmetic::div_mod::lemma_mod_bound(k, w);
    vstd::arithmetic::div_mod::lemma_div_pos_is_pos(k, w);
    assert(k / w < height) by (nonlinear_arith)
        requires
            k == w * (k / w) + (k % w),
            0 <= k % w,
            k < w * height,
            w > 0,
    ;
}

/// No two of `results` name the same pixel.
pub open spec fn names_once(results: Seq<([u8; 3], usize, usize)>) -> bool {
    forall|a: int, b: int|
        0 <= a < b < results.len() ==> !(results[a].1 == results[b].1 && results[a].2
            == results[b].2)
}

/// Among results that name no pixel twice, each leaves its own colour at
/// its pixel.
pub proof fn lemma_painted_by_its_result(results: Seq<([u8; 3], usize, usize)>, k: int)
    requires
        names_once(results),
        0 <= k < results.len(),
    ensures
        painted(results, results[k].1 as int, results[k].2 as int) == results[k].0,
    decreases results.len(),
{
    if k < results.len() - 1 {
        let rest = results.drop_last();
        assert(rest[k] == results[k]);
        lemma_painted_by_its_result(rest, k);
    }
}

/// A pixel that no result names stays black.
pub proof fn lemma_unpainted_is_black(results: Seq<([u8; 3], usize, usize)>, x: int, y: int)
    requires
        forall|k: int| 0 <= k < results.len() ==> !(results[k].1 == x && results[k].2 == y),
    ensures
        painted(results, x, y) == [0u8, 0u8, 0u8],
    decreases results.len(),
{
    if results.len() > 0 {
        let rest = results.drop_last();
        assert forall|k: int| 0 <= k < rest.len() implies !(rest[k].1 == x && rest[k].2
            == y) by {
            assert(rest[k] == results[k]);
        }
        lemma_unpainted_is_black(rest, x, y);
    }
}

/// The image that the results of a render leave does not depend on the
/// order in which they come, where none of them names a pixel that
/// another names.
pub proof fn lemma_order_does_not_matter(
    a: Seq<([u8; 3], usize, usize)>,
    b: Seq<([u8; 3], usize, usize)>,
    x: int,
    y: int,
)
    requires
        a.to_multiset() == b.to_multiset(),
        names_once(a),
        names_once(b),
    ensures
        painted(a, x, y) == painted(b, x, y),
{
    broadcast use vstd::seq_lib::to_multiset_contains;

    if exists|k: int| 0 <= k < a.len() && a[k].1 == x && a[k].2 == y {
        let k = choose|k: int| 0 <= k < a.len() && a[k].1 == x && a[k].2 == y;
        assert(a.contains(a[k]));
        assert(b.to_multiset().count(a[k]) > 0);
        assert(b.contains(a[k]));
        let m = choose|m: int| 0 <= m < b.len() && b[m] == a[k];
        lemma_painted_by_its_result(a, k);
        lemma_painted_by_its_result(b, m);
    } else {
        assert forall|m: int| 0 <= m < b.len() implies !(b[m].1 == x && b[m].2 == y) by {
            assert(b.contains(b[m]));
            assert(a.to_multiset().count(b[m]) > 0);
            assert(a.contains(b[m]));
            let k = choose|k: int| 0 <= k < a.len() && a[k] == b[m];
        }
        lemma_unpainted_is_black(a, x, y);
        lemma_unpainted_is_black(b, x, y);
    }
}

/// One of `results` names the pixel in column `x` of row `y`.
pub open spec fn names(results: Seq<([u8; 3], usize, usize)>, x: int, y: int) -> bool {
    exists|k: int| 0 <= k < results.len() && results[k].1 == x && results[k].2 == y
}

/// Among results that all have the colour `c`, a pixel that one of them
/// names is left with `c`.
pub proof fn lemma_painted_in_one_colour(
    results: Seq<([u8; 3], usize, usize)>,
    c: [u8; 3],
    x: int,
    y: int,
)
    requires
        forall|k: int| 0 <= k < results.len() ==> (#[trigger] results[k]).0 == c,
        names(results, x, y),
    ensures
        painted(results, x, y) == c,
    decreases results.len(),
{
    let k = choose|k: int| 0 <= k < results.len() && results[k].1 == x && results[k].2 == y;
    if !(results.last().1 == x && results.last().2 == y) {
        let rest = results.drop_last();
        assert(rest[k] == results[k]);
        assert(names(rest, x, y));
        assert forall|j: int| 0 <= j < rest.len() implies (#[trigger] rest[j]).0 == c by {
            assert(rest[j] == results[j]);
        }
        lemma_painted_in_one_colour(rest, c, x, y);
    }
}

/// An image whose every pixel has a result, and every result the colour
/// `c`, shows `c` in every pixel: so does the image of a scene that no
/// ray meets show what the background comes to.
pub proof fn lemma_one_colour_everywhere(
    raw: Seq<u8>,
    width: usize,
    height: usize,
    results: Seq<([u8; 3], usize, usize)>,
    c: [u8; 3],
)
    requires
        shows(raw, width, height, results),
        forall|k: int| 0 <= k < results.len() ==> (#[trigger] results[k]).0 == c,
        forall|x: int, y: int| 0 <= x < width && 0 <= y < height ==> #[trigger] names(results, x, y),
    ensures
        forall|x: int, y: int, ch: int|
            0 <= x < width && 0 <= y < height && 0 <= ch < 3 ==> #[trigger] raw[3 * (y * width
                + x) + ch] == c[ch],
{
    assert forall|x: int, y: int, ch: int|
        0 <= x < width && 0 <= y < height && 0 <= ch < 3 implies #[trigger] raw[3 * (y * width
        + x) + ch] == c[ch] by {
        assert(names(results, x, y));
        lemma_painted_in_one_colour(results, c, x, y);
    }
}

/// Two renders with the same results show the same image, in whatever
/// order the results came in each, where no result names a pixel that
/// another names.
pub proof fn lemma_same_results_same_image(
    raw_a: Seq<u8>,
    raw_b: Seq<u8>,
    width: usize,
    height: usize,
    a: Seq<([u8; 3], usize, usize)>,
    b: Seq<([u8; 3], usize, usize)>,
)
    requires
        shows(raw_a, width, height, a),
        shows(raw_b, width, height, b),
        a.to_multiset() == b.to_multiset(),
        names_once(a),
        names_once(b),
    ensures
        raw_a == raw_b,
{
    assert forall|i: int| 0 <= i < raw_a.len() implies raw_a[i] == raw_b[i] by {
        let w = width as int;
        let p = i / 3;
        let ch = i % 3;
        assert(0 <= p < w * height && i == 3 * p + ch) by {
            vstd::arithmetic::div_mod::lemma_fundamental_div_mod(i, 3);
        }
        lemma_row_major_cell(width, height, p);
        let x = p % w;
        let y = p / w;
        assert(p == y * w + x) by {
            vstd::arithmetic::div_mod::lemma_fundamental_div_mod(p, w);
            assert(w * y == y * w) by (nonlinear_arith);
        }
        lemma_order_does_not_matter(a, b, x, y);
        assert(raw_a[3 * (y * width + x) + ch] == painted(a, x, y)[ch]);
        assert(raw_b[3 * (y * width + x) + ch] == painted(b, x, y)[ch]);
    }
    assert(raw_a =~= raw_b);
}

} // verus!
