//! Axis-aligned bounding boxes.
//!
//! No box that `new`, `by_two_points` or `combine` makes is thinner along
//! an axis than a least thickness. How thick a box is there is a
//! difference of coordinates, which keys do not give: the caller hands in
//! the measure (`extent`), the key of the least thickness (`least`) and
//! the widening of a side that is too thin (`widen`), and the library
//! decides which sides are widened. In the same way the caller measures
//! a box for `longest_axis` and finds where a ray crosses its faces, and
//! `hit` says what the crossings mean.

use vstd::prelude::*;
use crate::interval::{key_max, key_min, lower, upper, Interval};
use crate::vec3::Vec3;

verus! {

/// A box with its sides along the axes: one interval for each axis.
#[derive(Clone, Copy, Debug, PartialEq, Eq, Structural)]
pub struct AABB {
    pub x: Interval,
    pub y: Interval,
    pub z: Interval,
}

/// The axis that `longest_axis` picks for three lengths: the longest, and
/// of two that are as long the one that comes first in x, y, z.
pub open spec fn longest_of(x_len: int, y_len: int, z_len: int) -> int {
    if x_len >= y_len && x_len >= z_len {
        0
    } else if y_len >= z_len {
        1
    } else {
        2
    }
}

impl AABB {
    /// Whether the point lies in the box, its faces included.
    pub open spec fn has(self, p: Vec3) -> bool {
        self.x.has(p.x as int) && self.y.has(p.y as int) && self.z.has(p.z as int)
    }

    /// Whether every point of `other` is a point of `self`, axis by axis.
    pub open spec fn includes(self, other: AABB) -> bool {
        self.x.includes(other.x) && self.y.includes(other.y) && self.z.includes(other.z)
    }

    /// A box includes what a box within it includes.
    pub proof fn lemma_includes_what_a_part_includes(self, part: AABB, inner: AABB)
        requires
            self.includes(part),
            part.includes(inner),
        ensures
            self.includes(inner),
    {
    }

    /// The interval of the box along `axis`: 0 for x, 1 for y, else z.
    pub open spec fn side(self, axis: int) -> Interval {
        if axis == 0 {
            self.x
        } else if axis == 1 {
            self.y
        } else {
            self.z
        }
    }

    /// The least box that includes both.
    pub open spec fn join(self, other: AABB) -> AABB {
        AABB {
            x: Interval {
                min: lower(self.x.min as int, other.x.min as int) as i64,
                max: upper(self.x.max as int, other.x.max as int) as i64,
            },
            y: Interval {
                min: lower(self.y.min as int, other.y.min as int) as i64,
                max: upper(self.y.max as int, other.y.max as int) as i64,
            },
            z: Interval {
                min: lower(self.z.min as int, other.z.min as int) as i64,
                max: upper(self.z.max as int, other.z.max as int) as i64,
            },
        }
    }

    /// The box with `p0` and `p1` at opposite corners.
    pub open spec fn round(p0: Vec3, p1: Vec3) -> AABB {
        AABB {
            x: Interval {
                min: lower(p0.x as int, p1.x as int) as i64,
                max: upper(p0.x as int, p1.x as int) as i64,
            },
            y: Interval {
                min: lower(p0.y as int, p1.y as int) as i64,
                max: upper(p0.y as int, p1.y as int) as i64,
            },
            z: Interval {
                min: lower(p0.z as int, p1.z as int) as i64,
                max: upper(p0.z as int, p1.z as int) as i64,
            },
        }
    }

    /// The box without a point.
    pub open spec fn nothing() -> AABB {
        AABB {
            x: Interval { min: i64::MAX, max: i64::MIN },
            y: Interval { min: i64::MAX, max: i64::MIN },
            z: Interval { min: i64::MAX, max: i64::MIN },
        }
    }

    /// Both closures can be asked of each side of the box.
    pub open spec fn can_be_padded<E: Fn(&Interval) -> i64, W: Fn(&Interval) -> Interval>(
        self,
        extent: &E,
        widen: &W,
    ) -> bool {
        can_pad(self.x, extent, widen) && can_pad(self.y, extent, widen) && can_pad(
            self.z,
            extent,
            widen,
        )
    }

    /// `res` can come of this box by padding: each side of it comes of
    /// the side of this box as `pads_to` says.
    pub open spec fn padded_as<E: Fn(&Interval) -> i64, W: Fn(&Interval) -> Interval>(
        self,
        extent: &E,
        least: i64,
        widen: &W,
        res: AABB,
    ) -> bool {
        &&& pads_to(self.x, extent, least, widen, res.x)
        &&& pads_to(self.y, extent, least, widen, res.y)
        &&& pads_to(self.z, extent, least, widen, res.z)
    }

    /// The box with every side that is thinner than the least thickness
    /// widened, and the other sides as they are.
    pub fn pad_to_mininums(
        &self,
        extent: &impl Fn(&Interval) -> i64,
        least: i64,
        widen: &impl Fn(&Interval) -> Interval,
    ) -> (res: Self)
        requires
            self.can_be_padded(extent, widen),
        ensures
            self.padded_as(extent, least, widen, res),
            res.includes(*self),
    {
        Self {
            x: pad_side(&self.x, extent, least, widen),
            y: pad_side(&self.y, extent, least, widen),
            z: pad_side(&self.z, extent, least, widen),
        }
    }

    /// The box of three intervals, padded.
    pub fn new(
        x: Interval,
        y: Interval,
        z: Interval,
        extent: &impl Fn(&Interval) -> i64,
        least: i64,
        widen: &impl Fn(&Interval) -> Interval,
    ) -> (res: Self)
        requires
            (AABB { x, y, z }).can_be_padded(extent, widen),
        ensures
            (AABB { x, y, z }).padded_as(extent, least, widen, res),
            res.includes((AABB { x, y, z })),
    {
        let given = Self { x, y, z };
        given.pad_to_mininums(extent, least, widen)
    }

    /// The box with `p0` and `p1` at opposite corners, padded.
    pub fn by_two_points(
        p0: Vec3,
        p1: Vec3,
        extent: &impl Fn(&Interval) -> i64,
        least: i64,
        widen: &impl Fn(&Interval) -> Interval,
    ) -> (res: Self)
        requires
            AABB::round(p0, p1).can_be_padded(extent, widen),
        ensures
            AABB::round(p0, p1).padded_as(extent, least, widen, res),
            res.has(p0),
            res.has(p1),
    {
        let x = Interval::new(key_min(p0.x, p1.x), key_max(p0.x, p1.x));
        let y = Interval::new(key_min(p0.y, p1.y), key_max(p0.y, p1.y));
        let z = Interval::new(key_min(p0.z, p1.z), key_max(p0.z, p1.z));
        let tight = Self { x, y, z };
        assert(tight == AABB::round(p0, p1));
        assert(tight.has(p0) && tight.has(p1));
        tight.pad_to_mininums(extent, least, widen)
    }

    /// The least box that includes both, padded.
    pub fn combine(
        &self,
        other: &AABB,
        extent: &impl Fn(&Interval) -> i64,
        least: i64,
        widen: &impl Fn(&Interval) -> Interval,
    ) -> (res: Self)
        requires
            self.join(*other).can_be_padded(extent, widen),
        ensures
            self.join(*other).padded_as(extent, least, widen, res),
            res.includes(*self),
            res.includes(*other),
    {
        let both = self.joined(other);
        let res = both.pad_to_mininums(extent, least, widen);
        proof {
            res.lemma_includes_what_a_part_includes(both, *self);
            res.lemma_includes_what_a_part_includes(both, *other);
        }
        res
    }

    /// The least box that includes both, as it is.
    pub fn joined(&self, other: &AABB) -> (res: Self)
        ensures
            res == self.join(*other),
            res.includes(*self),
            res.includes(*other),
    {
        Self {
            x: self.x.combine(&other.x),
            y: self.y.combine(&other.y),
            z: self.z.combine(&other.z),
        }
    }

    /// The ray parameters within `r_t` at which a ray lies between the two
    /// faces of a box across one axis, where it crosses those faces at
    /// `t0` and `t1`, in whichever order.
    pub fn hit_interval(t0: i64, t1: i64, r_t: &Interval) -> (res: Interval)
        ensures
            res.min == upper(lower(t0 as int, t1 as int), r_t.min as int),
            res.max == lower(upper(t0 as int, t1 as int), r_t.max as int),
            forall|t: int|
                res.has(t) <==> r_t.has(t) && lower(t0 as int, t1 as int) <= t <= upper(
                    t0 as int,
                    t1 as int,
                ),
    {
        Interval::new(key_min(t0, t1), key_max(t0, t1)).intersect(r_t)
    }

    /// Whether a ray meets a box, where `t_x`, `t_y` and `t_z` hold the
    /// ray parameters at which it lies between the faces across each
    /// axis: whether some parameter lies in all three.
    pub fn hit(t_x: &Interval, t_y: &Interval, t_z: &Interval) -> (res: bool)
        ensures
            res == exists|t: int| t_x.has(t) && t_y.has(t) && t_z.has(t),
    {
        let all = t_x.intersect(t_y).intersect(t_z);
        proof {
            if all.min <= all.max {
                assert(all.has(all.min as int));
                assert(t_x.has(all.min as int) && t_y.has(all.min as int) && t_z.has(
                    all.min as int,
                ));
            }
        }
        !all.is_empty()
    }

    /// The eight corners of the box. The corner at `4 * i + 2 * j + k`
    /// has the upper end of x where `i` is 1 and the lower where it is 0,
    /// and so with `j` for y and `k` for z.
    pub fn corners(&self) -> (c: [Vec3; 8])
        ensures
            forall|i: int, j: int, k: int|
                0 <= i < 2 && 0 <= j < 2 && 0 <= k < 2 ==> #[trigger] c[4 * i + 2 * j + k] == (
                Vec3 {
                    x: if i == 1 {
                        self.x.max
                    } else {
                        self.x.min
                    },
                    y: if j == 1 {
                        self.y.max
                    } else {
                        self.y.min
                    },
                    z: if k == 1 {
                        self.z.max
                    } else {
                        self.z.min
                    },
                }),
    {
        [
            Vec3::new(self.x.min, self.y.min, self.z.min),
            Vec3::new(self.x.min, self.y.min, self.z.max),
            Vec3::new(self.x.min, self.y.max, self.z.min),
            Vec3::new(self.x.min, self.y.max, self.z.max),
            Vec3::new(self.x.max, self.y.min, self.z.min),
            Vec3::new(self.x.max, self.y.min, self.z.max),
            Vec3::new(self.x.max, self.y.max, self.z.min),
            Vec3::new(self.x.max, self.y.max, self.z.max),
        ]
    }

    /// The box that holds the point `p` and nothing else.
    pub fn at(p: Vec3) -> (res: Self)
        ensures
            res == AABB::round(p, p),
            res.has(p),
    {
        Self {
            x: Interval::new(p.x, p.x),
            y: Interval::new(p.y, p.y),
            z: Interval::new(p.z, p.z),
        }
    }

    /// The least box that holds all eight points, as it is.
    pub fn around(points: &[Vec3; 8]) -> (res: Self)
        ensures
            forall|n: int| 0 <= n < 8 ==> res.has(#[trigger] points[n]),
            exists|n: int| 0 <= n < 8 && res.x.min == points[n].x,
            exists|n: int| 0 <= n < 8 && res.x.max == points[n].x,
            exists|n: int| 0 <= n < 8 && res.y.min == points[n].y,
            exists|n: int| 0 <= n < 8 && res.y.max == points[n].y,
            exists|n: int| 0 <= n < 8 && res.z.min == points[n].z,
            exists|n: int| 0 <= n < 8 && res.z.max == points[n].z,
    {
        let mut res = AABB::at(points[0]);
        let mut n: usize = 1;
        while n < 8
            invariant
                1 <= n <= 8,
                forall|m: int| 0 <= m < n ==> res.has(#[trigger] points[m]),
                exists|m: int| 0 <= m < n && res.x.min == points[m].x,
                exists|m: int| 0 <= m < n && res.x.max == points[m].x,
                exists|m: int| 0 <= m < n && res.y.min == points[m].y,
                exists|m: int| 0 <= m < n && res.y.max == points[m].y,
                exists|m: int| 0 <= m < n && res.z.min == points[m].z,
                exists|m: int| 0 <= m < n && res.z.max == points[m].z,
            decreases 8 - n,
        {
            let p = points[n];
            let ghost before = res;
            res = res.joined(&AABB::at(p));
            proof {
                let xl = choose|m: int| 0 <= m < n && before.x.min == points[m].x;
                let xu = choose|m: int| 0 <= m < n && before.x.max == points[m].x;
                let yl = choose|m: int| 0 <= m < n && before.y.min == points[m].y;
                let yu = choose|m: int| 0 <= m < n && before.y.max == points[m].y;
                let zl = choose|m: int| 0 <= m < n && before.z.min == points[m].z;
                let zu = choose|m: int| 0 <= m < n && before.z.max == points[m].z;
                let here = n as int;
                assert(res.x.min == points[xl].x || res.x.min == points[here].x);
                assert(res.x.max == points[xu].x || res.x.max == points[here].x);
                assert(res.y.min == points[yl].y || res.y.min == points[here].y);
                assert(res.y.max == points[yu].y || res.y.max == points[here].y);
                assert(res.z.min == points[zl].z || res.z.min == points[here].z);
                assert(res.z.max == points[zu].z || res.z.max == points[here].z);
                assert forall|m: int| 0 <= m < n + 1 implies res.has(#[trigger] points[m]) by {
                    if m < n {
                        assert(before.has(points[m]));
                    }
                }
            }
            n += 1;
        }
        res
    }

    /// The interval of the box along `axis`: 0 for x, 1 for y, else z.
    pub fn axis(&self, axis: usize) -> (res: Interval)
        ensures
            res == self.side(axis as int),
    {
        if axis == 0 {
            self.x
        } else if axis == 1 {
            self.y
        } else {
            self.z
        }
    }

    /// The axis along which the box is longest, where `extent` measures
    /// the length of an interval: of two axes as long, the first in x, y, z.
    pub fn longest_axis(&self, extent: &impl Fn(&Interval) -> i64) -> (axis: usize)
        requires
            call_requires(extent, (&self.x,)),
            call_requires(extent, (&self.y,)),
            call_requires(extent, (&self.z,)),
        ensures
            self.may_split_along(extent, axis),
    {
        let x_len = extent(&self.x);
        let y_len = extent(&self.y);
        let z_len = extent(&self.z);
        longest_axis_of(x_len, y_len, z_len)
    }

    /// `axis` is the longest axis of the box by some lengths that `extent`
    /// gives for its three intervals.
    pub open spec fn may_split_along<F: Fn(&Interval) -> i64>(self, extent: &F, axis: usize) -> bool {
        exists|x_len: i64, y_len: i64, z_len: i64|
            {
                &&& call_ensures(extent, (&self.x,), x_len)
                &&& call_ensures(extent, (&self.y,), y_len)
                &&& call_ensures(extent, (&self.z,), z_len)
                &&& axis == longest_of(x_len as int, y_len as int, z_len as int)
            }
    }
}

/// Both closures of a padding can be asked of `side`.
pub open spec fn can_pad<E: Fn(&Interval) -> i64, W: Fn(&Interval) -> Interval>(
    side: Interval,
    extent: &E,
    widen: &W,
) -> bool {
    call_requires(extent, (&side,)) && call_requires(widen, (&side,))
}

/// `res` can come of padding `side`, going by the answers that the two
/// closures can give: `side` itself where `extent` gives it at least the
/// least thickness, and where it gives less, the least interval that
/// includes `side` and what `widen` answers for it.
pub open spec fn pads_to<E: Fn(&Interval) -> i64, W: Fn(&Interval) -> Interval>(
    side: Interval,
    extent: &E,
    least: i64,
    widen: &W,
    res: Interval,
) -> bool {
    exists|len: i64| #[trigger]
        call_ensures(extent, (&side,), len) && if len < least {
            exists|wide: Interval| #[trigger]
                call_ensures(widen, (&side,), wide) && res == side.join(wide)
        } else {
            res == side
        }
}

/// `side`, widened where it is thinner than the least thickness: its
/// thickness is what `extent` gives, `least` is the key of the least
/// thickness, and `widen` gives the widened side.
pub fn pad_side(
    side: &Interval,
    extent: &impl Fn(&Interval) -> i64,
    least: i64,
    widen: &impl Fn(&Interval) -> Interval,
) -> (res: Interval)
    requires
        can_pad(*side, extent, widen),
    ensures
        pads_to(*side, extent, least, widen, res),
        res.includes(*side),
{
    let len = extent(side);
    if len < least {
        let wide = widen(side);
        side.combine(&wide)
    } else {
        *side
    }
}

/// The axis of the longest of three lengths: of two as long, the first in
/// x, y, z.
pub fn longest_axis_of(x_len: i64, y_len: i64, z_len: i64) -> (axis: usize)
    ensures
        axis == longest_of(x_len as int, y_len as int, z_len as int),
        axis < 3,
{
    if x_len >= y_len && x_len >= z_len {
        0
    } else if y_len >= z_len {
        1
    } else {
        2
    }
}

impl Default for AABB {
    /// The box without a point, which `combine` leaves any other as it is.
    fn default() -> (res: Self)
        ensures
            res == AABB::nothing(),
    {
        Self { x: Interval::empty(), y: Interval::empty(), z: Interval::empty() }
    }
}

} // verus!
