//! Flat primitives: a parallelogram or a triangle in a plane.
//!
//! Where a ray crosses the plane, and where in the plane that is, are
//! quotients and products of reals: the caller hands them in. Which tests
//! a crossing has to pass to count as a hit, and in which order, is
//! settled here.

use vstd::prelude::*;
use crate::aabb::{can_pad, AABB};
use crate::hittable::HitRecord;
use crate::interval::Interval;
use crate::vec3::Vec3;

verus! {

/// The outline that bounds a flat primitive within its plane: the
/// parallelogram on two edges from a corner, or the triangle on them.
#[derive(Clone, Copy, Debug, PartialEq, Eq, Structural)]
pub enum Shape {
    Quad,
    Triangle,
}

impl Shape {
    /// Whether the point of the plane with the coordinates `alpha` and
    /// `beta` along the two edges lies within the outline, where `sum` is
    /// the key of their sum and `unit` the interval from nought to one:
    /// in a parallelogram both coordinates lie in `unit`, in a triangle
    /// neither is below nought and their sum is not above one.
    pub open spec fn inside(self, alpha: i64, beta: i64, sum: i64, unit: Interval) -> bool {
        match self {
            Shape::Quad => unit.has(alpha as int) && unit.has(beta as int),
            Shape::Triangle => sum <= unit.max && alpha >= unit.min && beta >= unit.min,
        }
    }

    /// Whether the point of the plane with the coordinates `alpha` and
    /// `beta` along the two edges lies within the outline, where `sum` is
    /// the key of their sum and `unit` the interval from nought to one.
    pub fn is_interior(&self, alpha: i64, beta: i64, sum: i64, unit: &Interval) -> (res: bool)
        ensures
            res == self.inside(alpha, beta, sum, *unit),
    {
        match self {
            Shape::Quad => unit.contains(alpha) && unit.contains(beta),
            Shape::Triangle => sum <= unit.max && alpha >= unit.min && beta >= unit.min,
        }
    }

    /// The two boxes whose join bounds the outline, each on two of its
    /// corners: across the two diagonals of a parallelogram, and along
    /// the two edges of a triangle.
    pub open spec fn spans(self, q: Vec3, qu: Vec3, qv: Vec3, quv: Vec3) -> (AABB, AABB) {
        match self {
            Shape::Quad => (AABB::round(q, quv), AABB::round(qu, qv)),
            Shape::Triangle => (AABB::round(q, qu), AABB::round(q, qv)),
        }
    }

    /// `bbox` can come of the outline as its box: the two boxes of
    /// `spans` are padded, and their join is padded again.
    pub open spec fn bounded_as<E: Fn(&Interval) -> i64, W: Fn(&Interval) -> Interval>(
        self,
        q: Vec3,
        qu: Vec3,
        qv: Vec3,
        quv: Vec3,
        extent: &E,
        least: i64,
        widen: &W,
        bbox: AABB,
    ) -> bool {
        exists|bbox1: AABB, bbox2: AABB|
            {
                &&& #[trigger] self.spans(q, qu, qv, quv).0.padded_as(extent, least, widen, bbox1)
                &&& #[trigger] self.spans(q, qu, qv, quv).1.padded_as(extent, least, widen, bbox2)
                &&& bbox1.join(bbox2).padded_as(extent, least, widen, bbox)
            }
    }

    /// The box round the outline with the corner `q`, the ends `qu` and
    /// `qv` of the two edges from it, and the corner `quv` opposite `q`
    /// in the parallelogram. The closures and `least` say how thin boxes
    /// are padded.
    pub fn get_bounding_box(
        &self,
        q: Vec3,
        qu: Vec3,
        qv: Vec3,
        quv: Vec3,
        extent: &impl Fn(&Interval) -> i64,
        least: i64,
        widen: &impl Fn(&Interval) -> Interval,
    ) -> (bbox: AABB)
        requires
            forall|side: Interval| can_pad(side, extent, widen),
        ensures
            self.bounded_as(q, qu, qv, quv, extent, least, widen, bbox),
            bbox.has(q) && bbox.has(qu) && bbox.has(qv),
            *self == Shape::Quad ==> bbox.has(quv),
    {
        let (bbox1, bbox2) = match self {
            Shape::Quad => (
                AABB::by_two_points(q, quv, extent, least, widen),
                AABB::by_two_points(qu, qv, extent, least, widen),
            ),
            Shape::Triangle => (
                AABB::by_two_points(q, qu, extent, least, widen),
                AABB::by_two_points(q, qv, extent, least, widen),
            ),
        };
        let bbox = bbox1.combine(&bbox2, extent, least, widen);
        proof {
            assert(self.spans(q, qu, qv, quv).0.padded_as(extent, least, widen, bbox1));
            assert(self.spans(q, qu, qv, quv).1.padded_as(extent, least, widen, bbox2));
            assert(bbox.has(q) && bbox.has(qu) && bbox.has(qv));
        }
        bbox
    }
}

/// `res` can come of a ray and a flat primitive, going by the answers
/// that the three closures can give: a miss where `crossing` says that
/// the ray runs along the plane, where the crossing lies outside `r_t`,
/// or where the coordinates that `coords` gives of it lie outside the
/// outline; else the hit at the crossing, with what `surface_at` records
/// there.
pub open spec fn lies_as<
    R,
    C: Fn() -> Option<i64>,
    K: Fn(i64) -> (i64, i64, i64),
    S: Fn(i64, i64, i64) -> R,
>(
    shape: Shape,
    r_t: Interval,
    unit: Interval,
    crossing: &C,
    coords: &K,
    surface_at: &S,
    res: Option<HitRecord<R>>,
) -> bool {
    exists|met: Option<i64>| #[trigger]
        call_ensures(crossing, (), met) && match met {
            None => res is None,
            Some(t) => if !r_t.has(t as int) {
                res is None
            } else {
                exists|at: (i64, i64, i64)| #[trigger]
                    call_ensures(coords, (t,), at) && if !shape.inside(at.0, at.1, at.2, unit) {
                        res is None
                    } else {
                        exists|surface: R| #[trigger]
                            call_ensures(surface_at, (t, at.0, at.1), surface) && res == Some(
                                HitRecord { t, surface },
                            )
                    }
            },
        }
}

/// Where a ray meets a flat primitive of the outline `shape`, within
/// `r_t`.
///
/// `crossing` gives the key of the ray parameter at which the ray crosses
/// the plane, or none where it runs along it; `coords` gives, for a ray
/// parameter, the keys of the two coordinates of the point there along
/// the edges and of their sum; `surface_at` records the surface at a ray
/// parameter and two coordinates. `unit` is the interval from nought to
/// one.
pub fn hit<R>(
    shape: &Shape,
    r_t: &Interval,
    unit: &Interval,
    crossing: &impl Fn() -> Option<i64>,
    coords: &impl Fn(i64) -> (i64, i64, i64),
    surface_at: &impl Fn(i64, i64, i64) -> R,
) -> (res: Option<HitRecord<R>>)
    requires
        call_requires(crossing, ()),
        forall|t: i64| call_requires(coords, (t,)),
        forall|t: i64, a: i64, b: i64| call_requires(surface_at, (t, a, b)),
    ensures
        lies_as(*shape, *r_t, *unit, crossing, coords, surface_at, res),
{
    let t = match crossing() {
        None => {
            return None;
        },
        Some(t) => t,
    };
    if !r_t.contains(t) {
        return None;
    }
    let at = coords(t);
    if !shape.is_interior(at.0, at.1, at.2, unit) {
        return None;
    }
    let surface = surface_at(t, at.0, at.1);
    Some(HitRecord::new(t, surface))
}

/// A ray that crosses the plane at `t` within the interval asked, at a
/// point within the outline, meets the primitive there.
pub proof fn lemma_hit_where_it_crosses_inside<
    R,
    C: Fn() -> Option<i64>,
    K: Fn(i64) -> (i64, i64, i64),
    S: Fn(i64, i64, i64) -> R,
>(
    shape: Shape,
    r_t: Interval,
    unit: Interval,
    crossing: &C,
    coords: &K,
    surface_at: &S,
    t: i64,
    res: Option<HitRecord<R>>,
)
    requires
        lies_as(shape, r_t, unit, crossing, coords, surface_at, res),
        forall|met: Option<i64>| #[trigger] call_ensures(crossing, (), met) ==> met == Some(t),
        r_t.has(t as int),
        forall|at: (i64, i64, i64)| #[trigger]
            call_ensures(coords, (t,), at) ==> shape.inside(at.0, at.1, at.2, unit),
    ensures
        res matches Some(h) && h.t == t,
{
}

/// A ray that runs along the plane, or crosses it outside the interval
/// asked, or outside the outline, does not meet the primitive.
pub proof fn lemma_miss_outside<
    R,
    C: Fn() -> Option<i64>,
    K: Fn(i64) -> (i64, i64, i64),
    S: Fn(i64, i64, i64) -> R,
>(
    shape: Shape,
    r_t: Interval,
    unit: Interval,
    crossing: &C,
    coords: &K,
    surface_at: &S,
    res: Option<HitRecord<R>>,
)
    requires
        lies_as(shape, r_t, unit, crossing, coords, surface_at, res),
        forall|met: Option<i64>| #[trigger]
            call_ensures(crossing, (), met) ==> match met {
                None => true,
                Some(t) => !r_t.has(t as int) || forall|at: (i64, i64, i64)| #[trigger]
                    call_ensures(coords, (t,), at) ==> !shape.inside(at.0, at.1, at.2, unit),
            },
    ensures
        res is None,
{
}

} // verus!
