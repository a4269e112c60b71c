//! Spheres.
//!
//! Where the line of a ray crosses a sphere is the solution of a
//! quadratic over the reals, and what the surface is like there is
//! arithmetic too: the caller hands in both. Which crossing counts as the
//! hit, and when there is none, is settled here.

use vstd::prelude::*;
use crate::hittable::HitRecord;
use crate::interval::Interval;

verus! {

/// The root at which a ray meets a sphere within `r_t`, of the two at
/// which its line crosses the surface: the nearer where `r_t` surrounds
/// it, else the farther where `r_t` surrounds that, else none.
pub open spec fn root_of(near: i64, far: i64, r_t: Interval) -> Option<i64> {
    if r_t.min < near < r_t.max {
        Some(near)
    } else if r_t.min < far < r_t.max {
        Some(far)
    } else {
        None
    }
}

/// The root at which a ray meets a sphere within `r_t`, of the two at
/// which its line crosses the surface.
pub fn first_root(near: i64, far: i64, r_t: &Interval) -> (root: Option<i64>)
    ensures
        root == root_of(near, far, *r_t),
{
    if r_t.surrounds(near) {
        Some(near)
    } else if r_t.surrounds(far) {
        Some(far)
    } else {
        None
    }
}

/// `res` can come of a ray and a sphere, going by the answers that the
/// two closures can give: a miss where `roots` says that the line of the
/// ray does not cross the sphere, or where neither crossing lies within
/// `r_t`; else the hit at the root that `root_of` picks, with what
/// `surface_at` records there.
pub open spec fn meets_as<R, Q: Fn() -> Option<(i64, i64)>, S: Fn(i64) -> R>(
    r_t: Interval,
    roots: &Q,
    surface_at: &S,
    res: Option<HitRecord<R>>,
) -> bool {
    exists|crossing: Option<(i64, i64)>| #[trigger]
        call_ensures(roots, (), crossing) && match crossing {
            None => res is None,
            Some((near, far)) => match root_of(near, far, r_t) {
                None => res is None,
                Some(t) => exists|surface: R| #[trigger]
                    call_ensures(surface_at, (t,), surface) && res == Some(
                        HitRecord { t, surface },
                    ),
            },
        }
}

/// Where a ray meets a sphere, within `r_t`.
///
/// `roots` gives the keys of the two ray parameters at which the line of
/// the ray crosses the sphere, the nearer first, or none where it passes
/// the sphere by; `surface_at` records the surface at a ray parameter.
pub fn hit<R>(
    r_t: &Interval,
    roots: &impl Fn() -> Option<(i64, i64)>,
    surface_at: &impl Fn(i64) -> R,
) -> (res: Option<HitRecord<R>>)
    requires
        call_requires(roots, ()),
        forall|t: i64| call_requires(surface_at, (t,)),
    ensures
        meets_as(*r_t, roots, surface_at, res),
{
    match roots() {
        None => None,
        Some((near, far)) => match first_root(near, far, r_t) {
            None => None,
            Some(t) => {
                let surface = surface_at(t);
                Some(HitRecord::new(t, surface))
            },
        },
    }
}

/// A ray whose line crosses a sphere first at `near`, with `near` within
/// the interval asked, meets the sphere there: so does a ray fired from
/// outside at the centre, a radius before the centre.
pub proof fn lemma_hit_at_the_nearer_root<R, Q: Fn() -> Option<(i64, i64)>, S: Fn(i64) -> R>(
    r_t: Interval,
    roots: &Q,
    surface_at: &S,
    near: i64,
    far: i64,
    res: Option<HitRecord<R>>,
)
    requires
        meets_as(r_t, roots, surface_at, res),
        forall|crossing: Option<(i64, i64)>| #[trigger]
            call_ensures(roots, (), crossing) ==> crossing == Some((near, far)),
        r_t.min < near < r_t.max,
    ensures
        res matches Some(h) && h.t == near && call_ensures(surface_at, (near,), h.surface),
{
}

/// A ray whose line does not cross a sphere does not meet it.
pub proof fn lemma_miss_where_the_line_passes_by<
    R,
    Q: Fn() -> Option<(i64, i64)>,
    S: Fn(i64) -> R,
>(r_t: Interval, roots: &Q, surface_at: &S, res: Option<HitRecord<R>>)
    requires
        meets_as(r_t, roots, surface_at, res),
        forall|crossing: Option<(i64, i64)>| #[trigger]
            call_ensures(roots, (), crossing) ==> crossing is None,
    ensures
        res is None,
{
}

} // verus!
