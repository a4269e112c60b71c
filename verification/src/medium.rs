//! Participating media: volumes that scatter a ray somewhere along its
//! way through them, not at a surface.
//!
//! Where the boundary of a medium lies and how far a ray gets inside it
//! before it is scattered are the caller's to compute. The order of the
//! questions and what each answer leads to are settled here.

use vstd::prelude::*;
use crate::hittable::HitRecord;
use crate::interval::{key_max, key_min, lower, upper, Interval};

verus! {

/// The stretch of a ray inside a medium that it enters at `entry` and
/// leaves at `exit`, as far as it lies within `r_t` and not before
/// `start`, the key of the ray's own beginning: none where that leaves
/// nothing, or a single point.
pub open spec fn span_of(entry: i64, exit: i64, r_t: Interval, start: i64) -> Option<Interval> {
    let from = upper(upper(entry as int, r_t.min as int), start as int);
    let to = lower(exit as int, r_t.max as int);
    if from < to {
        Some(Interval { min: from as i64, max: to as i64 })
    } else {
        None
    }
}

/// The stretch of a ray inside a medium that it enters at `entry` and
/// leaves at `exit`, as far as it lies within `r_t` and not before
/// `start`, the key of the ray's own beginning.
pub fn span_inside(entry: i64, exit: i64, r_t: &Interval, start: i64) -> (res: Option<Interval>)
    ensures
        res == span_of(entry, exit, *r_t, start),
{
    let from = key_max(key_max(entry, r_t.min), start);
    let to = key_min(exit, r_t.max);
    if from >= to {
        None
    } else {
        Some(Interval::new(from, to))
    }
}

/// The interval in which a ray is looked for after it has come into a
/// medium: from `from` on, without end.
pub open spec fn beyond(from: i64) -> Interval {
    Interval { min: from, max: i64::MAX }
}

/// `res` can come of a ray and a medium, going by the answers that the
/// three closures can give.
///
/// The boundary is asked over all parameters where the ray comes in, and
/// over those past the entry where it goes out again; `just_past` says
/// where past the entry begins. A ray that misses the boundary, or does
/// not leave it, meets nothing. Else the stretch inside is cut to `r_t`
/// and to the ray's own beginning `start`, and where something is left of
/// it, what `scatter_in` answers for that stretch is the result.
pub open spec fn passes_as<
    R,
    B: Fn(&Interval) -> Option<HitRecord<R>>,
    N: Fn(i64) -> i64,
    S: Fn(&Interval) -> Option<HitRecord<R>>,
>(
    r_t: Interval,
    start: i64,
    boundary_hit: &B,
    just_past: &N,
    scatter_in: &S,
    res: Option<HitRecord<R>>,
) -> bool {
    exists|first: Option<HitRecord<R>>| #[trigger]
        call_ensures(boundary_hit, (&Interval { min: i64::MIN, max: i64::MAX },), first)
            && match first {
            None => res is None,
            Some(h1) => exists|from: i64, second: Option<HitRecord<R>>|
                {
                    &&& #[trigger] call_ensures(just_past, (h1.t,), from)
                    &&& #[trigger] call_ensures(boundary_hit, (&beyond(from),), second)
                    &&& match second {
                        None => res is None,
                        Some(h2) => match span_of(h1.t, h2.t, r_t, start) {
                            None => res is None,
                            Some(span) => call_ensures(scatter_in, (&span,), res),
                        },
                    }
                },
        }
}

/// Where a ray is scattered in a medium, within `r_t`.
///
/// `boundary_hit` says where the ray meets the boundary of the medium
/// within an interval, `just_past` gives the key of a parameter a little
/// past a given one, and `scatter_in` says where in a stretch inside the
/// medium the ray is scattered, if it is before it leaves. `start` is the
/// key of the ray's own beginning.
pub fn hit<R>(
    r_t: &Interval,
    start: i64,
    boundary_hit: &impl Fn(&Interval) -> Option<HitRecord<R>>,
    just_past: &impl Fn(i64) -> i64,
    scatter_in: &impl Fn(&Interval) -> Option<HitRecord<R>>,
) -> (res: Option<HitRecord<R>>)
    requires
        forall|asked: Interval| call_requires(boundary_hit, (&asked,)),
        forall|t: i64| call_requires(just_past, (t,)),
        forall|span: Interval| span.min < span.max ==> call_requires(scatter_in, (&span,)),
    ensures
        passes_as(*r_t, start, boundary_hit, just_past, scatter_in, res),
{
    let all = Interval::universe();
    assert(all == Interval { min: i64::MIN, max: i64::MAX });
    let first = boundary_hit(&all);
    let ghost first_answer = first;
    let rec1 = match first {
        None => {
            return None;
        },
        Some(rec) => rec,
    };
    let from = just_past(rec1.t);
    let rest = Interval::new(from, i64::MAX);
    assert(rest == beyond(from));
    let second = boundary_hit(&rest);
    let ghost second_answer = second;
    let rec2 = match second {
        None => {
            assert(call_ensures(just_past, (rec1.t,), from));
            assert(call_ensures(boundary_hit, (&beyond(from),), second_answer));
            return None;
        },
        Some(rec) => rec,
    };
    let res = match span_inside(rec1.t, rec2.t, r_t, start) {
        None => None,
        Some(span) => {
            assert(span_of(rec1.t, rec2.t, *r_t, start) == Some(span));
            assert(span.min < span.max);
            scatter_in(&span)
        },
    };
    assert(call_ensures(just_past, (rec1.t,), from));
    assert(call_ensures(boundary_hit, (&beyond(from),), second_answer));
    res
}

} // verus!
