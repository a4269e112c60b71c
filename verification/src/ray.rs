//! Rays, and the path that a ray takes through a scene: from surface to
//! surface until it escapes, is absorbed, or may not be scattered again.

use vstd::prelude::*;
use crate::vec3::Vec3;

verus! {

/// A ray: where it starts, where it heads, how many more times it may be
/// scattered, and the moment of the exposure at which it travels.
#[derive(Clone, Copy, Debug, PartialEq, Eq, Structural)]
pub struct Ray {
    pub ori: Vec3,
    pub dir: Vec3,
    pub cnt: usize,
    pub time: i64,
}

/// What a scene does with a ray.
#[derive(Clone, Copy, Debug, PartialEq, Eq, Structural)]
pub enum Bounce {
    /// The ray meets nothing.
    Escaped,
    /// The ray meets a surface that sends nothing on.
    Absorbed,
    /// The ray meets a surface that sends a ray on from the first point
    /// in the second direction.
    Scattered(Vec3, Vec3),
}

/// How the path of a ray ends.
#[derive(Clone, Copy, Debug, PartialEq, Eq, Structural)]
pub enum PathEnd {
    /// The last ray of the path may not be scattered again. It adds no
    /// light.
    Spent,
    /// The last ray of the path left the scene. It adds the light of the
    /// background.
    Escaped,
    /// The last ray of the path met a surface that sends nothing on. It
    /// adds what that surface emits.
    Absorbed,
}

impl Ray {
    pub fn new(origin: Vec3, direction: Vec3, time: i64, cnt: usize) -> (res: Self)
        ensures
            res == (Ray { ori: origin, dir: direction, cnt, time }),
    {
        Self { ori: origin, dir: direction, cnt, time }
    }

    /// The ray that a surface sends on from this one: one scattering less
    /// to go, at the same moment.
    pub open spec fn scattered(self, origin: Vec3, direction: Vec3) -> Ray {
        Ray { ori: origin, dir: direction, cnt: (self.cnt - 1) as usize, time: self.time }
    }

    /// The ray that a surface sends on from this one: one scattering less
    /// to go, at the same moment.
    pub fn update(&self, origin: Vec3, direction: Vec3) -> (res: Self)
        requires
            self.cnt > 0,
        ensures
            res == self.scattered(origin, direction),
    {
        Self { ori: origin, dir: direction, cnt: self.cnt - 1, time: self.time }
    }

    /// The path that starts with this ray can end as `end`, going by the
    /// answers that `bounce` can give: a ray that may not be scattered is
    /// spent and the scene is not asked; else the scene is asked, and the
    /// path ends where the ray escapes or is absorbed and goes on with the
    /// ray sent on where it is scattered.
    pub open spec fn ends_as<F: Fn(&Ray) -> Bounce>(self, bounce: &F, end: PathEnd) -> bool
        decreases self.cnt,
    {
        if self.cnt == 0 {
            end == PathEnd::Spent
        } else {
            exists|out: Bounce| #[trigger]
                call_ensures(bounce, (&self,), out) && match out {
                    Bounce::Escaped => end == PathEnd::Escaped,
                    Bounce::Absorbed => end == PathEnd::Absorbed,
                    Bounce::Scattered(origin, direction) => self.scattered(
                        origin,
                        direction,
                    ).ends_as(bounce, end),
                }
        }
    }

    /// Follows the path that starts with this ray to its end, asking
    /// `bounce` what the scene does with each ray of it. What light the
    /// path gathers on the way is for `bounce` to keep.
    pub fn color(&self, bounce: &impl Fn(&Ray) -> Bounce) -> (end: PathEnd)
        requires
            forall|r: Ray|
                0 < r.cnt <= self.cnt && r.time == self.time ==> call_requires(bounce, (&r,)),
        ensures
            self.ends_as(bounce, end),
    {
        let mut ray = *self;
        loop
            invariant
                ray.cnt <= self.cnt,
                ray.time == self.time,
                forall|r: Ray|
                    0 < r.cnt <= self.cnt && r.time == self.time ==> call_requires(bounce, (&r,)),
                forall|end: PathEnd| ray.ends_as(bounce, end) ==> self.ends_as(bounce, end),
            decreases ray.cnt,
        {
            if ray.cnt == 0 {
                return PathEnd::Spent;
            }
            match bounce(&ray) {
                Bounce::Escaped => {
                    return PathEnd::Escaped;
                },
                Bounce::Absorbed => {
                    return PathEnd::Absorbed;
                },
                Bounce::Scattered(origin, direction) => {
                    let next = ray.update(origin, direction);
                    proof {
                        assert(call_ensures(bounce, (&ray,), Bounce::Scattered(origin, direction)));
                        assert forall|end: PathEnd| next.ends_as(bounce, end) implies ray.ends_as(
                            bounce,
                            end,
                        ) by {}
                    }
                    ray = next;
                },
            }
        }
    }
}

/// In a scene that no ray meets, the path of a ray that may be scattered
/// ends with its escape.
pub proof fn lemma_empty_scene_escapes<F: Fn(&Ray) -> Bounce>(ray: Ray, bounce: &F, end: PathEnd)
    requires
        ray.cnt > 0,
        ray.ends_as(bounce, end),
        forall|r: Ray, out: Bounce| #[trigger] call_ensures(bounce, (&r,), out) ==> out is Escaped,
    ensures
        end == PathEnd::Escaped,
{
}

/// Before a surface that sends nothing on, the path of a ray that may be
/// scattered ends there: it is never spent, however few scatterings it is
/// allowed.
pub proof fn lemma_light_ends_the_path<F: Fn(&Ray) -> Bounce>(ray: Ray, bounce: &F, end: PathEnd)
    requires
        ray.cnt > 0,
        ray.ends_as(bounce, end),
        forall|r: Ray, out: Bounce|
            #[trigger] call_ensures(bounce, (&r,), out) ==> !(out is Scattered),
    ensures
        end != PathEnd::Spent,
{
}

} // verus!
