//! What a ray can hit: primitives by handle and box, the records of
//! their hits, and the flat list that is scanned for the nearest.
//!
//! Whether a ray meets a primitive is arithmetic on coordinates, so the
//! caller hands the test in as a closure; the ray is theirs to hold. What
//! the closure can answer is all that is known of it here, and the
//! contracts say what follows from its answers.

use vstd::prelude::*;
use crate::aabb::AABB;
use crate::interval::Interval;

verus! {

/// A primitive as the hierarchy sees it: the handle by which the caller
/// finds it again, and the box that bounds it.
#[derive(Clone, Copy, Debug, PartialEq, Eq, Structural)]
pub struct Object {
    pub id: usize,
    pub bbox: AABB,
}

/// A ray meeting a surface: the key of the ray parameter at which it does,
/// and what the caller recorded of the surface there.
pub struct HitRecord<R> {
    pub t: i64,
    pub surface: R,
}

impl<R> HitRecord<R> {
    pub fn new(t: i64, surface: R) -> (res: Self)
        ensures
            res.t == t,
            res.surface == surface,
    {
        Self { t, surface }
    }
}

/// `leaf_hit` can be asked of the primitive `id` and the interval `r_t`.
pub open spec fn accepts<R, P: Fn(usize, &Interval) -> Option<HitRecord<R>>>(
    leaf_hit: &P,
    id: usize,
    r_t: Interval,
) -> bool {
    call_requires(leaf_hit, (id, &r_t))
}

/// `leaf_hit` can answer `out` for the primitive `id` and the interval `r_t`.
pub open spec fn answers<R, P: Fn(usize, &Interval) -> Option<HitRecord<R>>>(
    leaf_hit: &P,
    id: usize,
    r_t: Interval,
    out: Option<HitRecord<R>>,
) -> bool {
    call_ensures(leaf_hit, (id, &r_t), out)
}

/// `leaf_hit` can answer for some primitive of `objects` and the interval
/// `r_t` that the ray meets it as `h` says.
pub open spec fn reported<R, P: Fn(usize, &Interval) -> Option<HitRecord<R>>>(
    objects: Seq<Object>,
    leaf_hit: &P,
    r_t: Interval,
    h: HitRecord<R>,
) -> bool {
    exists|k: int| 0 <= k < objects.len() && answers(leaf_hit, #[trigger] objects[k].id, r_t, Some(h))
}

/// For each primitive of `objects` and the interval `r_t`, `leaf_hit` has
/// one answer as far as the ray parameter goes: a miss, or one key.
pub open spec fn single_valued<R, P: Fn(usize, &Interval) -> Option<HitRecord<R>>>(
    objects: Seq<Object>,
    leaf_hit: &P,
    r_t: Interval,
) -> bool {
    forall|k: int, a: Option<HitRecord<R>>, b: Option<HitRecord<R>>|
        0 <= k < objects.len() && #[trigger] answers(leaf_hit, objects[k].id, r_t, a)
            && #[trigger] answers(leaf_hit, objects[k].id, r_t, b) ==> match (a, b) {
            (Some(ha), Some(hb)) => ha.t == hb.t,
            (None, None) => true,
            _ => false,
        }
}

/// No hit that `leaf_hit` can report of `objects` within `r_t` comes
/// before `res`: there is none where `res` is a miss.
pub open spec fn nearest<R, P: Fn(usize, &Interval) -> Option<HitRecord<R>>>(
    objects: Seq<Object>,
    leaf_hit: &P,
    r_t: Interval,
    res: Option<HitRecord<R>>,
) -> bool {
    forall|k: int, h: HitRecord<R>|
        0 <= k < objects.len() && #[trigger] answers(leaf_hit, objects[k].id, r_t, Some(h))
            ==> res is Some && res->Some_0.t <= h.t
}

/// The nearer of two answers: a hit before a miss, and of two hits the
/// one with the smaller key, the second where they are level.
pub open spec fn nearer_of<R>(a: Option<HitRecord<R>>, b: Option<HitRecord<R>>) -> Option<
    HitRecord<R>,
> {
    match (a, b) {
        (None, _) => b,
        (Some(_), None) => a,
        (Some(ha), Some(hb)) => if ha.t < hb.t {
            a
        } else {
            b
        },
    }
}

/// The nearer of two answers: a hit before a miss, and of two hits the
/// one with the smaller key, the second where they are level.
pub fn nearer<R>(a: Option<HitRecord<R>>, b: Option<HitRecord<R>>) -> (res: Option<HitRecord<R>>)
    ensures
        res == nearer_of(a, b),
{
    match a {
        None => b,
        Some(left) => match b {
            None => Some(left),
            Some(right) => if left.t < right.t {
                Some(left)
            } else {
                Some(right)
            },
        },
    }
}

/// The least box that includes the boxes of all of `objects`.
pub open spec fn enclosing(objects: Seq<Object>) -> AABB
    decreases objects.len(),
{
    if objects.len() == 0 {
        AABB::nothing()
    } else {
        enclosing(objects.drop_last()).join(objects.last().bbox)
    }
}

/// The least box that includes the boxes of all of `objects`.
pub fn bounding(objects: &Vec<Object>) -> (bbox: AABB)
    ensures
        bbox == enclosing(objects@),
{
    let mut bbox = AABB::default();
    let mut i: usize = 0;
    while i < objects.len()
        invariant
            i <= objects.len(),
            bbox == enclosing(objects@.take(i as int)),
        decreases objects.len() - i,
    {
        proof {
            assert(objects@.take(i + 1).drop_last() =~= objects@.take(i as int));
        }
        bbox = bbox.joined(&objects[i].bbox);
        i += 1;
    }
    proof {
        assert(objects@.take(i as int) =~= objects@);
    }
    bbox
}

/// The interval that a scan goes on with after `best`: `r_t` with its
/// upper end drawn in to the hit found, if there is one.
pub open spec fn narrowed<R>(r_t: Interval, best: Option<HitRecord<R>>) -> Interval {
    match best {
        Some(h) => Interval { min: r_t.min, max: h.t },
        None => r_t,
    }
}

/// `res` can come of a scan of `objects` from first to last: each
/// primitive is asked over the interval as the hits before it have
/// narrowed it, and a hit it reports takes the place of the one before.
pub open spec fn scans_to<R, P: Fn(usize, &Interval) -> Option<HitRecord<R>>>(
    objects: Seq<Object>,
    leaf_hit: &P,
    r_t: Interval,
    res: Option<HitRecord<R>>,
) -> bool
    decreases objects.len(), 1int,
{
    if objects.len() == 0 {
        res is None
    } else {
        exists|before: Option<HitRecord<R>>, out: Option<HitRecord<R>>|
            #![trigger answers(leaf_hit, objects.last().id, narrowed(r_t, before), out)]
            scan_step(objects, leaf_hit, r_t, before, out, res)
    }
}

/// The last step of a scan of `objects` that comes to `res`: the scan of
/// all but the last primitive comes to `before`, the last answers `out`
/// over the interval as `before` has narrowed it, and `res` is `out`
/// where that is a hit and `before` where it is not.
pub open spec fn scan_step<R, P: Fn(usize, &Interval) -> Option<HitRecord<R>>>(
    objects: Seq<Object>,
    leaf_hit: &P,
    r_t: Interval,
    before: Option<HitRecord<R>>,
    out: Option<HitRecord<R>>,
    res: Option<HitRecord<R>>,
) -> bool
    decreases objects.len(), 0int,
{
    &&& objects.len() > 0
    &&& scans_to(objects.drop_last(), leaf_hit, r_t, before)
    &&& answers(leaf_hit, objects.last().id, narrowed(r_t, before), out)
    &&& res == if out is Some {
        out
    } else {
        before
    }
}

/// The last step of a scan that has one.
pub proof fn lemma_last_step<R, P: Fn(usize, &Interval) -> Option<HitRecord<R>>>(
    objects: Seq<Object>,
    leaf_hit: &P,
    r_t: Interval,
    res: Option<HitRecord<R>>,
) -> (step: (Option<HitRecord<R>>, Option<HitRecord<R>>))
    requires
        objects.len() > 0,
        scans_to(objects, leaf_hit, r_t, res),
    ensures
        scan_step(objects, leaf_hit, r_t, step.0, step.1, res),
{
    choose|before: Option<HitRecord<R>>, out: Option<HitRecord<R>>|
        #![trigger answers(leaf_hit, objects.last().id, narrowed(r_t, before), out)]
        scan_step(objects, leaf_hit, r_t, before, out, res)
}

/// A flat list of primitives, with the least box that includes the box
/// of each of them.
pub struct HittableList {
    objects: Vec<Object>,
    bbox: AABB,
}

impl View for HittableList {
    type V = Seq<Object>;

    closed spec fn view(&self) -> Seq<Object> {
        self.objects@
    }
}

impl HittableList {
    /// The box of the list.
    pub closed spec fn bounds(self) -> AABB {
        self.bbox
    }

    /// The box of the list is the least box that includes the boxes of
    /// all its primitives. A new list has it so, and `add` and `clear`
    /// keep it so.
    pub open spec fn well_formed(self) -> bool {
        self.bounds() == enclosing(self@)
    }

    pub fn new() -> (res: Self)
        ensures
            res@ == Seq::<Object>::empty(),
            res.bounds() == AABB::nothing(),
            res.well_formed(),
    {
        Self { objects: Vec::new(), bbox: AABB::default() }
    }

    /// Takes every primitive out, and leaves the list with the box
    /// without a point.
    pub fn clear(&mut self)
        ensures
            final(self)@ == Seq::<Object>::empty(),
            final(self).bounds() == AABB::nothing(),
            final(self).well_formed(),
    {
        self.objects.clear();
        self.bbox = AABB::default();
    }

    pub fn add(&mut self, obj: Object)
        ensures
            final(self)@ == old(self)@.push(obj),
            final(self).bounds() == old(self).bounds().join(obj.bbox),
            old(self).well_formed() ==> final(self).well_formed(),
    {
        self.bbox = self.bbox.joined(&obj.bbox);
        self.objects.push(obj);
        proof {
            assert(self@.drop_last() =~= old(self)@);
        }
    }

    /// The primitives of the list, in the order in which they were added.
    pub fn into_objects(self) -> (objects: Vec<Object>)
        ensures
            objects@ == self@,
    {
        self.objects
    }

    pub fn len(&self) -> (n: usize)
        ensures
            n == self@.len(),
    {
        self.objects.len()
    }

    /// The box of the list, which includes the box of each primitive in
    /// a list that is well formed.
    pub fn bounding_box(&self) -> (res: AABB)
        ensures
            res == self.bounds(),
            self.well_formed() ==> forall|k: int|
                0 <= k < self@.len() ==> res.includes(#[trigger] self@[k].bbox),
    {
        proof {
            if self.well_formed() {
                assert forall|k: int| 0 <= k < self@.len() implies self.bbox.includes(
                    #[trigger] self@[k].bbox,
                ) by {
                    assert(self@.contains(self@[k]));
                    lemma_enclosing_includes(self@, self@[k]);
                }
            }
        }
        self.bbox
    }

    /// The hit that a scan of the list ends with: the list is gone through
    /// from first to last, and each hit found draws the upper end of the
    /// interval in for the primitives after it. Where each primitive has
    /// one answer, keeps its hits within the interval and loses none by
    /// the narrowing, that hit is the nearest of all; and where each
    /// reports over the whole interval what it reports over a narrowed
    /// one, that hit is one that a primitive reports over the whole.
    pub fn hit<R>(
        &self,
        r_t: &Interval,
        leaf_hit: &impl Fn(usize, &Interval) -> Option<HitRecord<R>>,
    ) -> (res: Option<HitRecord<R>>)
        requires
            forall|k: int, max: i64|
                0 <= k < self@.len() ==> #[trigger] accepts(
                    leaf_hit,
                    self@[k].id,
                    Interval { min: r_t.min, max },
                ),
        ensures
            scans_to(self@, leaf_hit, *r_t, res),
            res is Some ==> exists|h: HitRecord<R>| reported(self@, leaf_hit, *r_t, h),
            single_valued(self@, leaf_hit, *r_t) && keeps_within(self@, leaf_hit, *r_t)
                && narrows_well(self@, leaf_hit, *r_t) ==> nearest(self@, leaf_hit, *r_t, res),
            keeps_within(self@, leaf_hit, *r_t) && reports_alike(self@, leaf_hit, *r_t) ==> (
            res matches Some(h) ==> reported(self@, leaf_hit, *r_t, h)),
    {
        let mut now_t = *r_t;
        let mut hit_record: Option<HitRecord<R>> = None;
        let mut i: usize = 0;
        while i < self.objects.len()
            invariant
                i <= self.objects@.len(),
                self@ == self.objects@,
                now_t == narrowed(*r_t, hit_record),
                scans_to(self.objects@.take(i as int), leaf_hit, *r_t, hit_record),
                forall|k: int, max: i64|
                    0 <= k < self.objects@.len() ==> #[trigger] accepts(
                        leaf_hit,
                        self.objects@[k].id,
                        Interval { min: r_t.min, max },
                    ),
            decreases self.objects.len() - i,
        {
            let ghost before = hit_record;
            proof {
                assert(now_t == Interval { min: r_t.min, max: now_t.max });
                assert(accepts(
                    leaf_hit,
                    self.objects@[i as int].id,
                    Interval { min: r_t.min, max: now_t.max },
                ));
            }
            let out = leaf_hit(self.objects[i].id, &now_t);
            let ghost answer = out;
            if let Some(rec) = out {
                now_t.max = rec.t;
                hit_record = Some(rec);
            }
            proof {
                let part = self.objects@.take(i + 1);
                assert(part.drop_last() =~= self.objects@.take(i as int));
                assert(part.last() == self.objects@[i as int]);
                assert(scans_to(part.drop_last(), leaf_hit, *r_t, before));
                assert(answers(leaf_hit, part.last().id, narrowed(*r_t, before), answer));
                assert(hit_record == if answer is Some {
                    answer
                } else {
                    before
                });
            }
            i += 1;
        }
        proof {
            assert(self.objects@.take(i as int) =~= self.objects@);
            if hit_record is Some {
                lemma_scan_hit_was_reported(self@, leaf_hit, *r_t, hit_record);
            }
            if single_valued(self@, leaf_hit, *r_t) && keeps_within(self@, leaf_hit, *r_t)
                && narrows_well(self@, leaf_hit, *r_t) {
                lemma_scan_finds_the_nearest(self@, leaf_hit, *r_t, hit_record);
            }
            if keeps_within(self@, leaf_hit, *r_t) && reports_alike(self@, leaf_hit, *r_t) {
                lemma_scan_hit_is_a_report(self@, leaf_hit, *r_t, hit_record);
            }
        }
        hit_record
    }
}

/// A hit that `leaf_hit` reports of a primitive of `objects` over `r_t`
/// with its upper end drawn in lies at or before that end.
pub open spec fn keeps_within<R, P: Fn(usize, &Interval) -> Option<HitRecord<R>>>(
    objects: Seq<Object>,
    leaf_hit: &P,
    r_t: Interval,
) -> bool {
    forall|k: int, max: i64, h: HitRecord<R>|
        0 <= k < objects.len() && max <= r_t.max && #[trigger] answers(
            leaf_hit,
            objects[k].id,
            Interval { min: r_t.min, max },
            Some(h),
        ) ==> h.t <= max
}

/// Drawing the upper end of `r_t` in loses no nearer hit: where
/// `leaf_hit` reports a hit of a primitive over `r_t`, over the narrower
/// interval it reports one no later, or none and the hit lies at or
/// behind the new end.
pub open spec fn narrows_well<R, P: Fn(usize, &Interval) -> Option<HitRecord<R>>>(
    objects: Seq<Object>,
    leaf_hit: &P,
    r_t: Interval,
) -> bool {
    forall|k: int, max: i64, h: HitRecord<R>, out: Option<HitRecord<R>>|
        0 <= k < objects.len() && max <= r_t.max && #[trigger] answers(
            leaf_hit,
            objects[k].id,
            r_t,
            Some(h),
        ) && #[trigger] answers(leaf_hit, objects[k].id, Interval { min: r_t.min, max }, out)
            ==> match out {
            None => max <= h.t,
            Some(n) => n.t <= h.t,
        }
}

/// What `leaf_hit` reports of a primitive of `objects` over `r_t` with
/// its upper end drawn in, it reports of it over `r_t` too.
pub open spec fn reports_alike<R, P: Fn(usize, &Interval) -> Option<HitRecord<R>>>(
    objects: Seq<Object>,
    leaf_hit: &P,
    r_t: Interval,
) -> bool {
    forall|k: int, max: i64, h: HitRecord<R>|
        0 <= k < objects.len() && max <= r_t.max && #[trigger] answers(
            leaf_hit,
            objects[k].id,
            Interval { min: r_t.min, max },
            Some(h),
        ) ==> answers(leaf_hit, objects[k].id, r_t, Some(h))
}

/// The hit that a scan of a list ends with is one that a primitive of the
/// list reports over the whole interval, where each primitive keeps its
/// hits within a narrowed interval and reports over the whole what it
/// reports over a narrowed one.
pub proof fn lemma_scan_hit_is_a_report<R, P: Fn(usize, &Interval) -> Option<HitRecord<R>>>(
    objects: Seq<Object>,
    leaf_hit: &P,
    r_t: Interval,
    res: Option<HitRecord<R>>,
)
    requires
        scans_to(objects, leaf_hit, r_t, res),
        keeps_within(objects, leaf_hit, r_t),
        reports_alike(objects, leaf_hit, r_t),
    ensures
        res matches Some(h) ==> reported(objects, leaf_hit, r_t, h) && h.t <= r_t.max,
    decreases objects.len(),
{
    if objects.len() > 0 {
        let (before, out) = lemma_last_step(objects, leaf_hit, r_t, res);
        let rest = objects.drop_last();
        let last = objects.len() - 1;
        assert forall|k: int| 0 <= k < rest.len() implies rest[k] == objects[k] by {}
        assert(keeps_within(rest, leaf_hit, r_t));
        assert(reports_alike(rest, leaf_hit, r_t));
        lemma_scan_hit_is_a_report(rest, leaf_hit, r_t, before);
        assert(objects =~= rest + seq![objects.last()]);
        lemma_reported_in_parts(rest, seq![objects.last()], leaf_hit, r_t);
        let asked = narrowed(r_t, before);
        assert(asked == Interval { min: r_t.min, max: asked.max });
        assert(asked.max <= r_t.max);
        assert(objects[last] == objects.last());
        if out is Some {
            let h = out->Some_0;
            assert(answers(
                leaf_hit,
                objects[last].id,
                Interval { min: r_t.min, max: asked.max },
                Some(h),
            ));
            assert(answers(leaf_hit, objects[last].id, r_t, Some(h)));
            assert(reported(objects, leaf_hit, r_t, h));
        }
    }
}

/// Where a scan of a list ends with a hit, some primitive of the list
/// reported a hit over the whole interval.
pub proof fn lemma_scan_hit_was_reported<R, P: Fn(usize, &Interval) -> Option<HitRecord<R>>>(
    objects: Seq<Object>,
    leaf_hit: &P,
    r_t: Interval,
    res: Option<HitRecord<R>>,
)
    requires
        scans_to(objects, leaf_hit, r_t, res),
        res is Some,
    ensures
        exists|h: HitRecord<R>| reported(objects, leaf_hit, r_t, h),
    decreases objects.len(),
{
    let (before, out) = lemma_last_step(objects, leaf_hit, r_t, res);
    lemma_reported_in_parts(objects.drop_last(), seq![objects.last()], leaf_hit, r_t);
    assert(objects =~= objects.drop_last() + seq![objects.last()]);
    if before is Some {
        lemma_scan_hit_was_reported(objects.drop_last(), leaf_hit, r_t, before);
        let h = choose|h: HitRecord<R>| reported(objects.drop_last(), leaf_hit, r_t, h);
        assert(reported(objects, leaf_hit, r_t, h));
    } else {
        let h = out->Some_0;
        assert(answers(leaf_hit, seq![objects.last()][0].id, r_t, Some(h)));
        assert(reported(seq![objects.last()], leaf_hit, r_t, h));
        assert(reported(objects, leaf_hit, r_t, h));
    }
}

/// A scan of a list ends with a hit exactly where some primitive of the
/// list reports one over the whole interval, and the hit it ends with is
/// no later than any of those, where each primitive has one answer over
/// the whole interval, keeps its hits within a narrowed one, and loses no
/// nearer hit by the narrowing.
pub proof fn lemma_scan_finds_the_nearest<R, P: Fn(usize, &Interval) -> Option<HitRecord<R>>>(
    objects: Seq<Object>,
    leaf_hit: &P,
    r_t: Interval,
    res: Option<HitRecord<R>>,
)
    requires
        scans_to(objects, leaf_hit, r_t, res),
        single_valued(objects, leaf_hit, r_t),
        keeps_within(objects, leaf_hit, r_t),
        narrows_well(objects, leaf_hit, r_t),
    ensures
        nearest(objects, leaf_hit, r_t, res),
        res is Some <==> exists|h: HitRecord<R>| reported(objects, leaf_hit, r_t, h),
        res matches Some(h) ==> h.t <= r_t.max,
    decreases objects.len(),
{
    if objects.len() > 0 {
        let (before, out) = lemma_last_step(objects, leaf_hit, r_t, res);
        let rest = objects.drop_last();
        let last = objects.len() - 1;
        assert(objects =~= rest + seq![objects.last()]);
        lemma_single_valued_in_parts(rest, seq![objects.last()], leaf_hit, r_t);
        assert forall|k: int| 0 <= k < rest.len() implies rest[k] == objects[k] by {}
        assert(keeps_within(rest, leaf_hit, r_t));
        assert(narrows_well(rest, leaf_hit, r_t));
        lemma_scan_finds_the_nearest(rest, leaf_hit, r_t, before);
        let asked = narrowed(r_t, before);
        assert(asked == Interval { min: r_t.min, max: asked.max });
        assert(asked.max <= r_t.max);
        assert(objects[last] == objects.last());
        assert forall|k: int, h: HitRecord<R>|
            0 <= k < objects.len() && #[trigger] answers(
                leaf_hit,
                objects[k].id,
                r_t,
                Some(h),
            ) implies res is Some && res->Some_0.t <= h.t by {
            if k < last {
                assert(answers(leaf_hit, rest[k].id, r_t, Some(h)));
            } else {
                assert(answers(
                    leaf_hit,
                    objects[last].id,
                    Interval { min: r_t.min, max: asked.max },
                    out,
                ));
                if before is None {
                    assert(answers(leaf_hit, objects[last].id, r_t, out));
                }
            }
        }
        if res is Some {
            lemma_scan_hit_was_reported(objects, leaf_hit, r_t, res);
        }
    }
    if exists|h: HitRecord<R>| reported(objects, leaf_hit, r_t, h) {
        let h = choose|h: HitRecord<R>| reported(objects, leaf_hit, r_t, h);
        let k = choose|k: int|
            0 <= k < objects.len() && answers(leaf_hit, #[trigger] objects[k].id, r_t, Some(h));
        assert(res is Some);
    }
}

/// Where nothing is reported of a list, a miss is its nearest answer.
pub proof fn lemma_nearest_of_none<R, P: Fn(usize, &Interval) -> Option<HitRecord<R>>>(
    objects: Seq<Object>,
    leaf_hit: &P,
    r_t: Interval,
)
    requires
        forall|h: HitRecord<R>| !reported(objects, leaf_hit, r_t, h),
    ensures
        nearest(objects, leaf_hit, r_t, None),
{
    assert forall|k: int, h: HitRecord<R>|
        0 <= k < objects.len() && #[trigger] answers(
            leaf_hit,
            objects[k].id,
            r_t,
            Some(h),
        ) implies false by {
        assert(reported(objects, leaf_hit, r_t, h));
    }
}

/// The nearer of the nearest answers of two lists is the nearest of both
/// together.
pub proof fn lemma_nearest_of_parts<R, P: Fn(usize, &Interval) -> Option<HitRecord<R>>>(
    a: Seq<Object>,
    b: Seq<Object>,
    leaf_hit: &P,
    r_t: Interval,
    res_a: Option<HitRecord<R>>,
    res_b: Option<HitRecord<R>>,
)
    requires
        nearest(a, leaf_hit, r_t, res_a),
        nearest(b, leaf_hit, r_t, res_b),
    ensures
        nearest(a + b, leaf_hit, r_t, nearer_of(res_a, res_b)),
{
    let res = nearer_of(res_a, res_b);
    assert forall|k: int, h: HitRecord<R>|
        0 <= k < (a + b).len() && #[trigger] answers(
            leaf_hit,
            (a + b)[k].id,
            r_t,
            Some(h),
        ) implies res is Some && res->Some_0.t <= h.t by {
        if k < a.len() {
            assert((a + b)[k] == a[k]);
            assert(answers(leaf_hit, a[k].id, r_t, Some(h)));
        } else {
            assert((a + b)[k] == b[k - a.len()]);
            assert(answers(leaf_hit, b[k - a.len()].id, r_t, Some(h)));
        }
    }
}

/// What is reported of either part of a list is reported of the list, and
/// nothing else is.
pub proof fn lemma_reported_in_parts<R, P: Fn(usize, &Interval) -> Option<HitRecord<R>>>(
    a: Seq<Object>,
    b: Seq<Object>,
    leaf_hit: &P,
    r_t: Interval,
)
    ensures
        forall|h: HitRecord<R>|
            reported(a + b, leaf_hit, r_t, h) <==> reported(a, leaf_hit, r_t, h) || reported(
                b,
                leaf_hit,
                r_t,
                h,
            ),
{
    assert forall|h: HitRecord<R>|
        reported(a + b, leaf_hit, r_t, h) <==> reported(a, leaf_hit, r_t, h) || reported(
            b,
            leaf_hit,
            r_t,
            h,
        ) by {
        if reported(a + b, leaf_hit, r_t, h) {
            let k = choose|k: int|
                0 <= k < (a + b).len() && answers(leaf_hit, #[trigger] (a + b)[k].id, r_t, Some(h));
            if k < a.len() {
                assert((a + b)[k] == a[k]);
            } else {
                assert((a + b)[k] == b[k - a.len()]);
            }
        }
        if reported(a, leaf_hit, r_t, h) {
            let k = choose|k: int|
                0 <= k < a.len() && answers(leaf_hit, #[trigger] a[k].id, r_t, Some(h));
            assert((a + b)[k] == a[k]);
        }
        if reported(b, leaf_hit, r_t, h) {
            let k = choose|k: int|
                0 <= k < b.len() && answers(leaf_hit, #[trigger] b[k].id, r_t, Some(h));
            assert((a + b)[k + a.len()] == b[k]);
        }
    }
}

/// Answers that are single of a list are single of each part of it.
pub proof fn lemma_single_valued_in_parts<R, P: Fn(usize, &Interval) -> Option<HitRecord<R>>>(
    a: Seq<Object>,
    b: Seq<Object>,
    leaf_hit: &P,
    r_t: Interval,
)
    requires
        single_valued(a + b, leaf_hit, r_t),
    ensures
        single_valued(a, leaf_hit, r_t),
        single_valued(b, leaf_hit, r_t),
{
    assert forall|k: int, x: Option<HitRecord<R>>, y: Option<HitRecord<R>>|
        0 <= k < a.len() && #[trigger] answers(leaf_hit, a[k].id, r_t, x) && #[trigger] answers(
            leaf_hit,
            a[k].id,
            r_t,
            y,
        ) implies match (x, y) {
        (Some(ha), Some(hb)) => ha.t == hb.t,
        (None, None) => true,
        _ => false,
    } by {
        assert((a + b)[k] == a[k]);
    }
    assert forall|k: int, x: Option<HitRecord<R>>, y: Option<HitRecord<R>>|
        0 <= k < b.len() && #[trigger] answers(leaf_hit, b[k].id, r_t, x) && #[trigger] answers(
            leaf_hit,
            b[k].id,
            r_t,
            y,
        ) implies match (x, y) {
        (Some(ha), Some(hb)) => ha.t == hb.t,
        (None, None) => true,
        _ => false,
    } by {
        assert((a + b)[k + a.len()] == b[k]);
    }
}

/// Two lists with the same primitives have the same reports, and the
/// same nearest answers.
pub proof fn lemma_same_objects_same_reports<R, P: Fn(usize, &Interval) -> Option<HitRecord<R>>>(
    a: Seq<Object>,
    b: Seq<Object>,
    leaf_hit: &P,
    r_t: Interval,
)
    requires
        forall|o: Object| a.contains(o) <==> b.contains(o),
    ensures
        forall|h: HitRecord<R>| reported(a, leaf_hit, r_t, h) <==> reported(b, leaf_hit, r_t, h),
        forall|res: Option<HitRecord<R>>|
            nearest(a, leaf_hit, r_t, res) <==> nearest(b, leaf_hit, r_t, res),
        single_valued(a, leaf_hit, r_t) <==> single_valued(b, leaf_hit, r_t),
{
    lemma_reports_carry_over(a, b, leaf_hit, r_t);
    lemma_reports_carry_over(b, a, leaf_hit, r_t);
}

/// What holds of the reports of a list holds of those of a list with no
/// other primitives.
proof fn lemma_reports_carry_over<R, P: Fn(usize, &Interval) -> Option<HitRecord<R>>>(
    a: Seq<Object>,
    b: Seq<Object>,
    leaf_hit: &P,
    r_t: Interval,
)
    requires
        forall|o: Object| a.contains(o) ==> b.contains(o),
    ensures
        forall|h: HitRecord<R>| reported(a, leaf_hit, r_t, h) ==> reported(b, leaf_hit, r_t, h),
        forall|res: Option<HitRecord<R>>|
            nearest(b, leaf_hit, r_t, res) ==> nearest(a, leaf_hit, r_t, res),
        single_valued(b, leaf_hit, r_t) ==> single_valued(a, leaf_hit, r_t),
{
    assert forall|h: HitRecord<R>| reported(a, leaf_hit, r_t, h) implies reported(
        b,
        leaf_hit,
        r_t,
        h,
    ) by {
        let k = choose|k: int|
            0 <= k < a.len() && answers(leaf_hit, #[trigger] a[k].id, r_t, Some(h));
        assert(a.contains(a[k]));
        let j = choose|j: int| 0 <= j < b.len() && b[j] == a[k];
        assert(answers(leaf_hit, b[j].id, r_t, Some(h)));
    }
    assert forall|res: Option<HitRecord<R>>| nearest(b, leaf_hit, r_t, res) implies nearest(
        a,
        leaf_hit,
        r_t,
        res,
    ) by {
        assert forall|k: int, h: HitRecord<R>|
            0 <= k < a.len() && #[trigger] answers(
                leaf_hit,
                a[k].id,
                r_t,
                Some(h),
            ) implies res is Some && res->Some_0.t <= h.t by {
            assert(a.contains(a[k]));
            let j = choose|j: int| 0 <= j < b.len() && b[j] == a[k];
            assert(answers(leaf_hit, b[j].id, r_t, Some(h)));
        }
    }
    if single_valued(b, leaf_hit, r_t) {
        assert forall|k: int, x: Option<HitRecord<R>>, y: Option<HitRecord<R>>|
            0 <= k < a.len() && #[trigger] answers(leaf_hit, a[k].id, r_t, x)
                && #[trigger] answers(leaf_hit, a[k].id, r_t, y) implies match (x, y) {
            (Some(ha), Some(hb)) => ha.t == hb.t,
            (None, None) => true,
            _ => false,
        } by {
            assert(a.contains(a[k]));
            let j = choose|j: int| 0 <= j < b.len() && b[j] == a[k];
            assert(answers(leaf_hit, b[j].id, r_t, x));
            assert(answers(leaf_hit, b[j].id, r_t, y));
        }
    }
}

/// A list joined of two holds what either holds.
pub proof fn lemma_contains_in_parts<T>(a: Seq<T>, b: Seq<T>, x: T)
    ensures
        (a + b).contains(x) <==> a.contains(x) || b.contains(x),
{
    if (a + b).contains(x) {
        let k = choose|k: int| 0 <= k < (a + b).len() && (a + b)[k] == x;
        if k < a.len() {
            assert(a[k] == x);
        } else {
            assert(b[k - a.len()] == x);
        }
    }
    if a.contains(x) {
        let k = choose|k: int| 0 <= k < a.len() && a[k] == x;
        assert((a + b)[k] == x);
    }
    if b.contains(x) {
        let k = choose|k: int| 0 <= k < b.len() && b[k] == x;
        assert((a + b)[k + a.len()] == x);
    }
}

/// The box round a list includes the box of each of its primitives.
pub proof fn lemma_enclosing_includes(objects: Seq<Object>, o: Object)
    requires
        objects.contains(o),
    ensures
        enclosing(objects).includes(o.bbox),
    decreases objects.len(),
{
    let k = choose|k: int| 0 <= k < objects.len() && objects[k] == o;
    let rest = objects.drop_last();
    assert(enclosing(objects) == enclosing(rest).join(objects.last().bbox));
    if k < objects.len() - 1 {
        assert(rest[k] == o);
        lemma_enclosing_includes(rest, o);
    }
}

} // verus!
