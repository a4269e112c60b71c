//! The bounding-volume hierarchy: a binary tree of boxes over a list of
//! primitives, built by sorting along the longest axis and halving, and
//! searched by leaving out every node whose box the ray misses.

use std::cmp::Ordering;
use vstd::prelude::*;
use crate::aabb::AABB;
use crate::hittable::{
    accepts, answers, bounding, enclosing, lemma_contains_in_parts, lemma_enclosing_includes,
    lemma_nearest_of_none, lemma_nearest_of_parts, lemma_reported_in_parts,
    lemma_same_objects_same_reports, lemma_single_valued_in_parts, nearer, nearer_of, nearest,
    reported, single_valued, HitRecord, HittableList, Object,
};
use crate::interval::Interval;

verus! {

/// The key by which a primitive is ordered along `axis`: the lower end of
/// its box there.
pub open spec fn min_on(o: Object, axis: usize) -> i64 {
    o.bbox.side(axis as int).min
}

/// No primitive of `s` stands before one with a smaller key along `axis`.
pub open spec fn ordered_on(s: Seq<Object>, axis: usize) -> bool {
    forall|i: int, j: int| 0 <= i < j < s.len() ==> min_on(s[i], axis) <= min_on(s[j], axis)
}

/// The primitives of `s` whose key along `axis` is `key`, in their order.
pub open spec fn level_with(s: Seq<Object>, axis: usize, key: i64) -> Seq<Object> {
    s.filter(|o: Object| min_on(o, axis) == key)
}

/// `after` is `before` sorted along `axis`, those with one key in the
/// order they had.
pub open spec fn sorted_on(before: Seq<Object>, after: Seq<Object>, axis: usize) -> bool {
    &&& after.to_multiset() == before.to_multiset()
    &&& ordered_on(after, axis)
    &&& forall|key: i64| #[trigger] level_with(after, axis, key) == level_with(before, axis, key)
}

/// How two primitives stand along `axis`, by the lower ends of their boxes.
pub fn box_compare(a: &Object, b: &Object, axis: usize) -> (o: Ordering)
    ensures
        (o == Ordering::Less) == (min_on(*a, axis) < min_on(*b, axis)),
        (o == Ordering::Equal) == (min_on(*a, axis) == min_on(*b, axis)),
        (o == Ordering::Greater) == (min_on(*a, axis) > min_on(*b, axis)),
{
    let ka = a.bbox.axis(axis).min;
    let kb = b.bbox.axis(axis).min;
    if ka < kb {
        Ordering::Less
    } else if ka == kb {
        Ordering::Equal
    } else {
        Ordering::Greater
    }
}

/// `slice::sort_by` with `box_compare` along `axis`: the primitives come
/// out ordered by their keys, and those with one key keep the order they
/// had, as the sort is stable.
#[verifier::external_body]
fn sort_along(objects: &mut Vec<Object>, axis: usize)
    ensures
        sorted_on(old(objects)@, final(objects)@, axis),
{
    objects.sort_by(|a, b| box_compare(a, b, axis))
}

/// One side of a node: a primitive, a node again, or nothing, as under
/// the node over no primitives.
pub enum Child {
    Leaf(Object),
    Node(Box<BVHNode>),
    Nothing,
}

/// A node of the hierarchy: two sides and the box round both.
pub struct BVHNode {
    pub left: Child,
    pub right: Child,
    pub bbox: AABB,
}

impl Child {
    /// The primitives below, from left to right.
    pub open spec fn leaves(self) -> Seq<Object>
        decreases self,
    {
        match self {
            Child::Leaf(o) => seq![o],
            Child::Node(n) => n.leaves(),
            Child::Nothing => Seq::<Object>::empty(),
        }
    }

    /// Both tests accept every question that a search below asks them.
    pub open spec fn can_ask<
        R,
        B: Fn(&AABB, &Interval) -> bool,
        P: Fn(usize, &Interval) -> Option<HitRecord<R>>,
    >(self, r_t: Interval, box_hit: &B, leaf_hit: &P) -> bool
        decreases self,
    {
        match self {
            Child::Leaf(o) => accepts(leaf_hit, o.id, r_t),
            Child::Node(n) => n.can_ask(r_t, box_hit, leaf_hit),
            Child::Nothing => true,
        }
    }

    /// Where `box_hit` can say that the ray misses the box of a node
    /// below, `leaf_hit` reports no hit of a primitive under that node.
    pub open spec fn boxes_enclose<
        R,
        B: Fn(&AABB, &Interval) -> bool,
        P: Fn(usize, &Interval) -> Option<HitRecord<R>>,
    >(self, r_t: Interval, box_hit: &B, leaf_hit: &P) -> bool
        decreases self,
    {
        match self {
            Child::Leaf(o) => true,
            Child::Node(n) => n.boxes_enclose(r_t, box_hit, leaf_hit),
            Child::Nothing => true,
        }
    }

    /// `res` can come of a search below, going by the answers that the
    /// two tests can give: of a primitive, what `leaf_hit` answers for it
    /// over `r_t`; of a node, what a search from that node comes to; of
    /// nothing, a miss.
    pub open spec fn searches_to<
        R,
        B: Fn(&AABB, &Interval) -> bool,
        P: Fn(usize, &Interval) -> Option<HitRecord<R>>,
    >(self, r_t: Interval, box_hit: &B, leaf_hit: &P, res: Option<HitRecord<R>>) -> bool
        decreases self,
    {
        match self {
            Child::Leaf(o) => answers(leaf_hit, o.id, r_t, res),
            Child::Node(n) => n.searches_to(r_t, box_hit, leaf_hit, res),
            Child::Nothing => res is None,
        }
    }

    /// The nearest hit below, as `BVHNode::hit` finds it.
    pub fn hit<R>(
        &self,
        r_t: &Interval,
        box_hit: &impl Fn(&AABB, &Interval) -> bool,
        leaf_hit: &impl Fn(usize, &Interval) -> Option<HitRecord<R>>,
    ) -> (res: Option<HitRecord<R>>)
        requires
            self.can_ask(*r_t, box_hit, leaf_hit),
        ensures
            self.searches_to(*r_t, box_hit, leaf_hit, res),
            res matches Some(h) ==> reported(self.leaves(), leaf_hit, *r_t, h),
            single_valued(self.leaves(), leaf_hit, *r_t) && self.boxes_enclose(
                *r_t,
                box_hit,
                leaf_hit,
            ) ==> nearest(self.leaves(), leaf_hit, *r_t, res),
        decreases self,
    {
        match self {
            Child::Leaf(o) => {
                let res = leaf_hit(o.id, r_t);
                proof {
                    lemma_search_below_finds_the_nearest(*self, *r_t, box_hit, leaf_hit, res);
                }
                res
            },
            Child::Node(n) => n.hit(r_t, box_hit, leaf_hit),
            Child::Nothing => {
                proof {
                    lemma_search_below_finds_the_nearest(*self, *r_t, box_hit, leaf_hit, None);
                }
                None
            },
        }
    }
}

impl BVHNode {
    /// The primitives below, from left to right.
    pub open spec fn leaves(self) -> Seq<Object>
        decreases self,
    {
        self.left.leaves() + self.right.leaves()
    }

    /// Both tests accept every question that a search from this node asks
    /// them.
    pub open spec fn can_ask<
        R,
        B: Fn(&AABB, &Interval) -> bool,
        P: Fn(usize, &Interval) -> Option<HitRecord<R>>,
    >(self, r_t: Interval, box_hit: &B, leaf_hit: &P) -> bool
        decreases self,
    {
        &&& call_requires(box_hit, (&self.bbox, &r_t))
        &&& self.left.can_ask(r_t, box_hit, leaf_hit)
        &&& self.right.can_ask(r_t, box_hit, leaf_hit)
    }

    /// Where `box_hit` can say that the ray misses the box of this node or
    /// of one below, `leaf_hit` reports no hit of a primitive under that
    /// node.
    pub open spec fn boxes_enclose<
        R,
        B: Fn(&AABB, &Interval) -> bool,
        P: Fn(usize, &Interval) -> Option<HitRecord<R>>,
    >(self, r_t: Interval, box_hit: &B, leaf_hit: &P) -> bool
        decreases self,
    {
        &&& call_ensures(box_hit, (&self.bbox, &r_t), false) ==> forall|h: HitRecord<R>|
            !reported(self.leaves(), leaf_hit, r_t, h)
        &&& self.left.boxes_enclose(r_t, box_hit, leaf_hit)
        &&& self.right.boxes_enclose(r_t, box_hit, leaf_hit)
    }

    /// `res` can come of a search from this node, going by the answers
    /// that the two tests can give: a miss where `box_hit` says that the
    /// ray misses the box of the node, and else the nearer of what the
    /// searches of the two sides come to.
    pub open spec fn searches_to<
        R,
        B: Fn(&AABB, &Interval) -> bool,
        P: Fn(usize, &Interval) -> Option<HitRecord<R>>,
    >(self, r_t: Interval, box_hit: &B, leaf_hit: &P, res: Option<HitRecord<R>>) -> bool
        decreases self,
    {
        exists|met: bool| #[trigger]
            call_ensures(box_hit, (&self.bbox, &r_t), met) && if met {
                exists|l: Option<HitRecord<R>>, r: Option<HitRecord<R>>|
                    {
                        &&& self.left.searches_to(r_t, box_hit, leaf_hit, l)
                        &&& self.right.searches_to(r_t, box_hit, leaf_hit, r)
                        &&& res == #[trigger] nearer_of(l, r)
                    }
            } else {
                res is None
            }
    }

    /// The node stands over `objects` as `new` builds it: its box is the
    /// box round them all; with no primitive there is nothing on either
    /// side; one primitive is both its sides and two are one side each;
    /// more are split between two nodes as `split_by` says.
    pub open spec fn arranges<F: Fn(&Interval) -> i64>(
        self,
        objects: Seq<Object>,
        extent: &F,
    ) -> bool
        decreases self, 1int,
    {
        &&& self.bbox == enclosing(objects)
        &&& if objects.len() == 0 {
            self.left == Child::Nothing && self.right == Child::Nothing
        } else if objects.len() == 1 {
            self.left == Child::Leaf(objects[0]) && self.right == Child::Leaf(objects[0])
        } else if objects.len() == 2 {
            self.left == Child::Leaf(objects[0]) && self.right == Child::Leaf(objects[1])
        } else {
            exists|axis: usize, order: Seq<Object>|
                #![trigger sorted_on(objects, order, axis)]
                self.split_by(objects, extent, axis, order)
        }
    }

    /// The two sides of the node stand over the halves of `order`, which
    /// is `objects` sorted along `axis`, the longest axis of the box of
    /// the node: the left over the first half, the smaller one where the
    /// count is odd, and the right over the rest.
    pub open spec fn split_by<F: Fn(&Interval) -> i64>(
        self,
        objects: Seq<Object>,
        extent: &F,
        axis: usize,
        order: Seq<Object>,
    ) -> bool
        decreases self, 0int,
    {
        &&& self.bbox.may_split_along(extent, axis)
        &&& sorted_on(objects, order, axis)
        &&& self.left matches Child::Node(l) && l.arranges(
            order.take((order.len() / 2) as int),
            extent,
        )
        &&& self.right matches Child::Node(r) && r.arranges(
            order.skip((order.len() / 2) as int),
            extent,
        )
    }

    /// The hierarchy over `objects`, where `extent` measures the length of
    /// an interval. Over no primitives it is a node with the box without
    /// a point and nothing below, in which no search finds a hit.
    pub fn new(objects: Vec<Object>, extent: &impl Fn(&Interval) -> i64) -> (node: Self)
        requires
            forall|side: Interval| call_requires(extent, (&side,)),
        ensures
            node.arranges(objects@, extent),
        decreases objects.len(),
    {
        let bbox = bounding(&objects);
        if objects.len() == 0 {
            Self { left: Child::Nothing, right: Child::Nothing, bbox }
        } else if objects.len() == 1 {
            Self { left: Child::Leaf(objects[0]), right: Child::Leaf(objects[0]), bbox }
        } else if objects.len() == 2 {
            Self { left: Child::Leaf(objects[0]), right: Child::Leaf(objects[1]), bbox }
        } else {
            let ghost given = objects@;
            let axis = bbox.longest_axis(extent);
            let mut objects = objects;
            sort_along(&mut objects, axis);
            let ghost order = objects@;
            proof {
                order.to_multiset_ensures();
                given.to_multiset_ensures();
            }
            let mid = objects.len() / 2;
            let right_vec = objects.split_off(mid);
            let left = BVHNode::new(objects, extent);
            let right = BVHNode::new(right_vec, extent);
            let node = Self {
                bbox,
                left: Child::Node(Box::new(left)),
                right: Child::Node(Box::new(right)),
            };
            proof {
                assert(objects@ == order.take((order.len() / 2) as int));
                assert(right_vec@ == order.skip((order.len() / 2) as int));
            }
            node
        }
    }

    /// The hierarchy over the primitives of a list.
    pub fn from(origin: HittableList, extent: &impl Fn(&Interval) -> i64) -> (node: Self)
        requires
            forall|side: Interval| call_requires(extent, (&side,)),
        ensures
            node.arranges(origin@, extent),
    {
        Self::new(origin.into_objects(), extent)
    }

    /// The box round all that lies below.
    pub fn bounding_box(&self) -> (res: AABB)
        ensures
            res == self.bbox,
    {
        self.bbox
    }

    /// The nearest hit of the ray on a primitive below, within `r_t`.
    ///
    /// A node whose box the ray misses is not searched. Else both sides
    /// are searched over `r_t`, and of two hits the one with the smaller
    /// key wins, the right one where they are level.
    pub fn hit<R>(
        &self,
        r_t: &Interval,
        box_hit: &impl Fn(&AABB, &Interval) -> bool,
        leaf_hit: &impl Fn(usize, &Interval) -> Option<HitRecord<R>>,
    ) -> (res: Option<HitRecord<R>>)
        requires
            self.can_ask(*r_t, box_hit, leaf_hit),
        ensures
            self.searches_to(*r_t, box_hit, leaf_hit, res),
            res matches Some(h) ==> reported(self.leaves(), leaf_hit, *r_t, h),
            single_valued(self.leaves(), leaf_hit, *r_t) && self.boxes_enclose(
                *r_t,
                box_hit,
                leaf_hit,
            ) ==> nearest(self.leaves(), leaf_hit, *r_t, res),
        decreases self,
    {
        let res = if !box_hit(&self.bbox, r_t) {
            None
        } else {
            let hit_left = self.left.hit(r_t, box_hit, leaf_hit);
            let hit_right = self.right.hit(r_t, box_hit, leaf_hit);
            nearer(hit_left, hit_right)
        };
        proof {
            lemma_search_finds_the_nearest(*self, *r_t, box_hit, leaf_hit, res);
        }
        res
    }
}

/// Sorting a list keeps its primitives.
pub proof fn lemma_sorted_same_objects(before: Seq<Object>, after: Seq<Object>, axis: usize)
    requires
        sorted_on(before, after, axis),
    ensures
        after.len() == before.len(),
        forall|o: Object| after.contains(o) <==> before.contains(o),
{
    broadcast use vstd::seq_lib::to_multiset_contains;

    before.to_multiset_ensures();
    after.to_multiset_ensures();
    assert forall|o: Object| after.contains(o) <==> before.contains(o) by {
        assert(after.contains(o) <==> after.to_multiset().count(o) > 0);
        assert(before.contains(o) <==> before.to_multiset().count(o) > 0);
    }
}

/// The axis and the order by which a node over more than two primitives
/// is split.
pub proof fn lemma_split<F: Fn(&Interval) -> i64>(
    node: BVHNode,
    objects: Seq<Object>,
    extent: &F,
) -> (split: (usize, Seq<Object>))
    requires
        node.arranges(objects, extent),
        objects.len() > 2,
    ensures
        node.split_by(objects, extent, split.0, split.1),
{
    choose|axis: usize, order: Seq<Object>|
        #![trigger sorted_on(objects, order, axis)]
        node.split_by(objects, extent, axis, order)
}

/// The primitives under a node that stands over a list are those of the
/// list.
pub proof fn lemma_arranged_leaves<F: Fn(&Interval) -> i64>(
    node: BVHNode,
    objects: Seq<Object>,
    extent: &F,
)
    requires
        node.arranges(objects, extent),
    ensures
        forall|o: Object| node.leaves().contains(o) <==> objects.contains(o),
    decreases node,
{
    if objects.len() == 0 {
        assert(node.leaves() =~= Seq::<Object>::empty());
    } else if objects.len() == 1 {
        assert(node.leaves() =~= seq![objects[0], objects[0]]);
        assert forall|o: Object| node.leaves().contains(o) <==> objects.contains(o) by {
            if objects.contains(o) {
                assert(node.leaves()[0] == o);
            }
        }
    } else if objects.len() == 2 {
        assert(node.leaves() =~= objects);
    } else {
        let (axis, order) = lemma_split(node, objects, extent);
        let mid = (order.len() / 2) as int;
        let l = node.left->Node_0;
        let r = node.right->Node_0;
        lemma_arranged_leaves(*l, order.take(mid), extent);
        lemma_arranged_leaves(*r, order.skip(mid), extent);
        lemma_sorted_same_objects(objects, order, axis);
        assert(order =~= order.take(mid) + order.skip(mid));
        assert forall|o: Object| node.leaves().contains(o) <==> objects.contains(o) by {
            lemma_contains_in_parts(l.leaves(), r.leaves(), o);
            lemma_contains_in_parts(order.take(mid), order.skip(mid), o);
        }
    }
}

/// The box test and the boxes go by a relation `meets` between the ray
/// and a box: the box test says what `meets` says, a box that includes a
/// box the ray meets is met too, and a ray that hits a primitive of
/// `objects` meets the box of that primitive.
pub open spec fn boxes_bound<
    R,
    B: Fn(&AABB, &Interval) -> bool,
    P: Fn(usize, &Interval) -> Option<HitRecord<R>>,
>(
    objects: Seq<Object>,
    r_t: Interval,
    box_hit: &B,
    leaf_hit: &P,
    meets: spec_fn(AABB) -> bool,
) -> bool {
    &&& forall|b: AABB, out: bool| #[trigger]
        call_ensures(box_hit, (&b, &r_t), out) ==> out == meets(b)
    &&& forall|inner: AABB, outer: AABB|
        outer.includes(inner) && #[trigger] meets(inner) ==> #[trigger] meets(outer)
    &&& forall|o: Object, h: HitRecord<R>|
        objects.contains(o) && #[trigger] answers(leaf_hit, o.id, r_t, Some(h)) ==> meets(o.bbox)
}

/// What a search from a node comes to is a hit that a primitive below
/// reports, or a miss; and it is the nearest of what the primitives below
/// report where each has one answer and the boxes enclose what lies below
/// them.
pub proof fn lemma_search_finds_the_nearest<
    R,
    B: Fn(&AABB, &Interval) -> bool,
    P: Fn(usize, &Interval) -> Option<HitRecord<R>>,
>(node: BVHNode, r_t: Interval, box_hit: &B, leaf_hit: &P, res: Option<HitRecord<R>>)
    requires
        node.searches_to(r_t, box_hit, leaf_hit, res),
    ensures
        res matches Some(h) ==> reported(node.leaves(), leaf_hit, r_t, h),
        single_valued(node.leaves(), leaf_hit, r_t) && node.boxes_enclose(r_t, box_hit, leaf_hit)
            ==> nearest(node.leaves(), leaf_hit, r_t, res),
    decreases node, 0int,
{
    let met = choose|met: bool| #[trigger]
        call_ensures(box_hit, (&node.bbox, &r_t), met) && if met {
            exists|l: Option<HitRecord<R>>, r: Option<HitRecord<R>>|
                {
                    &&& node.left.searches_to(r_t, box_hit, leaf_hit, l)
                    &&& node.right.searches_to(r_t, box_hit, leaf_hit, r)
                    &&& res == #[trigger] nearer_of(l, r)
                }
        } else {
            res is None
        };
    if met {
        let (l, r) = choose|l: Option<HitRecord<R>>, r: Option<HitRecord<R>>|
            {
                &&& node.left.searches_to(r_t, box_hit, leaf_hit, l)
                &&& node.right.searches_to(r_t, box_hit, leaf_hit, r)
                &&& res == #[trigger] nearer_of(l, r)
            };
        lemma_search_below_finds_the_nearest(node.left, r_t, box_hit, leaf_hit, l);
        lemma_search_below_finds_the_nearest(node.right, r_t, box_hit, leaf_hit, r);
        lemma_reported_in_parts(node.left.leaves(), node.right.leaves(), leaf_hit, r_t);
        if single_valued(node.leaves(), leaf_hit, r_t) && node.boxes_enclose(
            r_t,
            box_hit,
            leaf_hit,
        ) {
            lemma_single_valued_in_parts(
                node.left.leaves(),
                node.right.leaves(),
                leaf_hit,
                r_t,
            );
            lemma_nearest_of_parts(
                node.left.leaves(),
                node.right.leaves(),
                leaf_hit,
                r_t,
                l,
                r,
            );
        }
    } else {
        if node.boxes_enclose(r_t, box_hit, leaf_hit) {
            lemma_nearest_of_none(node.leaves(), leaf_hit, r_t);
        }
    }
}

/// What a search below one side of a node comes to, as
/// `lemma_search_finds_the_nearest` has it of a node.
pub proof fn lemma_search_below_finds_the_nearest<
    R,
    B: Fn(&AABB, &Interval) -> bool,
    P: Fn(usize, &Interval) -> Option<HitRecord<R>>,
>(side: Child, r_t: Interval, box_hit: &B, leaf_hit: &P, res: Option<HitRecord<R>>)
    requires
        side.searches_to(r_t, box_hit, leaf_hit, res),
    ensures
        res matches Some(h) ==> reported(side.leaves(), leaf_hit, r_t, h),
        single_valued(side.leaves(), leaf_hit, r_t) && side.boxes_enclose(r_t, box_hit, leaf_hit)
            ==> nearest(side.leaves(), leaf_hit, r_t, res),
    decreases side, 1int,
{
    match side {
        Child::Leaf(o) => {
            assert(side.leaves()[0] == o);
            assert(answers(leaf_hit, side.leaves()[0].id, r_t, res));
        },
        Child::Node(n) => {
            lemma_search_finds_the_nearest(*n, r_t, box_hit, leaf_hit, res);
        },
        Child::Nothing => {},
    }
}

/// Searching the hierarchy built over a list of primitives finds a hit
/// exactly where some primitive of the list reports one for the same
/// interval, and the hit it finds is one of those reports and no later
/// than any of them.
///
/// This holds where each primitive has one answer, and the box test and
/// the boxes go by a relation `meets` as `boxes_bound` says.
pub proof fn lemma_hierarchy_finds_the_nearest<
    R,
    B: Fn(&AABB, &Interval) -> bool,
    P: Fn(usize, &Interval) -> Option<HitRecord<R>>,
    F: Fn(&Interval) -> i64,
>(
    node: BVHNode,
    objects: Seq<Object>,
    extent: &F,
    r_t: Interval,
    box_hit: &B,
    leaf_hit: &P,
    meets: spec_fn(AABB) -> bool,
    res: Option<HitRecord<R>>,
)
    requires
        node.arranges(objects, extent),
        node.searches_to(r_t, box_hit, leaf_hit, res),
        single_valued(objects, leaf_hit, r_t),
        boxes_bound(objects, r_t, box_hit, leaf_hit, meets),
    ensures
        res is Some <==> exists|h: HitRecord<R>| reported(objects, leaf_hit, r_t, h),
        res matches Some(h) ==> reported(objects, leaf_hit, r_t, h),
        nearest(objects, leaf_hit, r_t, res),
{
    lemma_arranged_leaves(node, objects, extent);
    lemma_same_objects_same_reports(node.leaves(), objects, leaf_hit, r_t);
    lemma_boxes_enclose(node, objects, extent, r_t, box_hit, leaf_hit, meets);
    lemma_search_finds_the_nearest(node, r_t, box_hit, leaf_hit, res);
    if exists|h: HitRecord<R>| reported(objects, leaf_hit, r_t, h) {
        let h = choose|h: HitRecord<R>| reported(objects, leaf_hit, r_t, h);
        let k = choose|k: int|
            0 <= k < objects.len() && answers(leaf_hit, #[trigger] objects[k].id, r_t, Some(h));
        assert(res is Some);
    }
}

/// The boxes of a hierarchy built over a list enclose what lies below
/// them, where the box test and the boxes go by a relation `meets` as
/// `boxes_bound` says.
pub proof fn lemma_boxes_enclose<
    R,
    B: Fn(&AABB, &Interval) -> bool,
    P: Fn(usize, &Interval) -> Option<HitRecord<R>>,
    F: Fn(&Interval) -> i64,
>(
    node: BVHNode,
    objects: Seq<Object>,
    extent: &F,
    r_t: Interval,
    box_hit: &B,
    leaf_hit: &P,
    meets: spec_fn(AABB) -> bool,
)
    requires
        node.arranges(objects, extent),
        boxes_bound(objects, r_t, box_hit, leaf_hit, meets),
    ensures
        node.boxes_enclose(r_t, box_hit, leaf_hit),
    decreases node,
{
    lemma_arranged_leaves(node, objects, extent);
    assert forall|h: HitRecord<R>|
        call_ensures(box_hit, (&node.bbox, &r_t), false) implies !reported(
        node.leaves(),
        leaf_hit,
        r_t,
        h,
    ) by {
        if reported(node.leaves(), leaf_hit, r_t, h) {
            let k = choose|k: int|
                0 <= k < node.leaves().len() && answers(
                    leaf_hit,
                    #[trigger] node.leaves()[k].id,
                    r_t,
                    Some(h),
                );
            let o = node.leaves()[k];
            assert(node.leaves().contains(o));
            lemma_enclosing_includes(objects, o);
            assert(meets(o.bbox));
            assert(meets(node.bbox));
        }
    }
    if objects.len() > 2 {
        let (axis, order) = lemma_split(node, objects, extent);
        let mid = (order.len() / 2) as int;
        let l = node.left->Node_0;
        let r = node.right->Node_0;
        lemma_sorted_same_objects(objects, order, axis);
        assert(order =~= order.take(mid) + order.skip(mid));
        assert forall|o: Object| order.take(mid).contains(o) implies objects.contains(o) by {
            lemma_contains_in_parts(order.take(mid), order.skip(mid), o);
        }
        assert forall|o: Object| order.skip(mid).contains(o) implies objects.contains(o) by {
            lemma_contains_in_parts(order.take(mid), order.skip(mid), o);
        }
        lemma_boxes_enclose(*l, order.take(mid), extent, r_t, box_hit, leaf_hit, meets);
        lemma_boxes_enclose(*r, order.skip(mid), extent, r_t, box_hit, leaf_hit, meets);
    }
}

/// In the hierarchy over no primitives no search finds a hit, whatever
/// the two tests answer.
pub proof fn lemma_nothing_is_found_over_nothing<
    R,
    B: Fn(&AABB, &Interval) -> bool,
    P: Fn(usize, &Interval) -> Option<HitRecord<R>>,
    F: Fn(&Interval) -> i64,
>(
    node: BVHNode,
    extent: &F,
    r_t: Interval,
    box_hit: &B,
    leaf_hit: &P,
    res: Option<HitRecord<R>>,
)
    requires
        node.arranges(Seq::<Object>::empty(), extent),
        node.searches_to(r_t, box_hit, leaf_hit, res),
    ensures
        res is None,
        node.leaves() == Seq::<Object>::empty(),
        node.bbox == AABB::nothing(),
        node.can_ask(r_t, box_hit, leaf_hit) == call_requires(box_hit, (&node.bbox, &r_t)),
{
    assert(node.leaves() =~= Seq::<Object>::empty());
    lemma_search_finds_the_nearest(node, r_t, box_hit, leaf_hit, res);
    if res is Some {
        let h = res->Some_0;
        assert(reported(node.leaves(), leaf_hit, r_t, h));
    }
}

/// A hit that `leaf_hit` reports of a primitive of `objects` over `r_t`
/// lies within `r_t`.
pub open spec fn reports_within<R, P: Fn(usize, &Interval) -> Option<HitRecord<R>>>(
    objects: Seq<Object>,
    leaf_hit: &P,
    r_t: Interval,
) -> bool {
    forall|k: int, h: HitRecord<R>|
        0 <= k < objects.len() && #[trigger] answers(leaf_hit, objects[k].id, r_t, Some(h))
            ==> r_t.has(h.t as int)
}

/// The hit that a search of the hierarchy built over a list finds lies
/// within the interval asked, where the hits that the primitives of the
/// list report do.
pub proof fn lemma_hierarchy_hit_lies_within<
    R,
    B: Fn(&AABB, &Interval) -> bool,
    P: Fn(usize, &Interval) -> Option<HitRecord<R>>,
    F: Fn(&Interval) -> i64,
>(
    node: BVHNode,
    objects: Seq<Object>,
    extent: &F,
    r_t: Interval,
    box_hit: &B,
    leaf_hit: &P,
    res: Option<HitRecord<R>>,
)
    requires
        node.arranges(objects, extent),
        node.searches_to(r_t, box_hit, leaf_hit, res),
        reports_within(objects, leaf_hit, r_t),
    ensures
        res matches Some(h) ==> r_t.has(h.t as int) && reported(objects, leaf_hit, r_t, h),
{
    lemma_arranged_leaves(node, objects, extent);
    lemma_same_objects_same_reports(node.leaves(), objects, leaf_hit, r_t);
    lemma_search_finds_the_nearest(node, r_t, box_hit, leaf_hit, res);
    if res is Some {
        let h = res->Some_0;
        assert(reported(objects, leaf_hit, r_t, h));
        let k = choose|k: int|
            0 <= k < objects.len() && answers(leaf_hit, #[trigger] objects[k].id, r_t, Some(h));
    }
}

} // verus!
