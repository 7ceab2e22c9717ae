use vstd::prelude::*;

use crate::vec::{key, total_order_key, Point3};

verus! {

/// The lesser of two coordinates in totalOrder.
pub open spec fn min_coord(a: u32, b: u32) -> u32 {
    if key(a) <= key(b) {
        a
    } else {
        b
    }
}

/// The greater of two coordinates in totalOrder.
pub open spec fn max_coord(a: u32, b: u32) -> u32 {
    if key(a) <= key(b) {
        b
    } else {
        a
    }
}

/// The axis-by-axis lesser of two points.
pub open spec fn min_point(a: Point3, b: Point3) -> Point3 {
    Point3 { x: min_coord(a.x, b.x), y: min_coord(a.y, b.y), z: min_coord(a.z, b.z) }
}

/// The axis-by-axis greater of two points.
pub open spec fn max_point(a: Point3, b: Point3) -> Point3 {
    Point3 { x: max_coord(a.x, b.x), y: max_coord(a.y, b.y), z: max_coord(a.z, b.z) }
}

fn lesser(a: u32, b: u32) -> (r: u32)
    ensures
        r == min_coord(a, b),
{
    if total_order_key(a) <= total_order_key(b) {
        a
    } else {
        b
    }
}

fn greater(a: u32, b: u32) -> (r: u32)
    ensures
        r == max_coord(a, b),
{
    if total_order_key(a) <= total_order_key(b) {
        b
    } else {
        a
    }
}

/// An axis-aligned box given by its least and greatest corners.
#[derive(Clone, Copy, Debug, PartialEq, Eq, Structural)]
pub struct AABB {
    min: Point3,
    max: Point3,
}

impl AABB {
    /// The least corner.
    pub closed spec fn lo(self) -> Point3 {
        self.min
    }

    /// The greatest corner.
    pub closed spec fn hi(self) -> Point3 {
        self.max
    }

    /// The box spanned by corners `a` and `b`, normalised axis by axis.
    pub closed spec fn spanned(a: Point3, b: Point3) -> AABB {
        AABB { min: min_point(a, b), max: max_point(a, b) }
    }

    /// The union of two boxes, axis by axis.
    pub closed spec fn union(a: AABB, b: AABB) -> AABB {
        AABB { min: min_point(a.min, b.min), max: max_point(a.max, b.max) }
    }

    /// The least corner is below the greatest one on every axis.
    pub open spec fn wf(self) -> bool {
        forall|a: int| 0 <= a < 3 ==> key(#[trigger] self.lo().coord(a)) <= key(self.hi().coord(a))
    }

    /// `inner` lies within this box on every axis.
    pub open spec fn contains(self, inner: AABB) -> bool {
        forall|a: int|
            0 <= a < 3 ==> key(#[trigger] self.lo().coord(a)) <= key(inner.lo().coord(a)) && key(
                inner.hi().coord(a),
            ) <= key(self.hi().coord(a))
    }

    /// The box spanned by two opposite corners, given in either order: each axis
    /// takes the lesser coordinate as its minimum and the greater as its maximum.
    pub fn new(a: Point3, b: Point3) -> (r: AABB)
        ensures
            r == AABB::spanned(a, b),
            r.lo() == min_point(a, b),
            r.hi() == max_point(a, b),
            r.wf(),
    {
        let min = Point3::new(lesser(a.x, b.x), lesser(a.y, b.y), lesser(a.z, b.z));
        let max = Point3::new(greater(a.x, b.x), greater(a.y, b.y), greater(a.z, b.z));
        AABB { min, max }
    }

    pub fn min(&self) -> (r: Point3)
        ensures
            r == self.lo(),
    {
        self.min
    }

    pub fn max(&self) -> (r: Point3)
        ensures
            r == self.hi(),
    {
        self.max
    }

    /// The smallest box holding both boxes: the lesser of the minimums and the
    /// greater of the maximums on each axis.
    pub fn surrounding_box(box0: &AABB, box1: &AABB) -> (r: AABB)
        ensures
            r == AABB::union(*box0, *box1),
            r.lo() == min_point(box0.lo(), box1.lo()),
            r.hi() == max_point(box0.hi(), box1.hi()),
            box0.wf() && box1.wf() ==> r.wf(),
    {
        let small = Point3::new(
            lesser(box0.min.x, box1.min.x),
            lesser(box0.min.y, box1.min.y),
            lesser(box0.min.z, box1.min.z),
        );
        let big = Point3::new(
            greater(box0.max.x, box1.max.x),
            greater(box0.max.y, box1.max.y),
            greater(box0.max.z, box1.max.z),
        );
        let r = AABB { min: small, max: big };
        proof {
            if box0.wf() && box1.wf() {
                assert forall|a: int| 0 <= a < 3 implies key(#[trigger] r.min.coord(a)) <= key(
                    r.max.coord(a),
                ) by {
                    assert(key(box0.lo().coord(a)) <= key(box0.hi().coord(a)));
                    assert(key(box1.lo().coord(a)) <= key(box1.hi().coord(a)));
                }
            }
        }
        r
    }
}

/// Which corner is named first does not matter: the box built from two corners is
/// the same either way, and it is well formed.
pub proof fn lemma_new_symmetric(a: Point3, b: Point3)
    ensures
        AABB::spanned(a, b) == AABB::spanned(b, a),
        AABB::spanned(a, b).wf(),
{
    crate::vec::lemma_key_injective(a.x, b.x);
    crate::vec::lemma_key_injective(a.y, b.y);
    crate::vec::lemma_key_injective(a.z, b.z);
    assert(min_point(a, b) == min_point(b, a));
    assert(max_point(a, b) == max_point(b, a));
}

/// The union of a box with itself is that box, and the union of two boxes holds
/// each of them entirely.
pub proof fn lemma_surrounding_box(a: AABB, b: AABB)
    ensures
        AABB::union(a, a) == a,
        AABB::union(a, b).contains(a),
        AABB::union(a, b).contains(b),
{
    assert(min_point(a.min, a.min) == a.min);
    assert(max_point(a.max, a.max) == a.max);
}

/// The union is commutative and associative.
pub proof fn lemma_union_algebra(a: AABB, b: AABB, c: AABB)
    ensures
        AABB::union(a, b) == AABB::union(b, a),
        AABB::union(AABB::union(a, b), c) == AABB::union(a, AABB::union(b, c)),
{
    lemma_new_symmetric(a.min, b.min);
    lemma_new_symmetric(a.max, b.max);
}

/// Containment is transitive.
pub proof fn lemma_contains_transitive(outer: AABB, mid: AABB, inner: AABB)
    requires
        outer.contains(mid),
        mid.contains(inner),
    ensures
        outer.contains(inner),
{
    assert forall|a: int| 0 <= a < 3 implies key(#[trigger] outer.lo().coord(a)) <= key(
        inner.lo().coord(a),
    ) && key(inner.hi().coord(a)) <= key(outer.hi().coord(a)) by {
        assert(key(outer.lo().coord(a)) <= key(mid.lo().coord(a)));
        assert(key(mid.hi().coord(a)) <= key(outer.hi().coord(a)));
        assert(key(mid.lo().coord(a)) <= key(inner.lo().coord(a)));
        assert(key(inner.hi().coord(a)) <= key(mid.hi().coord(a)));
    }
}

} // verus!
