use vstd::prelude::*;

use core::cmp::Ordering;

use crate::aabb::AABB;
use crate::rand::random_range;
use crate::vec::key;

verus! {

broadcast use vstd::seq_lib::group_to_multiset_ensures;

/// A bounded primitive of the scene, named by its position in the caller's list.
#[derive(Clone, Copy, Debug, PartialEq, Eq, Structural)]
pub struct Primitive {
    pub index: usize,
    pub bx: AABB,
}

/// A node of the hierarchy: a primitive, or a branch over two subtrees.
pub enum Geometry {
    Primitive(Primitive),
    Branch(Box<BVHNode>),
}

/// A branch: two subtrees and a box holding both of them.
pub struct BVHNode {
    pub left: Geometry,
    pub right: Geometry,
    pub bx: AABB,
}

/// A hierarchy built once over a non-empty list of primitives; its boxes stay
/// consistent with its subtrees.
pub struct BVH {
    root: Geometry,
}

/// The totalOrder position of a primitive's least coordinate along `axis`.
pub open spec fn key_on(p: Primitive, axis: int) -> int {
    key(p.bx.lo().coord(axis))
}

/// The ordering of two integers.
pub open spec fn ordering_of(a: int, b: int) -> Ordering {
    if a < b {
        Ordering::Less
    } else if a == b {
        Ordering::Equal
    } else {
        Ordering::Greater
    }
}

/// `f` answers box tests as `bf` does.
pub open spec fn box_tests<T, B: Fn(AABB, T) -> bool>(f: B, bf: spec_fn(AABB, T) -> bool) -> bool {
    forall|b: AABB, t: T, r: bool| f.ensures((b, t), r) ==> r == bf(b, t)
}

/// `f` answers primitive tests as `pf` does.
pub open spec fn prim_tests<T, R, P: Fn(usize, T) -> Option<(T, R)>>(
    f: P,
    pf: spec_fn(usize, T) -> Option<(T, R)>,
) -> bool {
    forall|i: usize, t: T, r: Option<(T, R)>| f.ensures((i, t), r) ==> r == pf(i, t)
}

/// The upper bound left after a search: the distance of its hit, or `t_max`.
pub open spec fn bound_after<T, R>(found: Option<(T, R)>, t_max: T) -> T {
    match found {
        Some(h) => h.0,
        None => t_max,
    }
}

impl Geometry {
    /// The box of this subtree.
    pub open spec fn bbox(self) -> AABB {
        match self {
            Geometry::Primitive(p) => p.bx,
            Geometry::Branch(n) => n.bx,
        }
    }

    /// Every branch's box is the union of its children's boxes.
    pub open spec fn wf(self) -> bool
        decreases self,
    {
        match self {
            Geometry::Primitive(_) => true,
            Geometry::Branch(n) => n.bx == AABB::union(n.left.bbox(), n.right.bbox())
                && n.left.wf() && n.right.wf(),
        }
    }

    /// The primitives of this subtree, left to right.
    pub open spec fn leaves(self) -> Seq<Primitive>
        decreases self,
    {
        match self {
            Geometry::Primitive(p) => seq![p],
            Geometry::Branch(n) => n.left.leaves() + n.right.leaves(),
        }
    }

    /// The nearest hit that the traversal finds under the upper bound `t_max`, where
    /// `bf` answers whether a ray meets a box and `pf` tests a primitive: a branch
    /// whose box is missed is pruned; otherwise the left subtree is searched, then
    /// the right one below the left hit, and the right hit, if any, wins.
    pub open spec fn tree_hit<T, R>(
        self,
        bf: spec_fn(AABB, T) -> bool,
        pf: spec_fn(usize, T) -> Option<(T, R)>,
        t_max: T,
    ) -> Option<(T, R)>
        decreases self,
    {
        match self {
            Geometry::Primitive(p) => pf(p.index, t_max),
            Geometry::Branch(n) => {
                if !bf(n.bx, t_max) {
                    None
                } else {
                    let l = n.left.tree_hit(bf, pf, t_max);
                    let r = n.right.tree_hit(bf, pf, bound_after(l, t_max));
                    match r {
                        Some(_) => r,
                        None => l,
                    }
                }
            },
        }
    }

    pub fn bounding_box(&self) -> (r: AABB)
        ensures
            r == self.bbox(),
    {
        match self {
            Geometry::Primitive(p) => p.bx,
            Geometry::Branch(n) => n.bx,
        }
    }

    /// The nearest hit below `t_max`, found by `box_hit` and `prim_hit`. Where the two
    /// tests are functions of their arguments, the result is `tree_hit` of them.
    pub fn hit<T: Copy, R, B: Fn(AABB, T) -> bool, P: Fn(usize, T) -> Option<(T, R)>>(
        &self,
        box_hit: &B,
        prim_hit: &P,
        t_max: T,
    ) -> (r: Option<(T, R)>)
        requires
            forall|b: AABB, t: T| box_hit.requires((b, t)),
            forall|i: usize, t: T| prim_hit.requires((i, t)),
        ensures
            forall|bf: spec_fn(AABB, T) -> bool, pf: spec_fn(usize, T) -> Option<(T, R)>|
                box_tests(*box_hit, bf) && prim_tests(*prim_hit, pf) ==> r == #[trigger] self.tree_hit(
                    bf,
                    pf,
                    t_max,
                ),
        decreases self,
    {
        match self {
            Geometry::Primitive(p) => prim_hit(p.index, t_max),
            Geometry::Branch(n) => {
                let inside = box_hit(n.bx, t_max);
                if !inside {
                    proof {
                        assert forall|
                            bf: spec_fn(AABB, T) -> bool,
                            pf: spec_fn(usize, T) -> Option<(T, R)>,
                        | box_tests(*box_hit, bf) && prim_tests(*prim_hit, pf) implies None::<(T, R)>
                            == #[trigger] self.tree_hit(bf, pf, t_max) by {
                            assert(!bf(n.bx, t_max));
                        }
                    }
                    return None;
                }
                let left_rec = n.left.hit(box_hit, prim_hit, t_max);
                let bound = match &left_rec {
                    Some(h) => h.0,
                    None => t_max,
                };
                let right_rec = n.right.hit(box_hit, prim_hit, bound);
                let ghost l = left_rec;
                let ghost rr = right_rec;
                let r = match right_rec {
                    Some(h) => Some(h),
                    None => left_rec,
                };
                proof {
                    assert forall|
                        bf: spec_fn(AABB, T) -> bool,
                        pf: spec_fn(usize, T) -> Option<(T, R)>,
                    | box_tests(*box_hit, bf) && prim_tests(*prim_hit, pf) implies r
                        == #[trigger] self.tree_hit(bf, pf, t_max) by {
                        assert(bf(n.bx, t_max));
                        assert(l == n.left.tree_hit(bf, pf, t_max));
                        assert(bound == bound_after(l, t_max));
                        assert(rr == n.right.tree_hit(bf, pf, bound));
                    }
                }
                r
            },
        }
    }
}

/// Every element of `s` is ordered by its key along `axis`.
pub open spec fn sorted_on(s: Seq<Primitive>, axis: int) -> bool {
    forall|i: int, j: int| 0 <= i <= j < s.len() ==> key_on(s[i], axis) <= key_on(s[j], axis)
}

/// The two children of a branch over `n` primitives are split along `axis`: with
/// two primitives the left one is not greater, and with more, every primitive on
/// the right is not greater than any on the left.
pub open spec fn split_on(node: BVHNode, axis: int) -> bool {
    let l = node.left.leaves();
    let r = node.right.leaves();
    forall|x: Primitive, y: Primitive|
        #![trigger l.contains(y), r.contains(x)]
        l.contains(y) && r.contains(x) ==> if l.len() + r.len() == 2 {
            key_on(y, axis) <= key_on(x, axis)
        } else {
            key_on(x, axis) <= key_on(y, axis)
        }
}

impl Geometry {
    /// Each branch over `n` primitives puts `ceil(n/2)` of them on the left and
    /// `floor(n/2)` on the right, split along one of the three axes.
    pub open spec fn partitioned(self) -> bool
        decreases self,
    {
        match self {
            Geometry::Primitive(_) => true,
            Geometry::Branch(n) => {
                let size = n.left.leaves().len() + n.right.leaves().len();
                &&& n.left.leaves().len() == (size + 1) / 2
                &&& n.right.leaves().len() == size / 2
                &&& exists|a: int| 0 <= a < 3 && #[trigger] split_on(*n, a)
                &&& n.left.partitioned()
                &&& n.right.partitioned()
            },
        }
    }
}

/// Orders two primitives by the least coordinates of their boxes along `axis`, in
/// totalOrder.
pub fn box_compare(a: &Primitive, b: &Primitive, axis: usize) -> (r: Ordering)
    requires
        axis < 3,
    ensures
        r == ordering_of(key_on(*a, axis as int), key_on(*b, axis as int)),
{
    let ka = crate::vec::total_order_key(a.bx.min().axis(axis));
    let kb = crate::vec::total_order_key(b.bx.min().axis(axis));
    if ka < kb {
        Ordering::Less
    } else if ka == kb {
        Ordering::Equal
    } else {
        Ordering::Greater
    }
}

pub fn box_x_compare(a: &Primitive, b: &Primitive) -> (r: Ordering)
    ensures
        r == ordering_of(key_on(*a, 0), key_on(*b, 0)),
{
    box_compare(a, b, 0)
}

pub fn box_y_compare(a: &Primitive, b: &Primitive) -> (r: Ordering)
    ensures
        r == ordering_of(key_on(*a, 1), key_on(*b, 1)),
{
    box_compare(a, b, 1)
}

pub fn box_z_compare(a: &Primitive, b: &Primitive) -> (r: Ordering)
    ensures
        r == ordering_of(key_on(*a, 2), key_on(*b, 2)),
{
    box_compare(a, b, 2)
}

/// The comparator of the chosen axis.
fn compare_along(a: &Primitive, b: &Primitive, axis: usize) -> (r: Ordering)
    requires
        axis < 3,
    ensures
        r == ordering_of(key_on(*a, axis as int), key_on(*b, axis as int)),
{
    if axis == 0 {
        box_x_compare(a, b)
    } else if axis == 1 {
        box_y_compare(a, b)
    } else {
        box_z_compare(a, b)
    }
}

/// Relies on slice::sort_by: the slice keeps its elements and ends up ordered by the
/// comparator, here a total order on the keys along `axis`.
#[verifier::external_body]
fn sort_along(objects: &mut Vec<Primitive>, axis: usize)
    requires
        axis < 3,
    ensures
        final(objects)@.to_multiset() == old(objects)@.to_multiset(),
        sorted_on(final(objects)@, axis as int),
{
    objects.sort_by(|a, b| compare_along(a, b, axis))
}

impl BVHNode {
    /// A branch over two or more primitives: along an axis drawn at random, two
    /// primitives are ordered by the comparator, and more are sorted and split at
    /// the middle, the upper `ceil(n/2)` going left and the lower `floor(n/2)` right.
    pub fn new(objects: Vec<Primitive>) -> (node: BVHNode)
        requires
            objects.len() >= 2,
        ensures
            Geometry::Branch(Box::new(node)).wf(),
            Geometry::Branch(Box::new(node)).partitioned(),
            Geometry::Branch(Box::new(node)).leaves().to_multiset() == objects@.to_multiset(),
        decreases objects.len(), 0nat,
    {
        let mut objects = objects;
        let axis = random_range(0, 3);
        let left: Geometry;
        let right: Geometry;
        if objects.len() == 2 {
            let first = objects[0];
            let second = objects[1];
            proof {
                assert(objects@ =~= seq![first, second]);
                vstd::seq_lib::lemma_seq_union_to_multiset_commutative(seq![first], seq![second]);
                assert(seq![first] + seq![second] =~= seq![first, second]);
                assert(seq![second] + seq![first] =~= seq![second, first]);
            }
            match compare_along(&first, &second, axis) {
                Ordering::Less | Ordering::Equal => {
                    left = Geometry::Primitive(first);
                    right = Geometry::Primitive(second);
                },
                Ordering::Greater => {
                    left = Geometry::Primitive(second);
                    right = Geometry::Primitive(first);
                },
            }
            proof {
                let l = left.leaves();
                let r = right.leaves();
                assert(l.len() == 1 && r.len() == 1);
                assert forall|x: Primitive, y: Primitive|
                    l.contains(y) && r.contains(x) implies key_on(y, axis as int) <= key_on(
                        x,
                        axis as int,
                    ) by {
                    assert(y == l[0]);
                    assert(x == r[0]);
                }
            }
        } else {
            let ghost original = objects@;
            sort_along(&mut objects, axis);
            let ghost sorted = objects@;
            let mid = objects.len() / 2;
            let first_half = objects.split_off(mid);
            let second_half = objects;
            proof {
                assert(sorted.to_multiset().len() == original.to_multiset().len());
                assert(first_half@.len() < original.len());
                assert(second_half@.len() < original.len());
                assert(sorted =~= second_half@ + first_half@);
                vstd::seq_lib::lemma_multiset_commutative(second_half@, first_half@);
            }
            left = BVH::build(first_half);
            right = BVH::build(second_half);
            proof {
                let l = left.leaves();
                let r = right.leaves();
                vstd::seq_lib::lemma_multiset_commutative(l, r);
                assert(l.to_multiset().len() == first_half@.to_multiset().len());
                assert(r.to_multiset().len() == second_half@.to_multiset().len());
                assert(l.len() == original.len() - original.len() / 2);
                assert(r.len() == original.len() / 2);
                assert forall|x: Primitive, y: Primitive|
                    l.contains(y) && r.contains(x) implies key_on(x, axis as int) <= key_on(
                        y,
                        axis as int,
                    ) by {
                    assert(l.to_multiset().count(y) > 0);
                    assert(first_half@.contains(y));
                    assert(r.to_multiset().count(x) > 0);
                    assert(second_half@.contains(x));
                    let j = choose|j: int| 0 <= j < first_half@.len() && first_half@[j] == y;
                    let i = choose|i: int| 0 <= i < second_half@.len() && second_half@[i] == x;
                    assert(sorted[i] == x);
                    assert(sorted[mid + j] == y);
                }
            }
        }
        let box_left = left.bounding_box();
        let box_right = right.bounding_box();
        let node = BVHNode { left, right, bx: AABB::surrounding_box(&box_left, &box_right) };
        proof {
            let g = Geometry::Branch(Box::new(node));
            assert(g.leaves() == left.leaves() + right.leaves());
            assert(left.wf());
            assert(right.wf());
            assert(node.bx == AABB::union(left.bbox(), right.bbox()));
            assert(g.wf());
            assert(split_on(node, axis as int));
            let size = left.leaves().len() + right.leaves().len();
            assert(left.leaves().len() == (size + 1) / 2);
            assert(right.leaves().len() == size / 2);
            assert(left.partitioned());
            assert(right.partitioned());
            assert(g.partitioned());
        }
        node
    }
}

impl BVH {
    /// The hierarchy over a non-empty list: one primitive stands alone, two or more
    /// get a branch.
    pub fn build(objects: Vec<Primitive>) -> (g: Geometry)
        requires
            objects.len() >= 1,
        ensures
            g.wf(),
            g.partitioned(),
            g.leaves().to_multiset() == objects@.to_multiset(),
            objects.len() == 1 ==> g == Geometry::Primitive(objects[0]),
        decreases objects.len(), 1nat,
    {
        if objects.len() == 1 {
            let p = objects[0];
            proof {
                assert(objects@ =~= seq![p]);
            }
            Geometry::Primitive(p)
        } else {
            Geometry::Branch(Box::new(BVHNode::new(objects)))
        }
    }

    #[verifier::type_invariant]
    spec fn inv(self) -> bool {
        self.root.wf()
    }

    /// The tree of the hierarchy.
    pub closed spec fn tree(self) -> Geometry {
        self.root
    }

    pub fn new(objects: Vec<Primitive>) -> (bvh: BVH)
        requires
            objects.len() >= 1,
        ensures
            bvh.tree().wf(),
            bvh.tree().partitioned(),
            bvh.tree().leaves().to_multiset() == objects@.to_multiset(),
    {
        BVH { root: BVH::build(objects) }
    }

    pub fn root(&self) -> (r: &Geometry)
        ensures
            *r == self.tree(),
            r.wf(),
    {
        proof {
            use_type_invariant(self);
        }
        &self.root
    }

    pub fn bounding_box(&self) -> (r: AABB)
        ensures
            r == self.tree().bbox(),
    {
        self.root.bounding_box()
    }

    /// The nearest hit below `t_max`, as `Geometry::hit` finds it from the root.
    pub fn hit<T: Copy, R, B: Fn(AABB, T) -> bool, P: Fn(usize, T) -> Option<(T, R)>>(
        &self,
        box_hit: &B,
        prim_hit: &P,
        t_max: T,
    ) -> (r: Option<(T, R)>)
        requires
            forall|b: AABB, t: T| box_hit.requires((b, t)),
            forall|i: usize, t: T| prim_hit.requires((i, t)),
        ensures
            forall|bf: spec_fn(AABB, T) -> bool, pf: spec_fn(usize, T) -> Option<(T, R)>|
                box_tests(*box_hit, bf) && prim_tests(*prim_hit, pf) ==> r == #[trigger] self.tree().tree_hit(
                    bf,
                    pf,
                    t_max,
                ),
    {
        self.root.hit(box_hit, prim_hit, t_max)
    }
}

} // verus!
