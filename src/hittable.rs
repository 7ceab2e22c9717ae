use vstd::prelude::*;

use crate::aabb::AABB;
use crate::bvh::{bound_after, box_tests, prim_tests, Geometry, Primitive};

verus! {

/// What a scan of `objs` in order finds below `t_max`: each object is tested below
/// the nearest hit so far, and a later hit replaces an earlier one.
pub open spec fn scan_hit<T, R>(
    objs: Seq<Geometry>,
    bf: spec_fn(AABB, T) -> bool,
    pf: spec_fn(usize, T) -> Option<(T, R)>,
    t_max: T,
) -> Option<(T, R)>
    decreases objs.len(),
{
    if objs.len() == 0 {
        None
    } else {
        let prev = scan_hit(objs.drop_last(), bf, pf, t_max);
        match objs.last().tree_hit(bf, pf, bound_after(prev, t_max)) {
            Some(h) => Some(h),
            None => prev,
        }
    }
}

/// The union of the boxes of `objs`, or `None` for no objects.
pub open spec fn list_box(objs: Seq<Geometry>) -> Option<AABB>
    decreases objs.len(),
{
    if objs.len() == 0 {
        None
    } else if objs.len() == 1 {
        Some(objs[0].bbox())
    } else {
        match list_box(objs.drop_last()) {
            Some(b) => Some(AABB::union(b, objs.last().bbox())),
            None => None,
        }
    }
}

/// A flat list of objects, scanned one after the other.
pub struct HittableList {
    objects: Vec<Geometry>,
}

impl HittableList {
    pub closed spec fn view(&self) -> Seq<Geometry> {
        self.objects@
    }

    pub fn new() -> (list: HittableList)
        ensures
            list.view() == Seq::<Geometry>::empty(),
    {
        HittableList { objects: Vec::new() }
    }

    pub fn add(&mut self, obj: Geometry)
        ensures
            final(self).view() == old(self).view().push(obj),
    {
        self.objects.push(obj);
    }

    /// The nearest hit below `t_max` over all objects, found by `box_hit` and
    /// `prim_hit`. Where the two tests are functions of their arguments, the result
    /// is `scan_hit` of them.
    pub fn hit<T: Copy, R, B: Fn(AABB, T) -> bool, P: Fn(usize, T) -> Option<(T, R)>>(
        &self,
        box_hit: &B,
        prim_hit: &P,
        t_max: T,
    ) -> (r: Option<(T, R)>)
        requires
            forall|b: AABB, t: T| box_hit.requires((b, t)),
            forall|i: usize, t: T| prim_hit.requires((i, t)),
        ensures
            forall|bf: spec_fn(AABB, T) -> bool, pf: spec_fn(usize, T) -> Option<(T, R)>|
                box_tests(*box_hit, bf) && prim_tests(*prim_hit, pf) ==> r == #[trigger] scan_hit(
                    self.view(),
                    bf,
                    pf,
                    t_max,
                ),
    {
        let mut closest = t_max;
        let mut best: Option<(T, R)> = None;
        let mut i: usize = 0;
        while i < self.objects.len()
            invariant
                i <= self.objects@.len(),
                forall|b: AABB, t: T| box_hit.requires((b, t)),
                forall|i: usize, t: T| prim_hit.requires((i, t)),
                closest == bound_after(best, t_max),
                forall|bf: spec_fn(AABB, T) -> bool, pf: spec_fn(usize, T) -> Option<(T, R)>|
                    box_tests(*box_hit, bf) && prim_tests(*prim_hit, pf) ==> best
                        == #[trigger] scan_hit(self.objects@.take(i as int), bf, pf, t_max),
            decreases self.objects@.len() - i,
        {
            let ghost before = best;
            let found = self.objects[i].hit(box_hit, prim_hit, closest);
            let ghost got = found;
            match found {
                Some(h) => {
                    closest = h.0;
                    best = Some(h);
                },
                None => {},
            }
            proof {
                let s = self.objects@.take(i + 1);
                assert(s.drop_last() =~= self.objects@.take(i as int));
                assert(s.last() == self.objects@[i as int]);
                assert forall|
                    bf: spec_fn(AABB, T) -> bool,
                    pf: spec_fn(usize, T) -> Option<(T, R)>,
                | box_tests(*box_hit, bf) && prim_tests(*prim_hit, pf) implies best
                    == #[trigger] scan_hit(s, bf, pf, t_max) by {
                    assert(before == scan_hit(self.objects@.take(i as int), bf, pf, t_max));
                    assert(got == self.objects@[i as int].tree_hit(
                        bf,
                        pf,
                        bound_after(before, t_max),
                    ));
                }
            }
            i = i + 1;
        }
        proof {
            assert(self.objects@.take(i as int) =~= self.objects@);
        }
        best
    }

    /// The union of the boxes of all objects, or `None` for an empty list.
    pub fn bounding_box(&self) -> (r: Option<AABB>)
        ensures
            r == list_box(self.view()),
    {
        if self.objects.len() == 0 {
            return None;
        }
        let mut res = self.objects[0].bounding_box();
        let mut i: usize = 1;
        proof {
            assert(self.objects@.take(1).drop_last() =~= Seq::<Geometry>::empty());
        }
        while i < self.objects.len()
            invariant
                1 <= i <= self.objects@.len(),
                list_box(self.objects@.take(i as int)) == Some(res),
            decreases self.objects@.len() - i,
        {
            let b = self.objects[i].bounding_box();
            proof {
                let s = self.objects@.take(i + 1);
                assert(s.drop_last() =~= self.objects@.take(i as int));
            }
            res = AABB::surrounding_box(&res, &b);
            i = i + 1;
        }
        proof {
            assert(self.objects@.take(i as int) =~= self.objects@);
        }
        Some(res)
    }
}

/// The primitives of all trees of `objs`, in order.
pub open spec fn all_leaves(objs: Seq<Geometry>) -> Seq<Primitive>
    decreases objs.len(),
{
    if objs.len() == 0 {
        Seq::empty()
    } else {
        all_leaves(objs.drop_last()) + objs.last().leaves()
    }
}

/// A primitive's candidate hit, kept only when it lies below `b`.
pub open spec fn below<R>(c: Option<(int, R)>, b: int) -> Option<(int, R)> {
    match c {
        Some(h) => if h.0 < b {
            Some(h)
        } else {
            None
        },
        None => None,
    }
}

/// No primitive of `ps` has a candidate hit nearer than `t`.
pub open spec fn none_nearer<R>(ps: Seq<Primitive>, cand: spec_fn(usize) -> Option<(int, R)>, t: int) -> bool {
    forall|p: Primitive| #[trigger]
        ps.contains(p) ==> match cand(p.index) {
            Some(c) => t <= c.0,
            None => true,
        }
}

/// `r` is the nearest candidate hit among `ps` below `b`: none when no candidate
/// lies below `b`, else the candidate of one of them, with none nearer.
pub open spec fn nearest<R>(
    ps: Seq<Primitive>,
    cand: spec_fn(usize) -> Option<(int, R)>,
    b: int,
    r: Option<(int, R)>,
) -> bool {
    match r {
        None => none_nearer(ps, cand, b),
        Some(h) => h.0 < b && none_nearer(ps, cand, h.0) && exists|p: Primitive|
            #[trigger] ps.contains(p) && cand(p.index) == Some(h),
    }
}

/// The tests describe a ray: each primitive has one candidate hit, reported
/// whenever it lies below the bound, and a box reports a hit whenever a primitive
/// inside it does.
pub open spec fn ray_tests<R>(
    bf: spec_fn(AABB, int) -> bool,
    pf: spec_fn(usize, int) -> Option<(int, R)>,
    cand: spec_fn(usize) -> Option<(int, R)>,
) -> bool {
    &&& forall|i: usize, b: int| #[trigger] pf(i, b) == below(cand(i), b)
    &&& forall|bx: AABB, p: Primitive, b: int|
        bx.contains(p.bx) && #[trigger] pf(p.index, b) is Some ==> #[trigger] bf(bx, b)
}

/// Each primitive of a well-formed tree lies inside the tree's box.
pub proof fn lemma_leaves_in_box(g: Geometry)
    requires
        g.wf(),
    ensures
        forall|p: Primitive| #[trigger] g.leaves().contains(p) ==> g.bbox().contains(p.bx),
    decreases g,
{
    match g {
        Geometry::Primitive(q) => {
            assert forall|p: Primitive| #[trigger] g.leaves().contains(p) implies g.bbox().contains(
                p.bx,
            ) by {
                assert(g.leaves()[0] == q);
            }
        },
        Geometry::Branch(n) => {
            lemma_leaves_in_box(n.left);
            lemma_leaves_in_box(n.right);
            crate::aabb::lemma_surrounding_box(n.left.bbox(), n.right.bbox());
            assert forall|p: Primitive| #[trigger] g.leaves().contains(p) implies g.bbox().contains(
                p.bx,
            ) by {
                if n.left.leaves().contains(p) {
                    crate::aabb::lemma_contains_transitive(g.bbox(), n.left.bbox(), p.bx);
                } else {
                    assert(n.right.leaves().contains(p));
                    crate::aabb::lemma_contains_transitive(g.bbox(), n.right.bbox(), p.bx);
                }
            }
        },
    }
}

/// Joining the search of `a` below `b` with the search of `c` below the hit of the
/// first yields the nearest hit of `a + c` below `b`.
proof fn lemma_join_nearest<R>(
    a: Seq<Primitive>,
    c: Seq<Primitive>,
    cand: spec_fn(usize) -> Option<(int, R)>,
    b: int,
    l: Option<(int, R)>,
    r: Option<(int, R)>,
)
    requires
        nearest(a, cand, b, l),
        nearest(c, cand, bound_after(l, b), r),
    ensures
        nearest(
            a + c,
            cand,
            b,
            match r {
                Some(h) => Some(h),
                None => l,
            },
        ),
{
    let res = match r {
        Some(h) => Some(h),
        None => l,
    };
    assert forall|p: Primitive| #[trigger] (a + c).contains(p) implies a.contains(p) || c.contains(
        p,
    ) by {
        let k = choose|k: int| 0 <= k < (a + c).len() && (a + c)[k] == p;
        if k < a.len() {
            assert(a[k] == p);
        } else {
            assert(c[k - a.len()] == p);
        }
    }
    match res {
        Some(h) => {
            if r is Some {
                let p = choose|p: Primitive| #[trigger] c.contains(p) && cand(p.index) == Some(h);
                let k = choose|k: int| 0 <= k < c.len() && c[k] == p;
                assert((a + c)[a.len() + k] == p);
                assert((a + c).contains(p));
            } else {
                let p = choose|p: Primitive| #[trigger] a.contains(p) && cand(p.index) == Some(h);
                let k = choose|k: int| 0 <= k < a.len() && a[k] == p;
                assert((a + c)[k] == p);
                assert((a + c).contains(p));
            }
        },
        None => {},
    }
}

/// The traversal of a well-formed tree finds the nearest candidate hit among its
/// primitives.
pub proof fn lemma_tree_hit_nearest<R>(
    g: Geometry,
    bf: spec_fn(AABB, int) -> bool,
    pf: spec_fn(usize, int) -> Option<(int, R)>,
    cand: spec_fn(usize) -> Option<(int, R)>,
    b: int,
)
    requires
        g.wf(),
        ray_tests(bf, pf, cand),
    ensures
        nearest(g.leaves(), cand, b, g.tree_hit(bf, pf, b)),
    decreases g,
{
    match g {
        Geometry::Primitive(q) => {
            assert(g.leaves() =~= seq![q]);
            assert(pf(q.index, b) == below(cand(q.index), b));
            assert forall|p: Primitive| #[trigger] g.leaves().contains(p) implies p == q by {
                assert(g.leaves()[0] == q);
            }
            assert(g.leaves().contains(q)) by {
                assert(g.leaves()[0] == q);
            }
        },
        Geometry::Branch(n) => {
            if !bf(n.bx, b) {
                lemma_leaves_in_box(g);
                assert forall|p: Primitive| #[trigger] g.leaves().contains(p) implies match cand(
                    p.index,
                ) {
                    Some(c) => b <= c.0,
                    None => true,
                } by {
                    assert(g.bbox().contains(p.bx));
                    assert(pf(p.index, b) == below(cand(p.index), b));
                }
            } else {
                let l = n.left.tree_hit(bf, pf, b);
                lemma_tree_hit_nearest(n.left, bf, pf, cand, b);
                lemma_tree_hit_nearest(n.right, bf, pf, cand, bound_after(l, b));
                lemma_join_nearest(n.left.leaves(), n.right.leaves(), cand, b, l, n.right.tree_hit(bf, pf, bound_after(l, b)));
            }
        },
    }
}

/// A scan over a list of well-formed trees finds the nearest candidate hit among
/// all their primitives.
pub proof fn lemma_scan_hit_nearest<R>(
    objs: Seq<Geometry>,
    bf: spec_fn(AABB, int) -> bool,
    pf: spec_fn(usize, int) -> Option<(int, R)>,
    cand: spec_fn(usize) -> Option<(int, R)>,
    b: int,
)
    requires
        forall|k: int| 0 <= k < objs.len() ==> #[trigger] objs[k].wf(),
        ray_tests(bf, pf, cand),
    ensures
        nearest(all_leaves(objs), cand, b, scan_hit(objs, bf, pf, b)),
    decreases objs.len(),
{
    if objs.len() > 0 {
        let prev = scan_hit(objs.drop_last(), bf, pf, b);
        assert forall|k: int| 0 <= k < objs.drop_last().len() implies #[trigger] objs.drop_last()[k].wf() by {
            assert(objs.drop_last()[k] == objs[k]);
        }
        lemma_scan_hit_nearest(objs.drop_last(), bf, pf, cand, b);
        assert(objs.last().wf());
        lemma_tree_hit_nearest(objs.last(), bf, pf, cand, bound_after(prev, b));
        lemma_join_nearest(
            all_leaves(objs.drop_last()),
            objs.last().leaves(),
            cand,
            b,
            prev,
            objs.last().tree_hit(bf, pf, bound_after(prev, b)),
        );
    }
}

/// The list of the primitives of `prims`, each standing alone.
pub open spec fn flat(prims: Seq<Primitive>) -> Seq<Geometry> {
    prims.map_values(|p: Primitive| Geometry::Primitive(p))
}

/// A flat list holds exactly its primitives, in order, and each entry is well formed.
pub proof fn lemma_flat_leaves(prims: Seq<Primitive>)
    ensures
        all_leaves(flat(prims)) == prims,
        forall|k: int| 0 <= k < prims.len() ==> #[trigger] flat(prims)[k].wf(),
    decreases prims.len(),
{
    if prims.len() > 0 {
        assert(flat(prims).drop_last() =~= flat(prims.drop_last()));
        lemma_flat_leaves(prims.drop_last());
        assert(flat(prims).last().leaves() =~= seq![prims.last()]);
        assert(all_leaves(flat(prims)) =~= prims);
    } else {
        assert(all_leaves(flat(prims)) =~= prims);
    }
}

/// A well-formed tree and a list of well-formed trees over the same primitives agree
/// on every ray: one finds a hit exactly when the other does, at the same distance,
/// and each returns the candidate hit of one of those primitives with none nearer.
pub proof fn lemma_bvh_matches_scan<R>(
    g: Geometry,
    objs: Seq<Geometry>,
    bf: spec_fn(AABB, int) -> bool,
    pf: spec_fn(usize, int) -> Option<(int, R)>,
    cand: spec_fn(usize) -> Option<(int, R)>,
    t_max: int,
)
    requires
        g.wf(),
        forall|k: int| 0 <= k < objs.len() ==> #[trigger] objs[k].wf(),
        g.leaves().to_multiset() == all_leaves(objs).to_multiset(),
        ray_tests(bf, pf, cand),
    ensures
        g.tree_hit(bf, pf, t_max) is Some <==> scan_hit(objs, bf, pf, t_max) is Some,
        bound_after(g.tree_hit(bf, pf, t_max), t_max) == bound_after(
            scan_hit(objs, bf, pf, t_max),
            t_max,
        ),
        nearest(g.leaves(), cand, t_max, g.tree_hit(bf, pf, t_max)),
        nearest(g.leaves(), cand, t_max, scan_hit(objs, bf, pf, t_max)),
{
    let ps = g.leaves();
    let qs = all_leaves(objs);
    let a = g.tree_hit(bf, pf, t_max);
    let b = scan_hit(objs, bf, pf, t_max);
    lemma_tree_hit_nearest(g, bf, pf, cand, t_max);
    lemma_scan_hit_nearest(objs, bf, pf, cand, t_max);
    assert forall|p: Primitive| ps.contains(p) <==> qs.contains(p) by {
        ps.to_multiset_ensures();
        qs.to_multiset_ensures();
        assert(ps.contains(p) <==> ps.to_multiset().count(p) > 0);
        assert(qs.contains(p) <==> qs.to_multiset().count(p) > 0);
    }
    assert(nearest(ps, cand, t_max, b)) by {
        match b {
            Some(h) => {
                let p = choose|p: Primitive| #[trigger] qs.contains(p) && cand(p.index) == Some(h);
                assert(ps.contains(p));
                assert forall|p: Primitive| #[trigger] ps.contains(p) implies match cand(p.index) {
                    Some(c) => h.0 <= c.0,
                    None => true,
                } by {
                    assert(qs.contains(p));
                }
            },
            None => {
                assert forall|p: Primitive| #[trigger] ps.contains(p) implies match cand(p.index) {
                    Some(c) => t_max <= c.0,
                    None => true,
                } by {
                    assert(qs.contains(p));
                }
            },
        }
    }
    match (a, b) {
        (Some(ha), Some(hb)) => {
            let p = choose|p: Primitive| #[trigger] ps.contains(p) && cand(p.index) == Some(ha);
            let q = choose|q: Primitive| #[trigger] ps.contains(q) && cand(q.index) == Some(hb);
            assert(hb.0 <= ha.0);
            assert(ha.0 <= hb.0);
        },
        (Some(ha), None) => {
            let p = choose|p: Primitive| #[trigger] ps.contains(p) && cand(p.index) == Some(ha);
            assert(t_max <= ha.0);
        },
        (None, Some(hb)) => {
            let q = choose|q: Primitive| #[trigger] ps.contains(q) && cand(q.index) == Some(hb);
            assert(t_max <= hb.0);
        },
        (None, None) => {},
    }
}

/// BVH completeness: a hierarchy built over `prims` (well formed, holding the same
/// primitives) and the flat list of `prims` find the nearest hit at the same
/// distance on every ray, or both find none.
pub proof fn lemma_built_matches_flat<R>(
    g: Geometry,
    prims: Seq<Primitive>,
    bf: spec_fn(AABB, int) -> bool,
    pf: spec_fn(usize, int) -> Option<(int, R)>,
    cand: spec_fn(usize) -> Option<(int, R)>,
    t_max: int,
)
    requires
        g.wf(),
        g.leaves().to_multiset() == prims.to_multiset(),
        ray_tests(bf, pf, cand),
    ensures
        g.tree_hit(bf, pf, t_max) is Some <==> scan_hit(flat(prims), bf, pf, t_max) is Some,
        bound_after(g.tree_hit(bf, pf, t_max), t_max) == bound_after(
            scan_hit(flat(prims), bf, pf, t_max),
            t_max,
        ),
        nearest(prims, cand, t_max, g.tree_hit(bf, pf, t_max)),
{
    lemma_flat_leaves(prims);
    lemma_bvh_matches_scan(g, flat(prims), bf, pf, cand, t_max);
    let ps = g.leaves();
    let a = g.tree_hit(bf, pf, t_max);
    assert forall|p: Primitive| ps.contains(p) <==> prims.contains(p) by {
        ps.to_multiset_ensures();
        prims.to_multiset_ensures();
        assert(ps.contains(p) <==> ps.to_multiset().count(p) > 0);
        assert(prims.contains(p) <==> prims.to_multiset().count(p) > 0);
    }
    match a {
        Some(h) => {
            let p = choose|p: Primitive| #[trigger] ps.contains(p) && cand(p.index) == Some(h);
            assert(prims.contains(p));
            assert forall|q: Primitive| #[trigger] prims.contains(q) implies match cand(q.index) {
                Some(c) => h.0 <= c.0,
                None => true,
            } by {
                assert(ps.contains(q));
            }
        },
        None => {
            assert forall|q: Primitive| #[trigger] prims.contains(q) implies match cand(q.index) {
                Some(c) => t_max <= c.0,
                None => true,
            } by {
                assert(ps.contains(q));
            }
        },
    }
}

} // verus!
