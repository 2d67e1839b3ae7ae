//! The quadtree: a recursive partition of the plane into half-open
//! quadrants, holding points in capacity-bounded leaves.

use vstd::arithmetic::power2::{lemma2_to64, lemma2_to64_rest, lemma_pow2_unfold, pow2};
use vstd::multiset::Multiset;
use vstd::pervasive::unreached;
use vstd::prelude::*;

use crate::geom::{lemma_quadrants_tile, quadrant, Point, Rectangle, UNIT};

verus! {

broadcast use vstd::seq_lib::group_to_multiset_ensures;

/// The two shapes of a node: a branch owning the four quadrant subtrees,
/// or a leaf owning the points of its region in insertion order.
pub enum QuadTreeType {
    Branch(Box<Quadrants>),
    Leaf(Vec<Point>),
}

/// The four children of a branch, one per quadrant of the parent region,
/// in the order of [`quadrant`]: `c0` at the origin corner, `c1` right of
/// it, `c2` above it, `c3` at the far corner.
pub struct Quadrants {
    pub c0: QuadTree,
    pub c1: QuadTree,
    pub c2: QuadTree,
    pub c3: QuadTree,
}

/// A quadtree node: its shape, its region, and the leaf capacity that is
/// shared by the whole tree.
pub struct QuadTree {
    pub branch_type: QuadTreeType,
    pub bounds: Rectangle,
    pub capacity: usize,
}

impl QuadTree {
    pub open spec fn is_leaf(self) -> bool {
        self.branch_type is Leaf
    }

    /// A branch never reverts to a leaf: once true, this stays true.
    pub open spec fn is_branch(self) -> bool {
        self.branch_type is Branch
    }

    /// Well-formedness, maintained by every operation: regions are valid,
    /// the capacity is positive, a leaf holds only points of its region
    /// and respects the capacity whenever it could still split, and the
    /// children of a branch are well-formed trees over the four exact
    /// quadrants of the parent region, with the same capacity.
    pub open spec fn wf(self) -> bool
        decreases self,
    {
        &&& self.bounds.wf()
        &&& self.capacity >= 1
        &&& match self.branch_type {
            QuadTreeType::Leaf(v) => {
                &&& forall|k: int|
                    0 <= k < v@.len() ==> self.bounds.spec_contains(
                        #[trigger] v@[k].x as int,
                        v@[k].y as int,
                    )
                &&& self.bounds.splittable() ==> v@.len() <= self.capacity
            },
            QuadTreeType::Branch(q) => {
                &&& self.bounds.splittable()
                &&& q.c0.bounds == quadrant(self.bounds, 0)
                &&& q.c1.bounds == quadrant(self.bounds, 1)
                &&& q.c2.bounds == quadrant(self.bounds, 2)
                &&& q.c3.bounds == quadrant(self.bounds, 3)
                &&& q.c0.capacity == self.capacity
                &&& q.c1.capacity == self.capacity
                &&& q.c2.capacity == self.capacity
                &&& q.c3.capacity == self.capacity
                &&& q.c0.wf()
                &&& q.c1.wf()
                &&& q.c2.wf()
                &&& q.c3.wf()
            },
        }
    }

    /// All points held anywhere in the tree, with multiplicity.
    pub open spec fn points(self) -> Multiset<Point>
        decreases self,
    {
        match self.branch_type {
            QuadTreeType::Leaf(v) => v@.to_multiset(),
            QuadTreeType::Branch(q) => q.c0.points().add(q.c1.points()).add(q.c2.points()).add(
                q.c3.points(),
            ),
        }
    }

    /// The height of the tree: one for a leaf, one more than the deepest
    /// child for a branch.
    pub open spec fn depth(self) -> nat
        decreases self,
    {
        match self.branch_type {
            QuadTreeType::Leaf(_) => 1,
            QuadTreeType::Branch(q) => 1 + max4(
                q.c0.depth(),
                q.c1.depth(),
                q.c2.depth(),
                q.c3.depth(),
            ),
        }
    }

    /// A fresh tree: a single empty leaf over `[-UNIT, UNIT)` on each
    /// axis, with the given leaf capacity.
    pub fn new(capacity: usize) -> (t: QuadTree)
        requires
            capacity >= 1,
        ensures
            t.wf(),
            t.capacity == capacity,
            t.bounds.x == -UNIT && t.bounds.y == -UNIT,
            t.bounds.w == 2 * UNIT && t.bounds.h == 2 * UNIT,
            t.branch_type matches QuadTreeType::Leaf(v) && v@ == Seq::<Point>::empty(),
            t.points() == Multiset::<Point>::empty(),
            t.depth() == 1,
    {
        let branch_type = QuadTreeType::Leaf(Vec::with_capacity(capacity));
        let bounds = Rectangle::new(-UNIT, -UNIT, 2 * UNIT, 2 * UNIT);
        proof {
            assert(Seq::<Point>::empty().to_multiset() =~= Multiset::<Point>::empty());
        }
        QuadTree { branch_type, bounds, capacity }
    }
}

/// The largest of four naturals.
pub open spec fn max4(a: nat, b: nat, c: nat, d: nat) -> nat {
    let ab = if a >= b { a } else { b };
    let cd = if c >= d { c } else { d };
    if ab >= cd { ab } else { cd }
}

/// The points of `s` that lie in `r`, in order.
pub open spec fn sift(s: Seq<Point>, r: Rectangle) -> Seq<Point>
    decreases s.len(),
{
    if s.len() == 0 {
        Seq::empty()
    } else {
        let rest = sift(s.drop_last(), r);
        if r.spec_contains(s.last().x as int, s.last().y as int) {
            rest.push(s.last())
        } else {
            rest
        }
    }
}

impl QuadTree {
    /// The point list of a leaf node.
    pub open spec fn leaf_points(self) -> Seq<Point>
        recommends
            self.is_leaf(),
    {
        self.branch_type->Leaf_0@
    }

    /// Orders a leaf strictly after a branch over the same region, so that
    /// retrying an insertion right after a subdivision is a descent.
    pub open spec fn leaf_rank(self) -> int {
        if self.is_leaf() {
            1
        } else {
            0
        }
    }

    /// Subdivide a leaf into a branch over four fresh leaves, moving each
    /// point to the quadrant that contains it (order preserved per child).
    #[verifier::loop_isolation(false)]
    fn split_at(self) -> (t: QuadTree)
        requires
            self.wf(),
            self.is_leaf(),
            self.bounds.splittable(),
        ensures
            t.wf(),
            t.bounds == self.bounds,
            t.capacity == self.capacity,
            t.points() == self.points(),
            t.depth() == 2,
            t.branch_type matches QuadTreeType::Branch(q) && {
                &&& q.c0.is_leaf() && q.c0.leaf_points() == sift(
                    self.leaf_points(),
                    quadrant(self.bounds, 0),
                )
                &&& q.c1.is_leaf() && q.c1.leaf_points() == sift(
                    self.leaf_points(),
                    quadrant(self.bounds, 1),
                )
                &&& q.c2.is_leaf() && q.c2.leaf_points() == sift(
                    self.leaf_points(),
                    quadrant(self.bounds, 2),
                )
                &&& q.c3.is_leaf() && q.c3.leaf_points() == sift(
                    self.leaf_points(),
                    quadrant(self.bounds, 3),
                )
            },
    {
        let QuadTree { branch_type, bounds, capacity } = self;
        match branch_type {
            QuadTreeType::Branch(_) => unreached(),
            QuadTreeType::Leaf(v) => {
                let hw = bounds.w / 2;
                let hh = bounds.h / 2;
                let r0 = Rectangle::new(bounds.x, bounds.y, hw, hh);
                let r1 = Rectangle::new(bounds.x + hw, bounds.y, hw, hh);
                let r2 = Rectangle::new(bounds.x, bounds.y + hh, hw, hh);
                let r3 = Rectangle::new(bounds.x + hw, bounds.y + hh, hw, hh);
                proof {
                    assert(r0 == quadrant(bounds, 0));
                    assert(r1 == quadrant(bounds, 1));
                    assert(r2 == quadrant(bounds, 2));
                    assert(r3 == quadrant(bounds, 3));
                }
                let mut v0: Vec<Point> = Vec::with_capacity(capacity);
                let mut v1: Vec<Point> = Vec::with_capacity(capacity);
                let mut v2: Vec<Point> = Vec::with_capacity(capacity);
                let mut v3: Vec<Point> = Vec::with_capacity(capacity);
                let mut j: usize = 0;
                while j < v.len()
                    invariant
                        j <= v@.len(),
                        bounds.wf(),
                        bounds.splittable(),
                        forall|k: int|
                            0 <= k < v@.len() ==> bounds.spec_contains(
                                #[trigger] v@[k].x as int,
                                v@[k].y as int,
                            ),
                        r0 == quadrant(bounds, 0),
                        r1 == quadrant(bounds, 1),
                        r2 == quadrant(bounds, 2),
                        r3 == quadrant(bounds, 3),
                        v0@ == sift(v@.take(j as int), r0),
                        v1@ == sift(v@.take(j as int), r1),
                        v2@ == sift(v@.take(j as int), r2),
                        v3@ == sift(v@.take(j as int), r3),
                        v0@.to_multiset().add(v1@.to_multiset()).add(v2@.to_multiset()).add(
                            v3@.to_multiset(),
                        ) == v@.take(j as int).to_multiset(),
                        v0@.len() + v1@.len() + v2@.len() + v3@.len() == j,
                        forall|k: int|
                            0 <= k < v0@.len() ==> r0.spec_contains(
                                #[trigger] v0@[k].x as int,
                                v0@[k].y as int,
                            ),
                        forall|k: int|
                            0 <= k < v1@.len() ==> r1.spec_contains(
                                #[trigger] v1@[k].x as int,
                                v1@[k].y as int,
                            ),
                        forall|k: int|
                            0 <= k < v2@.len() ==> r2.spec_contains(
                                #[trigger] v2@[k].x as int,
                                v2@[k].y as int,
                            ),
                        forall|k: int|
                            0 <= k < v3@.len() ==> r3.spec_contains(
                                #[trigger] v3@[k].x as int,
                                v3@[k].y as int,
                            ),
                    decreases v@.len() - j,
                {
                    let p = v[j];
                    proof {
                        lemma_quadrants_tile(bounds, p.x as int, p.y as int);
                        let pre = v@.take(j as int);
                        assert(v@.take(j as int + 1) =~= pre.push(p));
                        assert(pre.push(p).drop_last() =~= pre);
                        assert(sift(pre.push(p), r0) == if r0.spec_contains(p.x as int, p.y as int) {
                            sift(pre, r0).push(p)
                        } else {
                            sift(pre, r0)
                        });
                        assert(sift(pre.push(p), r1) == if r1.spec_contains(p.x as int, p.y as int) {
                            sift(pre, r1).push(p)
                        } else {
                            sift(pre, r1)
                        });
                        assert(sift(pre.push(p), r2) == if r2.spec_contains(p.x as int, p.y as int) {
                            sift(pre, r2).push(p)
                        } else {
                            sift(pre, r2)
                        });
                        assert(sift(pre.push(p), r3) == if r3.spec_contains(p.x as int, p.y as int) {
                            sift(pre, r3).push(p)
                        } else {
                            sift(pre, r3)
                        });
                    }
                    if r0.contains(p) {
                        v0.push(p);
                    } else if r1.contains(p) {
                        v1.push(p);
                    } else if r2.contains(p) {
                        v2.push(p);
                    } else {
                        v3.push(p);
                    }
                    proof {
                        assert(v0@.to_multiset().add(v1@.to_multiset()).add(v2@.to_multiset()).add(
                            v3@.to_multiset(),
                        ) =~= v@.take(j as int + 1).to_multiset());
                    }
                    j += 1;
                }
                proof {
                    assert(v@.take(v@.len() as int) =~= v@);
                }
                let c0 = QuadTree { branch_type: QuadTreeType::Leaf(v0), bounds: r0, capacity };
                let c1 = QuadTree { branch_type: QuadTreeType::Leaf(v1), bounds: r1, capacity };
                let c2 = QuadTree { branch_type: QuadTreeType::Leaf(v2), bounds: r2, capacity };
                let c3 = QuadTree { branch_type: QuadTreeType::Leaf(v3), bounds: r3, capacity };
                proof {
                    assert(c0.wf() && c0.points() == v0@.to_multiset() && c0.depth() == 1);
                    assert(c1.wf() && c1.points() == v1@.to_multiset() && c1.depth() == 1);
                    assert(c2.wf() && c2.points() == v2@.to_multiset() && c2.depth() == 1);
                    assert(c3.wf() && c3.points() == v3@.to_multiset() && c3.depth() == 1);
                }
                QuadTree {
                    branch_type: QuadTreeType::Branch(Box::new(Quadrants { c0, c1, c2, c3 })),
                    bounds,
                    capacity,
                }
            },
        }
    }

    /// Insert a point, subdividing on the way down wherever a full leaf is
    /// met; a point outside this node's region leaves the tree untouched.
    fn insert_at(self, p: Point) -> (t: QuadTree)
        requires
            self.wf(),
        ensures
            t.wf(),
            t.bounds == self.bounds,
            t.capacity == self.capacity,
            self.bounds.spec_contains(p.x as int, p.y as int) ==> t.points() == self.points().insert(
                p,
            ),
            !self.bounds.spec_contains(p.x as int, p.y as int) ==> t == self,
            self.depth() <= t.depth(),
            self.is_branch() ==> t.is_branch(),
            (self.is_leaf() && self.leaf_points().len() < self.capacity
                && self.bounds.spec_contains(p.x as int, p.y as int)) ==> (t.is_leaf()
                && t.leaf_points() == self.leaf_points().push(p)),
        decreases self.bounds.w, self.leaf_rank(),
    {
        if !self.bounds.contains(p) {
            return self;
        }
        let full_leaf = match &self.branch_type {
            QuadTreeType::Leaf(v) => v.len() >= self.capacity,
            QuadTreeType::Branch(_) => false,
        };
        let can_split = self.bounds.w % 2 == 0 && self.bounds.h % 2 == 0 && self.bounds.w >= 2
            && self.bounds.h >= 2;
        proof {
            assert(can_split == self.bounds.splittable());
        }
        if full_leaf && can_split {
            let b = self.split_at();
            return b.insert_at(p);
        }
        match self.branch_type {
            QuadTreeType::Branch(q) => {
                // Fan out to all four children: each child re-checks
                // containment, and the quadrants are disjoint, so exactly
                // one of them keeps the point.
                proof {
                    lemma_quadrants_tile(self.bounds, p.x as int, p.y as int);
                    assert(quadrant(self.bounds, 0).w < self.bounds.w);
                }
                let quads = *q;
                let Quadrants { c0, c1, c2, c3 } = quads;
                let ghost old_sum = c0.points().add(c1.points()).add(c2.points()).add(c3.points());
                let c0 = c0.insert_at(p);
                let c1 = c1.insert_at(p);
                let c2 = c2.insert_at(p);
                let c3 = c3.insert_at(p);
                proof {
                    assert(c0.points().add(c1.points()).add(c2.points()).add(c3.points())
                        =~= old_sum.insert(p));
                }
                QuadTree {
                    branch_type: QuadTreeType::Branch(Box::new(Quadrants { c0, c1, c2, c3 })),
                    bounds: self.bounds,
                    capacity: self.capacity,
                }
            },
            QuadTreeType::Leaf(mut v) => {
                v.push(p);
                QuadTree {
                    branch_type: QuadTreeType::Leaf(v),
                    bounds: self.bounds,
                    capacity: self.capacity,
                }
            },
        }
    }

    /// The height of any well-formed tree whose region is narrower than
    /// `pow2(k)` is at most `k + 1`: each branch halves the width, and a
    /// branch's width is at least two.
    pub proof fn lemma_depth_bound(self, k: nat)
        requires
            self.wf(),
            self.bounds.w < pow2(k),
        ensures
            self.depth() <= k + 1,
        decreases self,
    {
        match self.branch_type {
            QuadTreeType::Leaf(_) => {},
            QuadTreeType::Branch(q) => {
                lemma2_to64();
                assert(k >= 1);
                lemma_pow2_unfold(k);
                assert(q.c0.bounds.w == self.bounds.w / 2);
                assert(q.c1.bounds.w == self.bounds.w / 2);
                assert(q.c2.bounds.w == self.bounds.w / 2);
                assert(q.c3.bounds.w == self.bounds.w / 2);
                q.c0.lemma_depth_bound((k - 1) as nat);
                q.c1.lemma_depth_bound((k - 1) as nat);
                q.c2.lemma_depth_bound((k - 1) as nat);
                q.c3.lemma_depth_bound((k - 1) as nat);
            },
        }
    }

    /// The depth of the tree: one for a single leaf, one more than the
    /// deepest quadrant for a branch.
    pub fn max_depth(&self) -> (d: usize)
        requires
            self.wf(),
        ensures
            d == self.depth(),
        decreases self,
    {
        match &self.branch_type {
            QuadTreeType::Leaf(_) => 1,
            QuadTreeType::Branch(q) => {
                proof {
                    lemma2_to64();
                    lemma2_to64_rest();
                    self.lemma_depth_bound(63);
                }
                let d0 = q.c0.max_depth();
                let d1 = q.c1.max_depth();
                let d2 = q.c2.max_depth();
                let d3 = q.c3.max_depth();
                let mut m = d0;
                if d1 > m {
                    m = d1;
                }
                if d2 > m {
                    m = d2;
                }
                if d3 > m {
                    m = d3;
                }
                m + 1
            },
        }
    }

    /// Insert a point in place. A point outside this node's region is
    /// silently discarded and the tree is left exactly as it was; a point
    /// inside it is added to the leaf of the quadrant that owns it, after
    /// any subdivisions that the leaf capacity forces. The depth never
    /// decreases.
    pub fn add_point(&mut self, p: Point)
        requires
            old(self).wf(),
        ensures
            final(self).wf(),
            final(self).bounds == old(self).bounds,
            final(self).capacity == old(self).capacity,
            old(self).bounds.spec_contains(p.x as int, p.y as int) ==> final(self).points() == old(
                self,
            ).points().insert(p),
            !old(self).bounds.spec_contains(p.x as int, p.y as int) ==> *final(self) == *old(self),
            old(self).depth() <= final(self).depth(),
            old(self).is_branch() ==> final(self).is_branch(),
            (old(self).is_leaf() && old(self).leaf_points().len() < old(self).capacity
                && old(self).bounds.spec_contains(p.x as int, p.y as int)) ==> final(self).is_leaf()
                && final(self).leaf_points() == old(self).leaf_points().push(p),
    {
        let t = take_tree(self);
        *self = t.insert_at(p);
    }

    /// Subdivide this leaf in place into a branch over four quadrant
    /// leaves. Every point moves to the one child whose region contains
    /// it, keeping its order among that child's points; no point is lost
    /// or duplicated.
    pub fn split(&mut self)
        requires
            old(self).wf(),
            old(self).is_leaf(),
            old(self).bounds.splittable(),
        ensures
            final(self).wf(),
            final(self).bounds == old(self).bounds,
            final(self).capacity == old(self).capacity,
            final(self).points() == old(self).points(),
            final(self).depth() == 2,
            final(self).branch_type matches QuadTreeType::Branch(q) && {
                &&& q.c0.is_leaf() && q.c0.leaf_points() == sift(
                    old(self).leaf_points(),
                    quadrant(old(self).bounds, 0),
                )
                &&& q.c1.is_leaf() && q.c1.leaf_points() == sift(
                    old(self).leaf_points(),
                    quadrant(old(self).bounds, 1),
                )
                &&& q.c2.is_leaf() && q.c2.leaf_points() == sift(
                    old(self).leaf_points(),
                    quadrant(old(self).bounds, 2),
                )
                &&& q.c3.is_leaf() && q.c3.leaf_points() == sift(
                    old(self).leaf_points(),
                    quadrant(old(self).bounds, 3),
                )
            },
    {
        let t = take_tree(self);
        *self = t.split_at();
    }
}

/// How many of the four quadrant point lists produced by a split of a
/// leaf with points `s` and region `r` contain the point `p`.
pub open spec fn sift_hits(s: Seq<Point>, r: Rectangle, p: Point) -> int {
    (if sift(s, quadrant(r, 0)).contains(p) { 1int } else { 0 })
        + (if sift(s, quadrant(r, 1)).contains(p) { 1int } else { 0 })
        + (if sift(s, quadrant(r, 2)).contains(p) { 1int } else { 0 })
        + (if sift(s, quadrant(r, 3)).contains(p) { 1int } else { 0 })
}

/// A point is among the points of `s` kept by `r` exactly when it is in
/// `s` and `r` contains it.
pub proof fn lemma_sift_membership(s: Seq<Point>, r: Rectangle)
    ensures
        forall|p: Point| #[trigger] sift(s, r).contains(p) <==> s.contains(p)
            && r.spec_contains(p.x as int, p.y as int),
    decreases s.len(),
{
    broadcast use vstd::seq_lib::lemma_seq_contains_after_push;

    if s.len() == 0 {
    } else {
        let t = s.drop_last();
        let e = s.last();
        lemma_sift_membership(t, r);
        assert(s =~= t.push(e));
        assert(sift(s, r) == if r.spec_contains(e.x as int, e.y as int) {
            sift(t, r).push(e)
        } else {
            sift(t, r)
        });
    }
}

/// No loss on split: every point held by a leaf immediately before a
/// split is found in exactly one of the four point lists handed to the
/// children, namely in the one whose quadrant contains it.
pub proof fn lemma_no_loss_on_split(s: Seq<Point>, r: Rectangle)
    requires
        r.wf(),
        r.splittable(),
        forall|k: int|
            0 <= k < s.len() ==> r.spec_contains(#[trigger] s[k].x as int, s[k].y as int),
    ensures
        forall|k: int| 0 <= k < s.len() ==> #[trigger] sift_hits(s, r, s[k]) == 1,
{
    lemma_sift_membership(s, quadrant(r, 0));
    lemma_sift_membership(s, quadrant(r, 1));
    lemma_sift_membership(s, quadrant(r, 2));
    lemma_sift_membership(s, quadrant(r, 3));
    assert forall|k: int| 0 <= k < s.len() implies #[trigger] sift_hits(s, r, s[k]) == 1 by {
        let p = s[k];
        assert(s.contains(p));
        lemma_quadrants_tile(r, p.x as int, p.y as int);
    }
}

impl QuadTree {
    /// Each leaf of the tree respects the capacity, as long as its region
    /// can still be subdivided.
    pub open spec fn leaves_within_capacity(self) -> bool
        decreases self,
    {
        match self.branch_type {
            QuadTreeType::Leaf(v) => self.bounds.splittable() ==> v@.len() <= self.capacity,
            QuadTreeType::Branch(q) => {
                &&& q.c0.leaves_within_capacity()
                &&& q.c1.leaves_within_capacity()
                &&& q.c2.leaves_within_capacity()
                &&& q.c3.leaves_within_capacity()
            },
        }
    }

    /// Capacity respected: in a well-formed tree — as `new` constructs it
    /// and `add_point` and `split` keep it — no subdividable leaf holds
    /// more than `capacity` points.
    pub proof fn lemma_capacity_respected(self)
        requires
            self.wf(),
        ensures
            self.leaves_within_capacity(),
        decreases self,
    {
        match self.branch_type {
            QuadTreeType::Leaf(_) => {},
            QuadTreeType::Branch(q) => {
                q.c0.lemma_capacity_respected();
                q.c1.lemma_capacity_respected();
                q.c2.lemma_capacity_respected();
                q.c3.lemma_capacity_respected();
            },
        }
    }

    /// Every point held anywhere in a well-formed tree lies inside this
    /// node's region: out-of-region points are never stored.
    pub proof fn lemma_points_in_bounds(self)
        requires
            self.wf(),
        ensures
            forall|p: Point|
                #[trigger] self.points().count(p) > 0 ==> self.bounds.spec_contains(
                    p.x as int,
                    p.y as int,
                ),
        decreases self,
    {
        match self.branch_type {
            QuadTreeType::Leaf(v) => {
                assert forall|p: Point| #[trigger] self.points().count(p) > 0 implies self
                    .bounds.spec_contains(p.x as int, p.y as int) by {
                    assert(v@.to_multiset().contains(p));
                    let k = choose|k: int| 0 <= k < v@.len() && v@[k] == p;
                    assert(self.bounds.spec_contains(v@[k].x as int, v@[k].y as int));
                }
            },
            QuadTreeType::Branch(q) => {
                q.c0.lemma_points_in_bounds();
                q.c1.lemma_points_in_bounds();
                q.c2.lemma_points_in_bounds();
                q.c3.lemma_points_in_bounds();
                assert forall|p: Point| #[trigger] self.points().count(p) > 0 implies self
                    .bounds.spec_contains(p.x as int, p.y as int) by {
                    lemma_quadrants_tile(self.bounds, p.x as int, p.y as int);
                    if q.c0.points().count(p) > 0 {
                    } else if q.c1.points().count(p) > 0 {
                    } else if q.c2.points().count(p) > 0 {
                    } else {
                        assert(q.c3.points().count(p) > 0);
                    }
                }
            },
        }
    }
}

/// Move a tree out of a mutable slot, leaving a trivial placeholder that
/// the caller overwrites at once.
fn take_tree(slot: &mut QuadTree) -> (t: QuadTree)
    ensures
        t == *old(slot),
{
    let mut tmp = QuadTree {
        branch_type: QuadTreeType::Leaf(Vec::new()),
        bounds: Rectangle::new(0, 0, 0, 0),
        capacity: 1,
    };
    core::mem::swap(slot, &mut tmp);
    tmp
}

} // verus!
