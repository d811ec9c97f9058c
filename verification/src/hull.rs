//! Convex polygons and the separating-axis overlap test.
//!
//! A hull keeps its vertices in clockwise order together with the outward
//! normals of its edges, reduced to primitive integer vectors and
//! deduplicated up to sign. The `ignored_normals` list marks directions
//! whose contacts are suppressed; the tile map uses it to make adjacent
//! tiles behave as one seamless surface.

use vstd::prelude::*;
use crate::vec2::{Vec2, spec_prim, prim_dir, COORD_LIMIT, AXIS_LIMIT};
use crate::aabb::AABB;

verus! {

/// Largest magnitude a projection of a bounded point onto a bounded axis
/// may have.
pub const PROJ_LIMIT: i64 = 0x2_0000_0000_0000;

#[derive(Debug)]
pub struct ConvexHull {
    points: Vec<Vec2>,
    axes: Vec<Vec2>,
    ignored_normals: Vec<Vec2>,
}

/// A contact along a separating axis candidate: the minimum translation
/// vector is `amount * axis / |axis|^2`, and the true depth is
/// `amount / |axis|`. `axis` is primitive, so it also serves as the exact
/// contact normal direction.
#[derive(Clone, Copy, PartialEq, Eq, Structural, Debug)]
pub struct Contact {
    pub amount: i64,
    pub axis: Vec2,
}

/// `amount1 / |axis1| <= amount2 / |axis2|`, compared exactly by squaring.
pub open spec fn spec_depth_le(amount1: int, axis1: Vec2, amount2: int, axis2: Vec2) -> bool {
    amount1 * amount1 * axis2.spec_sq() <= amount2 * amount2 * axis1.spec_sq()
}

/// Strict version of `spec_depth_le`.
pub open spec fn spec_depth_lt(amount1: int, axis1: Vec2, amount2: int, axis2: Vec2) -> bool {
    amount1 * amount1 * axis2.spec_sq() < amount2 * amount2 * axis1.spec_sq()
}

/// Exact comparison of two contact depths (`c1` strictly shallower).
pub fn depth_lt(c1: &Contact, c2: &Contact) -> (r: bool)
    requires
        0 <= c1.amount <= 2 * PROJ_LIMIT as int,
        0 <= c2.amount <= 2 * PROJ_LIMIT as int,
        c1.axis.bounded(AXIS_LIMIT as int),
        c2.axis.bounded(AXIS_LIMIT as int),
    ensures
        r == spec_depth_lt(c1.amount as int, c1.axis, c2.amount as int, c2.axis),
{
    proof {
        lemma_depth_products_bounded(c1.amount as int, c2.axis);
        lemma_depth_products_bounded(c2.amount as int, c1.axis);
        assert(
            0 <= c1.axis.x * c1.axis.x <= 0x1_0000 && 0 <= c1.axis.y * c1.axis.y <= 0x1_0000
            && 0 <= c2.axis.x * c2.axis.x <= 0x1_0000 && 0 <= c2.axis.y * c2.axis.y <= 0x1_0000
        ) by (nonlinear_arith)
            requires c1.axis.bounded(0x100), c2.axis.bounded(0x100);
        assert(
            0 <= c1.amount * c1.amount <= 0x10_0000_0000_0000_0000_0000_0000
            && 0 <= c2.amount * c2.amount <= 0x10_0000_0000_0000_0000_0000_0000
        ) by (nonlinear_arith)
            requires 0 <= c1.amount <= 0x4_0000_0000_0000, 0 <= c2.amount <= 0x4_0000_0000_0000;
    }
    let s1 = c1.axis.x as i128 * c1.axis.x as i128 + c1.axis.y as i128 * c1.axis.y as i128;
    let s2 = c2.axis.x as i128 * c2.axis.x as i128 + c2.axis.y as i128 * c2.axis.y as i128;
    let a1 = c1.amount as i128 * c1.amount as i128;
    let a2 = c2.amount as i128 * c2.amount as i128;
    proof {
        assert(a1 * s2 == c1.amount * c1.amount * c2.axis.spec_sq()) by (nonlinear_arith)
            requires
                a1 == c1.amount * c1.amount,
                s2 == c2.axis.x * c2.axis.x + c2.axis.y * c2.axis.y;
        assert(a2 * s1 == c2.amount * c2.amount * c1.axis.spec_sq()) by (nonlinear_arith)
            requires
                a2 == c2.amount * c2.amount,
                s1 == c1.axis.x * c1.axis.x + c1.axis.y * c1.axis.y;
    }
    let d1 = a1 * s2;
    let d2 = a2 * s1;
    d1 < d2
}

/// The squared-depth products stay far inside `i128`.
proof fn lemma_depth_products_bounded(amount: int, axis: Vec2)
    requires
        0 <= amount <= 2 * PROJ_LIMIT as int,
        axis.bounded(AXIS_LIMIT as int),
    ensures
        0 <= amount * amount * axis.spec_sq() <= i128::MAX,
        0 <= axis.spec_sq() <= 0x2_0000,
{
    assert(0 <= axis.spec_sq() <= 0x2_0000) by (nonlinear_arith)
        requires axis.bounded(0x100);
    assert(0 <= amount * amount <= 0x10_0000_0000_0000_0000_0000_0000) by (nonlinear_arith)
        requires 0 <= amount <= 0x4_0000_0000_0000;
    assert(
        0 <= amount * amount * axis.spec_sq() <= 0x200_0000_0000_0000_0000_0000_0000_0000
    ) by (nonlinear_arith)
        requires
            0 <= amount * amount <= 0x10_0000_0000_0000_0000_0000_0000,
            0 <= axis.spec_sq() <= 0x2_0000;
}

/// Least projection of a non-empty point sequence onto `a`.
pub open spec fn spec_proj_min(s: Seq<Vec2>, a: Vec2) -> int
    decreases s.len(),
{
    if s.len() <= 1 {
        a.spec_dot(s[0])
    } else {
        let prev = spec_proj_min(s.drop_last(), a);
        let last = a.spec_dot(s.last());
        if last < prev { last } else { prev }
    }
}

/// Greatest projection of a non-empty point sequence onto `a`.
pub open spec fn spec_proj_max(s: Seq<Vec2>, a: Vec2) -> int
    decreases s.len(),
{
    if s.len() <= 1 {
        a.spec_dot(s[0])
    } else {
        let prev = spec_proj_max(s.drop_last(), a);
        let last = a.spec_dot(s.last());
        if last > prev { last } else { prev }
    }
}

/// Projections of bounded points onto a bounded axis stay in
/// `[-PROJ_LIMIT, PROJ_LIMIT]`.
proof fn lemma_proj_bounded(p: Vec2, a: Vec2)
    requires
        p.bounded(COORD_LIMIT as int),
        a.bounded(AXIS_LIMIT as int),
    ensures
        -PROJ_LIMIT <= a.spec_dot(p) <= PROJ_LIMIT,
        -0x1_0000_0000_0000 <= a.x * p.x <= 0x1_0000_0000_0000,
        -0x1_0000_0000_0000 <= a.y * p.y <= 0x1_0000_0000_0000,
{
    assert(
        -0x1_0000_0000_0000 <= a.x * p.x <= 0x1_0000_0000_0000
        && -0x1_0000_0000_0000 <= a.y * p.y <= 0x1_0000_0000_0000
    ) by (nonlinear_arith)
        requires p.bounded(0x100_0000_0000), a.bounded(0x100);
}

/// Min and max projections of a point list onto an axis.
pub fn projected_range(points: &[Vec2], axis: Vec2) -> (r: (i64, i64))
    requires
        points@.len() >= 1,
        forall|i: int| 0 <= i < points@.len() ==> points@[i].bounded(COORD_LIMIT as int),
        axis.bounded(AXIS_LIMIT as int),
    ensures
        r.0 == spec_proj_min(points@, axis),
        r.1 == spec_proj_max(points@, axis),
        -PROJ_LIMIT <= r.0 <= r.1 <= PROJ_LIMIT,
{
    proof {
        lemma_proj_bounded(points@[0], axis);
    }
    let first = axis.dot(points[0]);
    let mut lo = first;
    let mut hi = first;
    let mut i: usize = 1;
    proof {
        assert(points@.subrange(0, 1) =~= seq![points@[0]]);
    }
    while i < points.len()
        invariant
            1 <= i <= points@.len(),
            forall|j: int| 0 <= j < points@.len() ==> points@[j].bounded(COORD_LIMIT as int),
            axis.bounded(AXIS_LIMIT as int),
            lo == spec_proj_min(points@.subrange(0, i as int), axis),
            hi == spec_proj_max(points@.subrange(0, i as int), axis),
            -PROJ_LIMIT <= lo <= hi <= PROJ_LIMIT,
        decreases points@.len() - i,
    {
        proof {
            lemma_proj_bounded(points@[i as int], axis);
            assert(points@.subrange(0, i + 1).drop_last() =~= points@.subrange(0, i as int));
            assert(points@.subrange(0, i + 1).last() == points@[i as int]);
        }
        let p = axis.dot(points[i]);
        if p < lo {
            lo = p;
        }
        if p > hi {
            hi = p;
        }
        i = i + 1;
    }
    proof {
        assert(points@.subrange(0, points@.len() as int) =~= points@);
    }
    (lo, hi)
}

/// The direction of the `i`-th edge (wrapping around at the end).
pub open spec fn spec_edge(s: Seq<Vec2>, i: int) -> Vec2 {
    let next = s[if i + 1 == s.len() { 0 } else { i + 1 }];
    next.spec_sub(s[i])
}

/// The outward normal of the `i`-th edge of a clockwise point sequence,
/// as a primitive vector: the edge direction reduced and rotated a quarter
/// turn.
pub open spec fn spec_edge_normal(s: Seq<Vec2>, i: int) -> Vec2 {
    spec_prim(spec_edge(s, i)).spec_perp()
}

/// Every point shifted by `v` (componentwise, as the machine computes
/// it; exact whenever no coordinate overflows).
pub open spec fn spec_shifted(s: Seq<Vec2>, v: Vec2) -> Seq<Vec2> {
    Seq::new(s.len(), |i: int| Vec2 {
        x: (s[i].x + v.x) as i64,
        y: (s[i].y + v.y) as i64,
    })
}

/// Shifting a bounded point set by `v` and then by `-v` restores it
/// exactly: rigid translation loses nothing.
pub proof fn lemma_translate_round_trip(s: Seq<Vec2>, v: Vec2)
    requires
        forall|i: int| 0 <= i < s.len() ==> (#[trigger] s[i]).bounded(2 * COORD_LIMIT as int),
        v.bounded(2 * COORD_LIMIT as int),
    ensures
        spec_shifted(spec_shifted(s, v), v.spec_neg()) == s,
{
    assert forall|i: int| 0 <= i < s.len()
        implies spec_shifted(spec_shifted(s, v), v.spec_neg())[i] == s[i] by {
        assert(s[i].bounded(2 * COORD_LIMIT as int));
    }
    assert(spec_shifted(spec_shifted(s, v), v.spec_neg()) =~= s);
}

/// `v` or its negation occurs in `s`.
pub open spec fn contains_up_to_sign(s: Seq<Vec2>, v: Vec2) -> bool {
    s.contains(v) || s.contains(v.spec_neg())
}

/// The axes collected from the first `n` edges: each edge normal, skipping
/// those equal to or the negation of an earlier one.
pub open spec fn spec_axes_upto(s: Seq<Vec2>, n: int) -> Seq<Vec2>
    decreases n,
{
    if n <= 0 {
        Seq::empty()
    } else {
        let prev = spec_axes_upto(s, n - 1);
        let nrm = spec_edge_normal(s, n - 1);
        if contains_up_to_sign(prev, nrm) {
            prev
        } else {
            prev.push(nrm)
        }
    }
}

/// The deduplicated outward normals of all edges.
pub open spec fn spec_axes(s: Seq<Vec2>) -> Seq<Vec2> {
    spec_axes_upto(s, s.len() as int)
}

/// The mathematical content of a hull: its vertex, axis and suppressed
/// normal sequences. The overlap queries are defined over views, so they
/// can also be stated for bodies that are only described, such as the
/// player's box held at a trial position.
#[verifier::ext_equal]
pub struct HullView {
    pub points: Seq<Vec2>,
    pub axes: Seq<Vec2>,
    pub ignored: Seq<Vec2>,
}

impl ConvexHull {
    /// The view of this hull.
    pub closed spec fn spec_view(self) -> HullView {
        HullView { points: self.points@, axes: self.axes@, ignored: self.ignored_normals@ }
    }

    pub open spec fn spec_points(self) -> Seq<Vec2> {
        self.spec_view().points
    }

    pub open spec fn spec_axes_of(self) -> Seq<Vec2> {
        self.spec_view().axes
    }

    pub open spec fn spec_ignored(self) -> Seq<Vec2> {
        self.spec_view().ignored
    }

    /// Basic well-formedness: at least three bounded vertices and at least
    /// one bounded, nonzero axis.
    pub open spec fn wf(self) -> bool {
        &&& 3 <= self.spec_points().len() <= 0x1000_0000
        &&& forall|i: int| 0 <= i < self.spec_points().len()
            ==> (#[trigger] self.spec_points()[i]).bounded(COORD_LIMIT as int)
        &&& 1 <= self.spec_axes_of().len() <= self.spec_points().len()
        &&& forall|i: int| 0 <= i < self.spec_axes_of().len()
            ==> (#[trigger] self.spec_axes_of()[i]).bounded(AXIS_LIMIT as int)
                && !self.spec_axes_of()[i].is_zero()
    }

    /// A hull from raw parts; the caller supplies the outward normals.
    pub fn from_raw(points: Vec<Vec2>, normals: Vec<Vec2>, ignored_normals: Option<Vec<Vec2>>) -> (r: ConvexHull)
        ensures
            r.spec_points() == points@,
            r.spec_axes_of() == normals@,
            ignored_normals is Some ==> r.spec_ignored() == ignored_normals->Some_0@,
            ignored_normals is None ==> r.spec_ignored() == Seq::<Vec2>::empty(),
    {
        let ignored = match ignored_normals {
            Some(normals) => normals,
            None => {
                let empty: Vec<Vec2> = Vec::new();
                proof {
                    assert(empty@ =~= Seq::<Vec2>::empty());
                }
                empty
            }
        };
        ConvexHull { points, axes: normals, ignored_normals: ignored }
    }

    /// The vertices, in clockwise order.
    pub fn get_points(&self) -> (r: &[Vec2])
        ensures
            r@ == self.spec_points(),
    {
        self.points.as_slice()
    }

    /// The deduplicated outward normals.
    pub fn get_axes(&self) -> (r: &[Vec2])
        ensures
            r@ == self.spec_axes_of(),
    {
        self.axes.as_slice()
    }

    /// The currently suppressed normals.
    pub fn get_ignored_normals(&self) -> (r: &[Vec2])
        ensures
            r@ == self.spec_ignored(),
    {
        self.ignored_normals.as_slice()
    }

    /// Suppress contacts whose resolving normal is `normal`.
    pub fn ignore_normal(&mut self, normal: Vec2)
        ensures
            final(self).spec_ignored() == old(self).spec_ignored().push(normal),
            final(self).spec_points() == old(self).spec_points(),
            final(self).spec_axes_of() == old(self).spec_axes_of(),
            old(self).wf() ==> final(self).wf(),
    {
        self.ignored_normals.push(normal);
    }

    /// Forget every suppressed normal.
    pub fn clear_ignored_normals(&mut self)
        ensures
            final(self).spec_ignored() == Seq::<Vec2>::empty(),
            final(self).spec_points() == old(self).spec_points(),
            final(self).spec_axes_of() == old(self).spec_axes_of(),
            old(self).wf() ==> final(self).wf(),
    {
        self.ignored_normals.clear();
        proof {
            assert(self.ignored_normals@ =~= Seq::<Vec2>::empty());
        }
    }

    /// Rigidly shift every vertex; axes are translation invariant.
    pub fn translate(&mut self, amount: Vec2)
        requires
            forall|i: int| 0 <= i < old(self).spec_points().len()
                ==> (#[trigger] old(self).spec_points()[i]).bounded(2 * COORD_LIMIT as int),
            amount.bounded(2 * COORD_LIMIT as int),
        ensures
            final(self).spec_points().len() == old(self).spec_points().len(),
            forall|i: int| 0 <= i < old(self).spec_points().len()
                ==> #[trigger] final(self).spec_points()[i]
                    == (Vec2 {
                        x: (old(self).spec_points()[i].x + amount.x) as i64,
                        y: (old(self).spec_points()[i].y + amount.y) as i64,
                    }),
            final(self).spec_axes_of() == old(self).spec_axes_of(),
            final(self).spec_ignored() == old(self).spec_ignored(),
            final(self).spec_points() == spec_shifted(old(self).spec_points(), amount),
    {
        let n = self.points.len();
        let mut i: usize = 0;
        while i < n
            invariant
                n == self.points@.len(),
                0 <= i <= n,
                forall|j: int| 0 <= j < n
                    ==> (#[trigger] old(self).spec_points()[j]).bounded(2 * COORD_LIMIT as int),
                amount.bounded(2 * COORD_LIMIT as int),
                forall|j: int| i <= j < n ==> self.points@[j] == old(self).spec_points()[j],
                forall|j: int| 0 <= j < i
                    ==> #[trigger] self.points@[j]
                        == (Vec2 {
                            x: (old(self).spec_points()[j].x + amount.x) as i64,
                            y: (old(self).spec_points()[j].y + amount.y) as i64,
                        }),
                self.axes@ == old(self).spec_axes_of(),
                self.ignored_normals@ == old(self).spec_ignored(),
            decreases n - i,
        {
            let p = self.points[i];
            proof {
                assert(p == old(self).spec_points()[i as int]);
                assert(old(self).spec_points()[i as int].bounded(2 * COORD_LIMIT as int));
            }
            self.points[i] = Vec2 { x: p.x + amount.x, y: p.y + amount.y };
            i = i + 1;
        }
        proof {
            assert(self.points@ =~= spec_shifted(old(self).spec_points(), amount));
        }
    }

    /// The smallest box enclosing the vertices, all edges collidable.
    pub fn bounding_box(&self) -> (r: AABB)
        requires
            self.wf(),
        ensures
            r.left == spec_proj_min(self.spec_points(), Vec2 { x: 1, y: 0 }),
            r.right == spec_proj_max(self.spec_points(), Vec2 { x: 1, y: 0 }),
            r.top == spec_proj_min(self.spec_points(), Vec2 { x: 0, y: 1 }),
            r.bottom == spec_proj_max(self.spec_points(), Vec2 { x: 0, y: 1 }),
            r.edge_left && r.edge_right && r.edge_top && r.edge_bottom,
            r.coords_bounded(COORD_LIMIT as int),
    {
        let (left, right) = projected_range(self.points.as_slice(), Vec2 { x: 1, y: 0 });
        let (top, bottom) = projected_range(self.points.as_slice(), Vec2 { x: 0, y: 1 });
        proof {
            lemma_unit_proj_bounds(self.points@);
        }
        AABB {
            left,
            right,
            top,
            bottom,
            edge_left: true,
            edge_right: true,
            edge_top: true,
            edge_bottom: true,
        }
    }
}

/// Dotting with the unit axes picks out the coordinates.
proof fn lemma_unit_dot(p: Vec2)
    ensures
        (Vec2 { x: 1, y: 0 }).spec_dot(p) == p.x,
        (Vec2 { x: 0, y: 1 }).spec_dot(p) == p.y,
{
    assert(1 * p.x + 0 * p.y == p.x) by (nonlinear_arith);
    assert(0 * p.x + 1 * p.y == p.y) by (nonlinear_arith);
}

/// Projections onto the unit axes of bounded points are the coordinates
/// themselves, hence bounded by `COORD_LIMIT`.
proof fn lemma_unit_proj_bounds(s: Seq<Vec2>)
    requires
        s.len() >= 1,
        forall|i: int| 0 <= i < s.len() ==> (#[trigger] s[i]).bounded(COORD_LIMIT as int),
    ensures
        -COORD_LIMIT <= spec_proj_min(s, Vec2 { x: 1, y: 0 })
            <= spec_proj_max(s, Vec2 { x: 1, y: 0 }) <= COORD_LIMIT,
        -COORD_LIMIT <= spec_proj_min(s, Vec2 { x: 0, y: 1 })
            <= spec_proj_max(s, Vec2 { x: 0, y: 1 }) <= COORD_LIMIT,
    decreases s.len(),
{
    let xa = Vec2 { x: 1, y: 0 };
    let ya = Vec2 { x: 0, y: 1 };
    if s.len() <= 1 {
        assert(s[0].bounded(COORD_LIMIT as int));
        lemma_unit_dot(s[0]);
    } else {
        assert(forall|i: int| 0 <= i < s.drop_last().len()
            ==> (#[trigger] s.drop_last()[i]).bounded(COORD_LIMIT as int));
        lemma_unit_proj_bounds(s.drop_last());
        assert(s.last().bounded(COORD_LIMIT as int));
        lemma_unit_dot(s.last());
    }
}

/// The conditions under which `from_points` builds a hull: at least three
/// bounded vertices, no repeated consecutive vertex, and every edge
/// direction reducing to a primitive vector within `AXIS_LIMIT`.
pub open spec fn well_shaped(s: Seq<Vec2>) -> bool {
    &&& 3 <= s.len() <= 0x1000_0000
    &&& forall|i: int| 0 <= i < s.len() ==> (#[trigger] s[i]).bounded(COORD_LIMIT as int)
    &&& forall|i: int| 0 <= i < s.len() ==> !(#[trigger] spec_edge(s, i)).is_zero()
    &&& forall|i: int| 0 <= i < s.len()
        ==> (#[trigger] spec_prim(spec_edge(s, i))).bounded(AXIS_LIMIT as int)
}

/// The axes of the first `n` edges contain no more than `n` entries.
proof fn lemma_axes_upto_len(s: Seq<Vec2>, n: int)
    requires
        n >= 0,
    ensures
        spec_axes_upto(s, n).len() <= n,
        n >= 1 ==> spec_axes_upto(s, n).len() >= 1,
    decreases n,
{
    if n > 0 {
        lemma_axes_upto_len(s, n - 1);
    }
}

impl ConvexHull {
    /// Build a hull from vertices in clockwise order, collecting each
    /// edge's outward normal and skipping duplicates up to sign.
    pub fn from_points(points: &[Vec2]) -> (r: ConvexHull)
        requires
            well_shaped(points@),
        ensures
            r.spec_points() == points@,
            r.spec_axes_of() == spec_axes(points@),
            r.spec_ignored() == Seq::<Vec2>::empty(),
            r.wf(),
    {
        let ghost s = points@;
        let n = points.len();
        let mut pts: Vec<Vec2> = Vec::new();
        let mut i: usize = 0;
        while i < n
            invariant
                n == s.len(),
                0 <= i <= n,
                pts@ == s.subrange(0, i as int),
                s == points@,
            decreases n - i,
        {
            pts.push(points[i]);
            proof {
                assert(pts@ =~= s.subrange(0, i + 1));
            }
            i = i + 1;
        }
        proof {
            assert(pts@ =~= s);
        }

        let mut axes: Vec<Vec2> = Vec::new();
        let mut i: usize = 0;
        proof {
            assert(axes@ =~= spec_axes_upto(s, 0));
        }
        while i < n
            invariant
                n == s.len(),
                0 <= i <= n,
                well_shaped(s),
                s == points@,
                axes@ == spec_axes_upto(s, i as int),
                axes@.len() <= i,
                forall|j: int| 0 <= j < axes@.len()
                    ==> (#[trigger] axes@[j]).bounded(AXIS_LIMIT as int) && !axes@[j].is_zero(),
            decreases n - i,
        {
            let a = points[i];
            let b = if i + 1 == n { points[0] } else { points[i + 1] };
            proof {
                assert(spec_edge(s, i as int) == b.spec_sub(a));
                assert(s[i as int].bounded(COORD_LIMIT as int));
                assert(s[if i + 1 == n { 0int } else { i as int + 1 }].bounded(COORD_LIMIT as int));
            }
            let d = b.sub(a);
            let p = prim_dir(d);
            proof {
                assert(p.bounded(AXIS_LIMIT as int));
            }
            let normal = p.perp();
            let neg_normal = normal.neg();

            let mut dup = false;
            let mut j: usize = 0;
            while j < axes.len()
                invariant
                    0 <= j <= axes@.len(),
                    dup ==> contains_up_to_sign(axes@, normal),
                    !dup ==> forall|k: int| 0 <= k < j
                        ==> axes@[k] != normal && axes@[k] != normal.spec_neg(),
                    neg_normal == normal.spec_neg(),
                decreases axes@.len() - j,
            {
                let candidate = axes[j];
                if candidate == normal || candidate == neg_normal {
                    dup = true;
                }
                j = j + 1;
            }
            proof {
                if !dup {
                    assert(!axes@.contains(normal));
                    assert(!axes@.contains(normal.spec_neg()));
                }
                assert(normal == spec_edge_normal(s, i as int));
            }
            if !dup {
                axes.push(normal);
            }
            proof {
                assert(axes@ == spec_axes_upto(s, i + 1));
            }
            i = i + 1;
        }
        proof {
            lemma_axes_upto_len(s, n as int);
        }
        let empty: Vec<Vec2> = Vec::new();
        proof {
            assert(empty@ =~= Seq::<Vec2>::empty());
        }
        ConvexHull { points: pts, axes, ignored_normals: empty }
    }
}

/// True if `x` occurs in `v`.
fn contains_vec(v: &Vec<Vec2>, x: Vec2) -> (r: bool)
    ensures
        r == v@.contains(x),
{
    let mut i: usize = 0;
    let mut found = false;
    while i < v.len()
        invariant
            0 <= i <= v@.len(),
            found ==> v@.contains(x),
            !found ==> forall|j: int| 0 <= j < i ==> v@[j] != x,
        decreases v@.len() - i,
    {
        if v[i] == x {
            found = true;
        }
        i = i + 1;
    }
    found
}

/// The concatenation of both views' axis lists, tested in order.
pub open spec fn axes_all_v(a: HullView, b: HullView) -> Seq<Vec2> {
    a.axes + b.axes
}

/// The concatenation of both hulls' axis lists, tested in order.
pub open spec fn axes_all(a: ConvexHull, b: ConvexHull) -> Seq<Vec2> {
    axes_all_v(a.spec_view(), b.spec_view())
}

/// The projections of the two bodies onto axis `i` do not strictly
/// overlap: a separating axis.
pub open spec fn gap_at_v(a: HullView, b: HullView, i: int) -> bool {
    let ax = axes_all_v(a, b)[i];
    !(spec_proj_min(a.points, ax) < spec_proj_max(b.points, ax)
        && spec_proj_min(b.points, ax) < spec_proj_max(a.points, ax))
}

/// The projections of the two hulls onto axis `i` do not strictly overlap:
/// a separating axis.
pub open spec fn gap_at(a: ConvexHull, b: ConvexHull, i: int) -> bool {
    gap_at_v(a.spec_view(), b.spec_view(), i)
}

/// The candidate contact along axis `i`: the smaller of the two push-out
/// distances, with the sign chosen so the contact pushes `a` away from `b`.
pub open spec fn cand_at_v(a: HullView, b: HullView, i: int) -> Contact {
    let ax = axes_all_v(a, b)[i];
    let left = spec_proj_max(a.points, ax) - spec_proj_min(b.points, ax);
    let right = spec_proj_max(b.points, ax) - spec_proj_min(a.points, ax);
    if left < right {
        Contact { amount: left as i64, axis: ax.spec_neg() }
    } else {
        Contact { amount: right as i64, axis: ax }
    }
}

/// The candidate contact of two hulls along axis `i`.
pub open spec fn cand_at(a: ConvexHull, b: ConvexHull, i: int) -> Contact {
    cand_at_v(a.spec_view(), b.spec_view(), i)
}

/// The candidate along axis `i` is suppressed by an ignored normal of
/// either body.
pub open spec fn suppressed_at_v(a: HullView, b: HullView, i: int) -> bool {
    let c = cand_at_v(a, b, i);
    a.ignored.contains(c.axis.spec_neg()) || b.ignored.contains(c.axis)
}

/// The candidate of two hulls along axis `i` is suppressed.
pub open spec fn suppressed_at(a: ConvexHull, b: ConvexHull, i: int) -> bool {
    suppressed_at_v(a.spec_view(), b.spec_view(), i)
}

/// The scan over the first `n` axes: `None` once a separating axis is
/// found, otherwise the shallowest unsuppressed candidate so far (earlier
/// axes win ties).
pub open spec fn spec_scan_v(a: HullView, b: HullView, n: int) -> Option<Option<Contact>>
    decreases n,
{
    if n <= 0 {
        Some(None)
    } else {
        match spec_scan_v(a, b, n - 1) {
            None => None,
            Some(best) => {
                if gap_at_v(a, b, n - 1) {
                    None
                } else if suppressed_at_v(a, b, n - 1) {
                    Some(best)
                } else {
                    let c = cand_at_v(a, b, n - 1);
                    match best {
                        None => Some(Some(c)),
                        Some(bc) => {
                            if spec_depth_lt(c.amount as int, c.axis, bc.amount as int, bc.axis) {
                                Some(Some(c))
                            } else {
                                Some(Some(bc))
                            }
                        }
                    }
                }
            }
        }
    }
}

/// The scan of two hulls over the first `n` axes.
pub open spec fn spec_scan(a: ConvexHull, b: ConvexHull, n: int) -> Option<Option<Contact>> {
    spec_scan_v(a.spec_view(), b.spec_view(), n)
}

/// The exact result of the separating-axis overlap test of `a` against
/// `b`: `None` if some axis separates the projections or every candidate
/// is suppressed, otherwise the minimum-depth unsuppressed candidate.
pub open spec fn spec_overlap_v(a: HullView, b: HullView) -> Option<Contact> {
    match spec_scan_v(a, b, axes_all_v(a, b).len() as int) {
        None => None,
        Some(best) => best,
    }
}

/// The exact overlap result of two hulls.
pub open spec fn spec_overlap(a: ConvexHull, b: ConvexHull) -> Option<Contact> {
    spec_overlap_v(a.spec_view(), b.spec_view())
}

/// A separating axis anywhere makes the whole scan report `None`.
pub proof fn lemma_scan_gap(a: ConvexHull, b: ConvexHull, i: int, n: int)
    requires
        0 <= i < n,
        gap_at(a, b, i),
    ensures
        spec_scan(a, b, n) is None,
    decreases n,
{
    if i < n - 1 {
        lemma_scan_gap(a, b, i, n - 1);
    }
}

impl ConvexHull {
    /// Separating-axis overlap: project both hulls onto every collected
    /// axis; any separating axis means no contact; otherwise return the
    /// minimum-depth candidate whose normal is not suppressed, or `None`
    /// if all candidates are suppressed. The returned contact pushes
    /// `self` away from `other`.
    pub fn overlap(&self, other: &ConvexHull) -> (r: Option<Contact>)
        requires
            self.wf(),
            other.wf(),
        ensures
            r == spec_overlap(*self, *other),
            r is Some ==> 0 < r->Some_0.amount <= 2 * PROJ_LIMIT as int,
            r is Some ==> r->Some_0.axis.bounded(AXIS_LIMIT as int) && !r->Some_0.axis.is_zero(),
    {
        let ghost all = axes_all(*self, *other);
        let n1 = self.axes.len();
        let n2 = other.axes.len();
        let mut best: Option<Contact> = None;
        let mut i: usize = 0;
        while i < n1 + n2
            invariant
                self.wf(),
                other.wf(),
                n1 == self.spec_axes_of().len(),
                n2 == other.spec_axes_of().len(),
                all == axes_all(*self, *other),
                0 <= i <= n1 + n2,
                spec_scan(*self, *other, i as int) == Some(best),
                best is Some ==> 0 < best->Some_0.amount <= 2 * PROJ_LIMIT as int,
                best is Some ==> best->Some_0.axis.bounded(AXIS_LIMIT as int)
                    && !best->Some_0.axis.is_zero(),
            decreases n1 + n2 - i,
        {
            let axis = if i < n1 { self.axes[i] } else { other.axes[i - n1] };
            proof {
                assert(axis == all[i as int]);
                assert(axis.bounded(AXIS_LIMIT as int) && !axis.is_zero());
            }
            let (smin, smax) = projected_range(self.points.as_slice(), axis);
            let (omin, omax) = projected_range(other.points.as_slice(), axis);
            if smin < omax && omin < smax {
                let left = smax - omin;
                let right = omax - smin;
                let (amt, normal) = if left < right {
                    (left, axis.neg())
                } else {
                    (right, axis)
                };
                let cand = Contact { amount: amt, axis: normal };
                proof {
                    assert(!gap_at(*self, *other, i as int));
                    assert(cand == cand_at(*self, *other, i as int));
                }
                let neg = normal.neg();
                let sup = contains_vec(&self.ignored_normals, neg)
                    || contains_vec(&other.ignored_normals, normal);
                proof {
                    assert(sup == suppressed_at(*self, *other, i as int));
                }
                if !sup {
                    best = match best {
                        None => Some(cand),
                        Some(b) => {
                            if depth_lt(&cand, &b) {
                                Some(cand)
                            } else {
                                Some(b)
                            }
                        }
                    };
                }
                proof {
                    assert(spec_scan(*self, *other, i + 1) == Some(best));
                }
            } else {
                proof {
                    assert(gap_at(*self, *other, i as int));
                    lemma_scan_gap(*self, *other, i as int, all.len() as int);
                }
                return None;
            }
            i = i + 1;
        }
        best
    }
}

impl AABB {
    /// The degenerate convex polygon of this box: its four corners in
    /// clockwise order, the two unit axes, and one suppressed normal for
    /// each non-collidable edge.
    pub fn to_convex_hull(self) -> (r: ConvexHull)
        requires
            self.coords_bounded(COORD_LIMIT as int),
        ensures
            r.spec_points() == seq![
                Vec2 { x: self.left, y: self.top },
                Vec2 { x: self.right, y: self.top },
                Vec2 { x: self.right, y: self.bottom },
                Vec2 { x: self.left, y: self.bottom },
            ],
            r.spec_axes_of() == seq![Vec2 { x: 1, y: 0 }, Vec2 { x: 0, y: 1 }],
            r.spec_ignored() == spec_aabb_ignored(self),
    {
        let mut points: Vec<Vec2> = Vec::new();
        points.push(Vec2 { x: self.left, y: self.top });
        points.push(Vec2 { x: self.right, y: self.top });
        points.push(Vec2 { x: self.right, y: self.bottom });
        points.push(Vec2 { x: self.left, y: self.bottom });
        let mut axes: Vec<Vec2> = Vec::new();
        axes.push(Vec2 { x: 1, y: 0 });
        axes.push(Vec2 { x: 0, y: 1 });
        let mut ignored: Vec<Vec2> = Vec::new();
        if !self.edge_left {
            ignored.push(Vec2 { x: 1, y: 0 });
        }
        if !self.edge_right {
            ignored.push(Vec2 { x: -1, y: 0 });
        }
        if !self.edge_top {
            ignored.push(Vec2 { x: 0, y: 1 });
        }
        if !self.edge_bottom {
            ignored.push(Vec2 { x: 0, y: -1 });
        }
        proof {
            assert(points@ =~= seq![
                Vec2 { x: self.left, y: self.top },
                Vec2 { x: self.right, y: self.top },
                Vec2 { x: self.right, y: self.bottom },
                Vec2 { x: self.left, y: self.bottom },
            ]);
            assert(axes@ =~= seq![Vec2 { x: 1, y: 0 }, Vec2 { x: 0, y: 1 }]);
            assert(ignored@ =~= spec_aabb_ignored(self));
        }
        ConvexHull { points, axes, ignored_normals: ignored }
    }
}

/// The normals suppressed by a box's edge flags: a non-collidable edge
/// contributes the direction that would push another body through it.
pub open spec fn spec_aabb_ignored(b: AABB) -> Seq<Vec2> {
    let s0 = Seq::<Vec2>::empty();
    let s1 = if !b.edge_left { s0.push(Vec2 { x: 1, y: 0 }) } else { s0 };
    let s2 = if !b.edge_right { s1.push(Vec2 { x: (-1) as i64, y: 0 }) } else { s1 };
    let s3 = if !b.edge_top { s2.push(Vec2 { x: 0, y: 1 }) } else { s2 };
    if !b.edge_bottom { s3.push(Vec2 { x: 0, y: (-1) as i64 }) } else { s3 }
}


/// Projections onto an axis and its negation mirror each other.
pub proof fn lemma_proj_neg(s: Seq<Vec2>, a: Vec2)
    requires
        s.len() >= 1,
        a.bounded(AXIS_LIMIT as int),
    ensures
        spec_proj_min(s, a.spec_neg()) == -spec_proj_max(s, a),
        spec_proj_max(s, a.spec_neg()) == -spec_proj_min(s, a),
    decreases s.len(),
{
    let m = a.spec_neg();
    assert(m.spec_dot(s[0]) == -a.spec_dot(s[0])) by (nonlinear_arith)
        requires m.x == -a.x, m.y == -a.y;
    if s.len() > 1 {
        lemma_proj_neg(s.drop_last(), a);
        assert(m.spec_dot(s.last()) == -a.spec_dot(s.last())) by (nonlinear_arith)
            requires m.x == -a.x, m.y == -a.y;
    }
}

/// Separating-axis soundness for bodies with axis-aligned normals: two
/// hulls whose bounding boxes are strictly disjoint, the first of which
/// carries a horizontal and a vertical outward normal, have no contact in
/// either direction.
pub proof fn lemma_separated_boxes_no_contact(a: ConvexHull, b: ConvexHull)
    requires
        a.wf(),
        b.wf(),
        a.spec_axes_of().contains(Vec2 { x: 1, y: 0 })
            || a.spec_axes_of().contains(Vec2 { x: (-1) as i64, y: 0 }),
        a.spec_axes_of().contains(Vec2 { x: 0, y: 1 })
            || a.spec_axes_of().contains(Vec2 { x: 0, y: (-1) as i64 }),
        spec_proj_max(a.spec_points(), Vec2 { x: 1, y: 0 })
            < spec_proj_min(b.spec_points(), Vec2 { x: 1, y: 0 })
        || spec_proj_max(b.spec_points(), Vec2 { x: 1, y: 0 })
            < spec_proj_min(a.spec_points(), Vec2 { x: 1, y: 0 })
        || spec_proj_max(a.spec_points(), Vec2 { x: 0, y: 1 })
            < spec_proj_min(b.spec_points(), Vec2 { x: 0, y: 1 })
        || spec_proj_max(b.spec_points(), Vec2 { x: 0, y: 1 })
            < spec_proj_min(a.spec_points(), Vec2 { x: 0, y: 1 }),
    ensures
        spec_overlap(a, b) is None,
        spec_overlap(b, a) is None,
{
    let xa = Vec2 { x: 1, y: 0 };
    let ya = Vec2 { x: 0, y: 1 };
    let sep_axis: Vec2 = if spec_proj_max(a.spec_points(), xa)
        < spec_proj_min(b.spec_points(), xa)
        || spec_proj_max(b.spec_points(), xa) < spec_proj_min(a.spec_points(), xa) {
        xa
    } else {
        ya
    };
    let held: Vec2 = if sep_axis == xa {
        if a.spec_axes_of().contains(xa) { xa } else { Vec2 { x: (-1) as i64, y: 0 } }
    } else {
        if a.spec_axes_of().contains(ya) { ya } else { Vec2 { x: 0, y: (-1) as i64 } }
    };
    assert(a.spec_axes_of().contains(held));
    assert(held == sep_axis || held == sep_axis.spec_neg());
    let i = choose|i: int| 0 <= i < a.spec_axes_of().len() && a.spec_axes_of()[i] == held;
    lemma_proj_neg(a.spec_points(), sep_axis);
    lemma_proj_neg(b.spec_points(), sep_axis);
    // The held axis separates the two projection ranges in both hull
    // orders.
    assert(axes_all(a, b)[i] == held);
    assert(gap_at(a, b, i));
    lemma_scan_gap(a, b, i, axes_all(a, b).len() as int);
    let j = b.spec_axes_of().len() + i;
    assert(axes_all(b, a)[j] == held);
    assert(gap_at(b, a, j));
    lemma_scan_gap(b, a, j, axes_all(b, a).len() as int);
}


/// Depth comparison is transitive across the cross-multiplied squares,
/// for nonzero axes.
proof fn lemma_depth_lt_le_trans(
    a1: int, x1: Vec2,
    a2: int, x2: Vec2,
    a3: int, x3: Vec2,
)
    requires
        x1.spec_sq() > 0,
        x2.spec_sq() > 0,
        x3.spec_sq() > 0,
        a1 >= 0,
        a2 >= 0,
        a3 >= 0,
        spec_depth_lt(a1, x1, a2, x2),
        spec_depth_le(a2, x2, a3, x3),
    ensures
        spec_depth_le(a1, x1, a3, x3),
{
    let p1 = a1 * a1;
    let p2 = a2 * a2;
    let p3 = a3 * a3;
    let s1 = x1.spec_sq();
    let s2 = x2.spec_sq();
    let s3 = x3.spec_sq();
    assert(p1 * s3 <= p3 * s1) by (nonlinear_arith)
        requires
            p1 * s2 < p2 * s1,
            p2 * s3 <= p3 * s2,
            s1 > 0,
            s2 > 0,
            s3 > 0,
            p1 >= 0,
            p2 >= 0,
            p3 >= 0;
}

/// Projections of a well-formed hull's points onto a bounded axis stay
/// within `PROJ_LIMIT`.
proof fn lemma_proj_range_bounds(s: Seq<Vec2>, a: Vec2)
    requires
        s.len() >= 1,
        forall|i: int| 0 <= i < s.len() ==> (#[trigger] s[i]).bounded(COORD_LIMIT as int),
        a.bounded(AXIS_LIMIT as int),
    ensures
        -PROJ_LIMIT <= spec_proj_min(s, a) <= spec_proj_max(s, a) <= PROJ_LIMIT,
    decreases s.len(),
{
    lemma_proj_bounded(s[0], a);
    if s.len() > 1 {
        assert(forall|i: int| 0 <= i < s.drop_last().len()
            ==> (#[trigger] s.drop_last()[i]).bounded(COORD_LIMIT as int));
        lemma_proj_range_bounds(s.drop_last(), a);
        lemma_proj_bounded(s.last(), a);
    }
}

/// Candidate axes of well-formed hulls are nonzero and their amounts
/// non-negative wherever no gap separates the projections.
pub proof fn lemma_cand_shape(a: ConvexHull, b: ConvexHull, i: int)
    requires
        a.wf(),
        b.wf(),
        0 <= i < axes_all(a, b).len(),
        !gap_at(a, b, i),
    ensures
        cand_at(a, b, i).axis.spec_sq() > 0,
        cand_at(a, b, i).amount >= 0,
        cand_at(a, b, i).axis.bounded(AXIS_LIMIT as int),
{
    let ax = axes_all(a, b)[i];
    if i < a.spec_axes_of().len() {
        assert(ax == a.spec_axes_of()[i]);
    } else {
        assert(ax == b.spec_axes_of()[i - a.spec_axes_of().len()]);
    }
    assert(!ax.is_zero() && ax.bounded(AXIS_LIMIT as int));
    lemma_proj_range_bounds(a.spec_points(), ax);
    lemma_proj_range_bounds(b.spec_points(), ax);
    let left = spec_proj_max(a.spec_points(), ax) - spec_proj_min(b.spec_points(), ax);
    let right = spec_proj_max(b.spec_points(), ax) - spec_proj_min(a.spec_points(), ax);
    assert(0 < left <= 2 * PROJ_LIMIT as int);
    assert(0 < right <= 2 * PROJ_LIMIT as int);
    let c = cand_at(a, b, i);
    assert(c.axis == ax || c.axis == ax.spec_neg());
    assert(c.axis.spec_sq() > 0) by (nonlinear_arith)
        requires !c.axis.is_zero();
}

/// The minimum-depth law of the scan: a reported contact is the
/// candidate of one unsuppressed axis and is at least as shallow as
/// every unsuppressed candidate; an empty report with no separating
/// axis means every candidate was suppressed.
proof fn lemma_scan_minimal(a: ConvexHull, b: ConvexHull, n: int)
    requires
        a.wf(),
        b.wf(),
        0 <= n <= axes_all(a, b).len(),
    ensures
        spec_scan(a, b, n) is Some ==> forall|i: int| 0 <= i < n ==> !(#[trigger] gap_at(a, b, i)),
        match spec_scan(a, b, n) {
            None => true,
            Some(best) => match best {
                None => forall|i: int| 0 <= i < n ==> suppressed_at(a, b, i),
                Some(c) => {
                    &&& exists|i: int| 0 <= i < n && !suppressed_at(a, b, i) && !gap_at(a, b, i)
                        && c == cand_at(a, b, i)
                    &&& forall|i: int| 0 <= i < n && !(#[trigger] suppressed_at(a, b, i))
                        ==> spec_depth_le(
                            c.amount as int,
                            c.axis,
                            cand_at(a, b, i).amount as int,
                            cand_at(a, b, i).axis,
                        )
                    &&& c.axis.spec_sq() > 0
                    &&& c.amount >= 0
                },
            },
        },
    decreases n,
{
    if n > 0 {
        lemma_scan_minimal(a, b, n - 1);
        let prev = spec_scan(a, b, n - 1);
        if prev is Some && !gap_at(a, b, n - 1) {
            lemma_cand_shape(a, b, n - 1);
            let cnew = cand_at(a, b, n - 1);
            match prev->Some_0 {
                None => {
                    if !suppressed_at(a, b, n - 1) {
                        assert(spec_scan(a, b, n) == Some(Some(cnew)));
                        assert(forall|i: int| 0 <= i < n - 1 ==> suppressed_at(a, b, i));
                        assert(0 <= n - 1 < n && !suppressed_at(a, b, n - 1)
                            && !gap_at(a, b, n - 1) && cnew == cand_at(a, b, n - 1));
                    }
                }
                Some(bc) => {
                    if !suppressed_at(a, b, n - 1) {
                        if spec_depth_lt(cnew.amount as int, cnew.axis, bc.amount as int, bc.axis) {
                            assert forall|i: int| 0 <= i < n
                                && !(#[trigger] suppressed_at(a, b, i))
                                implies spec_depth_le(
                                    cnew.amount as int,
                                    cnew.axis,
                                    cand_at(a, b, i).amount as int,
                                    cand_at(a, b, i).axis,
                                ) by {
                                if i < n - 1 {
                                    lemma_cand_shape(a, b, i);
                                    lemma_depth_lt_le_trans(
                                        cnew.amount as int, cnew.axis,
                                        bc.amount as int, bc.axis,
                                        cand_at(a, b, i).amount as int, cand_at(a, b, i).axis,
                                    );
                                }
                            }
                        } else {
                            assert(spec_depth_le(
                                bc.amount as int, bc.axis, cnew.amount as int, cnew.axis));
                        }
                    }
                }
            }
        }
    }
}

/// A reported contact is the shallowest unsuppressed axis candidate:
/// its depth is a true minimum over every unsuppressed separating-axis
/// candidate, and it is itself one of them.
pub proof fn lemma_overlap_minimal(a: ConvexHull, b: ConvexHull)
    requires
        a.wf(),
        b.wf(),
    ensures
        match spec_overlap(a, b) {
            Some(c) => {
                &&& exists|i: int| 0 <= i < axes_all(a, b).len()
                    && !suppressed_at(a, b, i) && !gap_at(a, b, i) && c == cand_at(a, b, i)
                &&& forall|i: int| 0 <= i < axes_all(a, b).len()
                    && !(#[trigger] suppressed_at(a, b, i))
                    ==> spec_depth_le(
                        c.amount as int,
                        c.axis,
                        cand_at(a, b, i).amount as int,
                        cand_at(a, b, i).axis,
                    )
            },
            None => true,
        },
{
    lemma_scan_minimal(a, b, axes_all(a, b).len() as int);
}


/// Seam suppression is complete: when no axis separates the hulls but
/// every candidate normal is suppressed, no contact is reported at all,
/// which is how adjacent tiles behave as one seamless surface.
pub proof fn lemma_all_suppressed_no_contact(a: ConvexHull, b: ConvexHull)
    requires
        a.wf(),
        b.wf(),
        forall|i: int| 0 <= i < axes_all(a, b).len() ==> #[trigger] suppressed_at(a, b, i),
    ensures
        spec_overlap(a, b) is None,
{
    let n = axes_all(a, b).len() as int;
    lemma_scan_minimal(a, b, n);
    match spec_scan(a, b, n) {
        None => {}
        Some(best) => match best {
            None => {}
            Some(c) => {
                let i = choose|i: int| 0 <= i < n && !suppressed_at(a, b, i)
                    && !gap_at(a, b, i) && c == cand_at(a, b, i);
                assert(suppressed_at(a, b, i));
            }
        },
    }
}


/// The debug normal lines of the first `n` edges: for each edge whose
/// outward normal is not suppressed, a segment from the edge's midpoint
/// (components halved toward zero) to the midpoint plus the normal
/// direction scaled to about `length`.
pub open spec fn spec_normal_lines(
    points: Seq<Vec2>,
    ignored: Seq<Vec2>,
    length: int,
    n: int,
) -> Seq<(Vec2, Vec2)>
    decreases n,
{
    if n <= 0 {
        Seq::empty()
    } else {
        let prev = spec_normal_lines(points, ignored, length, n - 1);
        let i = n - 1;
        let normal = spec_edge_normal(points, i);
        if ignored.contains(normal) {
            prev
        } else {
            let a = points[i];
            let b = points[if i + 1 == points.len() { 0 } else { i + 1 }];
            let mid = Vec2 {
                x: crate::math::spec_tdiv(a.x + b.x, 2) as i64,
                y: crate::math::spec_tdiv(a.y + b.y, 2) as i64,
            };
            let u = crate::vec2::spec_scaled_dir(normal, length);
            let tip = Vec2 { x: (mid.x + u.x) as i64, y: (mid.y + u.y) as i64 };
            prev.push((mid, tip))
        }
    }
}

impl ConvexHull {
    /// The unsuppressed outward normals as drawable segments: each starts
    /// at its edge's midpoint and extends about `length` along the
    /// normal. A debug visualization aid.
    pub fn get_normals_as_lines(&self, length: i64) -> (r: Vec<(Vec2, Vec2)>)
        requires
            self.wf(),
            well_shaped(self.spec_points()),
            0 <= length <= 0x10_0000,
        ensures
            r@ == spec_normal_lines(
                self.spec_points(),
                self.spec_ignored(),
                length as int,
                self.spec_points().len() as int,
            ),
    {
        let ghost s = self.spec_points();
        let n = self.points.len();
        let mut lines: Vec<(Vec2, Vec2)> = Vec::new();
        proof {
            assert(lines@ =~= spec_normal_lines(s, self.spec_ignored(), length as int, 0));
        }
        let mut i: usize = 0;
        while i < n
            invariant
                self.wf(),
                well_shaped(s),
                s == self.spec_points(),
                n == s.len(),
                0 <= i <= n,
                0 <= length <= 0x10_0000,
                lines@ == spec_normal_lines(s, self.spec_ignored(), length as int, i as int),
            decreases n - i,
        {
            let a = self.points[i];
            let b = if i + 1 == n { self.points[0] } else { self.points[i + 1] };
            proof {
                assert(spec_edge(s, i as int) == b.spec_sub(a));
                assert(s[i as int].bounded(COORD_LIMIT as int));
                assert(s[if i + 1 == n { 0int } else { i as int + 1 }].bounded(
                    COORD_LIMIT as int));
            }
            let d = b.sub(a);
            let p = prim_dir(d);
            let normal = p.perp();
            proof {
                assert(normal == spec_edge_normal(s, i as int));
                assert(normal.bounded(AXIS_LIMIT as int));
            }
            if !contains_vec(&self.ignored_normals, normal) {
                let mid = Vec2 {
                    x: crate::math::tdiv64(a.x + b.x, 2),
                    y: crate::math::tdiv64(a.y + b.y, 2),
                };
                let u = crate::vec2::scaled_dir(normal, length);
                let tip = Vec2 { x: mid.x + u.x, y: mid.y + u.y };
                lines.push((mid, tip));
                proof {
                    assert(lines@ =~= spec_normal_lines(
                        s, self.spec_ignored(), length as int, i + 1));
                }
            } else {
                proof {
                    assert(lines@ =~= spec_normal_lines(
                        s, self.spec_ignored(), length as int, i + 1));
                }
            }
            i = i + 1;
        }
        lines
    }
}


} // verus!
