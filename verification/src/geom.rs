//! Integer planar geometry for separating-axis collision tests.
//!
//! Positions and sizes are integer coordinates bounded by [`COORD_LIMIT`], so
//! that every projection, overlap depth and push vector of the
//! separating-axis test fits in an `i64` without rounding or overflow.
//!
//! The executable functions mirror the classic SAT pipeline: corner points
//! give edge vectors, each edge gives an orthogonal candidate axis, both
//! shapes' points are projected onto each axis, and an axis whose projection
//! intervals do not overlap separates the shapes.  When no axis separates
//! them, each axis contributes a push vector, and the shortest one is the
//! minimum-translation vector.

use vstd::arithmetic::div_mod::{lemma_div_is_ordered, lemma_div_pos_is_pos};
use vstd::math::{max, min};
use vstd::prelude::*;

verus! {

/// Every coordinate handled by the collision engine lies in
/// `[-COORD_LIMIT, COORD_LIMIT]`.  The bound keeps every intermediate value
/// of the separating-axis computation (projections, overlap depths, push
/// vectors and their squared lengths) well inside the `i64` range.
pub const COORD_LIMIT: i64 = 8192;

/// A planar vector (or point) with integer coordinates.
#[derive(Debug, Clone, Copy, PartialEq, Eq, Structural)]
pub struct Vec2 {
    pub x: i64,
    pub y: i64,
}

/// Ghost model of a planar vector: coordinates as mathematical integers.
pub struct V2 {
    pub x: int,
    pub y: int,
}

impl View for Vec2 {
    type V = V2;

    open spec fn view(&self) -> V2 {
        V2 { x: self.x as int, y: self.y as int }
    }
}

impl DeepView for Vec2 {
    type V = V2;

    open spec fn deep_view(&self) -> V2 {
        self.view()
    }
}

impl Vec2 {
    /// Builds the vector `(x, y)`.
    pub fn new(x: i64, y: i64) -> (r: Vec2)
        ensures
            r@ == (V2 { x: x as int, y: y as int }),
    {
        Vec2 { x, y }
    }
}

/// The dot product of `a` and `b`.
pub open spec fn dot_spec(a: V2, b: V2) -> int {
    a.x * b.x + a.y * b.y
}

/// The difference `a - b`.
pub open spec fn sub_spec(a: V2, b: V2) -> V2 {
    V2 { x: a.x - b.x, y: a.y - b.y }
}

/// The sum `a + b`.
pub open spec fn add_spec(a: V2, b: V2) -> V2 {
    V2 { x: a.x + b.x, y: a.y + b.y }
}

/// The negation `-a`.
pub open spec fn neg_spec(a: V2) -> V2 {
    V2 { x: -a.x, y: -a.y }
}

/// The 90-degree rotation of `a`: the outward axis of an edge.
pub open spec fn orth_spec(a: V2) -> V2 {
    V2 { x: -a.y, y: a.x }
}

/// Whether both coordinates of `v` lie in `[-b, b]`.
pub open spec fn v2_in_bounds(v: V2, b: int) -> bool {
    -b <= v.x <= b && -b <= v.y <= b
}

/// Whether every point of `ps` is bounded by `b` per [`v2_in_bounds`].
pub open spec fn pts_in_bounds(ps: Seq<V2>, b: int) -> bool {
    forall|i: int| 0 <= i < ps.len() ==> v2_in_bounds(#[trigger] ps[i], b)
}

/// A dot product of bounded vectors is bounded.
pub proof fn lemma_dot_bound(a: V2, b: V2, ab: int, bb: int)
    requires
        v2_in_bounds(a, ab),
        v2_in_bounds(b, bb),
        0 <= ab,
        0 <= bb,
    ensures
        -(2 * ab * bb) <= dot_spec(a, b) <= 2 * ab * bb,
{
    let p = ab * bb;
    assert(-p <= a.x * b.x <= p) by (nonlinear_arith)
        requires
            -ab <= a.x <= ab,
            -bb <= b.x <= bb,
            0 <= ab,
            0 <= bb,
            p == ab * bb,
    ;
    assert(-p <= a.y * b.y <= p) by (nonlinear_arith)
        requires
            -ab <= a.y <= ab,
            -bb <= b.y <= bb,
            0 <= ab,
            0 <= bb,
            p == ab * bb,
    ;
    assert(2 * ab * bb == 2 * p) by (nonlinear_arith)
        requires
            p == ab * bb,
    ;
}

/// The edge vectors of the polygon with corner points `ps`, in order: edge
/// `i` runs from point `i` to the cyclically next point.
pub open spec fn edges_spec(ps: Seq<V2>) -> Seq<V2> {
    Seq::new(ps.len(), |i: int| sub_spec(ps[(i + 1) % (ps.len() as int)], ps[i]))
}

/// The projection of point `p` onto axis `o`.
pub open spec fn proj_of(o: V2, p: V2) -> int {
    dot_spec(p, o)
}

/// The least projection of the points `ps` onto axis `o`.
pub open spec fn proj_min(o: V2, ps: Seq<V2>) -> int
    decreases ps.len(),
{
    if ps.len() <= 1 {
        proj_of(o, ps[0])
    } else {
        min(proj_min(o, ps.drop_last()), proj_of(o, ps.last()))
    }
}

/// The greatest projection of the points `ps` onto axis `o`.
pub open spec fn proj_max(o: V2, ps: Seq<V2>) -> int
    decreases ps.len(),
{
    if ps.len() <= 1 {
        proj_of(o, ps[0])
    } else {
        max(proj_max(o, ps.drop_last()), proj_of(o, ps.last()))
    }
}

/// Unrolls [`proj_min`] over a prefix: the least projection of one more
/// point is the smaller of the prefix minimum and the new projection.
pub proof fn lemma_proj_min_take(o: V2, ps: Seq<V2>, i: int)
    requires
        0 <= i < ps.len(),
    ensures
        proj_min(o, ps.take(i + 1)) == if i == 0 {
            proj_of(o, ps[0])
        } else {
            min(proj_min(o, ps.take(i)), proj_of(o, ps[i]))
        },
{
    assert(ps.take(i + 1).drop_last() =~= ps.take(i));
    assert(ps.take(i + 1).last() == ps[i]);
}

/// Unrolls [`proj_max`] over a prefix, as [`lemma_proj_min_take`] does.
pub proof fn lemma_proj_max_take(o: V2, ps: Seq<V2>, i: int)
    requires
        0 <= i < ps.len(),
    ensures
        proj_max(o, ps.take(i + 1)) == if i == 0 {
            proj_of(o, ps[0])
        } else {
            max(proj_max(o, ps.take(i)), proj_of(o, ps[i]))
        },
{
    assert(ps.take(i + 1).drop_last() =~= ps.take(i));
    assert(ps.take(i + 1).last() == ps[i]);
}

/// Whether the projection intervals of `p1` and `p2` onto axis `o` overlap
/// (touching intervals count as overlapping).
pub open spec fn axis_overlaps(o: V2, p1: Seq<V2>, p2: Seq<V2>) -> bool {
    proj_max(o, p1) >= proj_min(o, p2) && proj_max(o, p2) >= proj_min(o, p1)
}

/// The overlap depth of the projection intervals of `p1` and `p2` onto `o`:
/// the smaller of the two ways the intervals overhang each other.
pub open spec fn axis_depth(o: V2, p1: Seq<V2>, p2: Seq<V2>) -> int {
    min(proj_max(o, p2) - proj_min(o, p1), proj_max(o, p1) - proj_min(o, p2))
}

/// `c * d / dd`, evaluated exactly on the non-negative magnitudes and then
/// given `c`'s sign.
pub open spec fn scaled_div(c: int, d: int, dd: int) -> int {
    if c >= 0 {
        (c * d) / dd
    } else {
        -(((-c) * d) / dd)
    }
}

/// The push vector that axis `o` contributes when the projections overlap:
/// `o` scaled by `depth / dot(o, o)`, so that its length along `o` is the
/// overlap depth.  A degenerate axis (the zero vector) contributes the zero
/// push vector.
pub open spec fn axis_push(o: V2, p1: Seq<V2>, p2: Seq<V2>) -> V2 {
    let dd = dot_spec(o, o);
    if dd == 0 {
        V2 { x: 0, y: 0 }
    } else {
        let d = axis_depth(o, p1, p2);
        V2 { x: scaled_div(o.x, d, dd), y: scaled_div(o.y, d, dd) }
    }
}

/// Of two push vectors, the one of smaller squared length; the newer one on
/// a tie.
pub open spec fn smaller_push(acc: V2, v: V2) -> V2 {
    if dot_spec(v, v) > dot_spec(acc, acc) {
        acc
    } else {
        v
    }
}

/// The push vector of least squared length among `pvs`; the latest minimal
/// one when several tie.
pub open spec fn min_push(pvs: Seq<V2>) -> V2
    decreases pvs.len(),
{
    if pvs.len() <= 1 {
        pvs[0]
    } else {
        smaller_push(min_push(pvs.drop_last()), pvs.last())
    }
}

/// The bound that every projection of [`COORD_LIMIT`]-bounded points onto a
/// `2 * COORD_LIMIT`-bounded axis respects.
pub open spec fn proj_bound() -> int {
    268435456
}

/// The bound on an overlap depth: twice [`proj_bound`].
pub open spec fn depth_bound() -> int {
    536870912
}

/// The bound on a push vector's coordinates: a push vector is never longer
/// than the overlap depth it resolves.
pub open spec fn push_bound() -> int {
    536870912
}

/// The coordinate sum of the points `ps`.
pub open spec fn sum_pts(ps: Seq<V2>) -> V2
    decreases ps.len(),
{
    if ps.len() == 0 {
        V2 { x: 0, y: 0 }
    } else {
        add_spec(sum_pts(ps.drop_last()), ps.last())
    }
}

/// The displacement from the centroid of `p1` toward the centroid of `p2`,
/// scaled by the (common) number of points so that it stays integral: the
/// difference of the coordinate sums.  Only its direction is ever used.
pub open spec fn centers_disp_spec(p1: Seq<V2>, p2: Seq<V2>) -> V2 {
    sub_spec(sum_pts(p2), sum_pts(p1))
}

/// Whether a box with origin `(x, y)`, width `w` and height `h` keeps all
/// four corner coordinates within [`COORD_LIMIT`].
pub open spec fn aabb_fits_spec(x: int, y: int, w: int, h: int) -> bool {
    &&& -COORD_LIMIT <= x <= COORD_LIMIT
    &&& -COORD_LIMIT <= y <= COORD_LIMIT
    &&& -COORD_LIMIT <= x + w <= COORD_LIMIT
    &&& -COORD_LIMIT <= y + h <= COORD_LIMIT
}

/// The view of an optional vector result.
pub open spec fn opt_v(r: Option<Vec2>) -> Option<V2> {
    match r {
        Some(v) => Some(v@),
        None => None,
    }
}

/// The candidate separating axes for the point sets `pa` and `pb`: the
/// orthogonals of `pa`'s edges followed by the orthogonals of `pb`'s edges.
pub open spec fn sat_axes(pa: Seq<V2>, pb: Seq<V2>) -> Seq<V2> {
    edges_spec(pa).map_values(|e: V2| orth_spec(e)) + edges_spec(pb).map_values(
        |e: V2| orth_spec(e),
    )
}

/// The push vectors contributed by every candidate axis, in axis order.
pub open spec fn sat_push_vectors(pa: Seq<V2>, pb: Seq<V2>) -> Seq<V2> {
    Seq::new(sat_axes(pa, pb).len(), |i: int| axis_push(sat_axes(pa, pb)[i], pa, pb))
}

/// Whether some candidate axis separates the two point sets.
pub open spec fn separated(pa: Seq<V2>, pb: Seq<V2>) -> bool {
    exists|i: int|
        0 <= i < sat_axes(pa, pb).len() && !axis_overlaps(sat_axes(pa, pb)[i], pa, pb)
}

/// The outcome of the separating-axis test on the point sets `pa` and `pb`:
/// nothing when some axis separates them; otherwise the shortest push
/// vector, negated when it points with the centroid displacement (the
/// translation must move the first shape away from the second), and dropped
/// when it has zero length (a degenerate contact is reported as no
/// collision).
pub open spec fn sat_result(pa: Seq<V2>, pb: Seq<V2>) -> Option<V2> {
    if separated(pa, pb) {
        None
    } else {
        let m0 = min_push(sat_push_vectors(pa, pb));
        let m = if dot_spec(centers_disp_spec(pa, pb), m0) > 0 {
            neg_spec(m0)
        } else {
            m0
        };
        if dot_spec(m, m) > 0 {
            Some(m)
        } else {
            None
        }
    }
}

/// Separation is symmetric: when some axis separates `pa` from `pb`, the
/// same axis also stands among the candidate axes for the swapped query, so
/// the separating-axis test reports no collision in either direction.
pub proof fn lemma_separation_symmetric(pa: Seq<V2>, pb: Seq<V2>)
    requires
        separated(pa, pb),
    ensures
        separated(pb, pa),
        sat_result(pa, pb) is None,
        sat_result(pb, pa) is None,
{
    let axes_ab = sat_axes(pa, pb);
    let axes_ba = sat_axes(pb, pa);
    let na = pa.len() as int;
    let nb = pb.len() as int;
    let i = choose|i: int| 0 <= i < axes_ab.len() && !axis_overlaps(axes_ab[i], pa, pb);
    let j = if i < na {
        nb + i
    } else {
        i - na
    };
    assert(axes_ba[j] == axes_ab[i]);
    assert(!axis_overlaps(axes_ba[j], pb, pa));
}

/// Unrolls [`sum_pts`] over a prefix.
pub proof fn lemma_sum_take(ps: Seq<V2>, i: int)
    requires
        0 <= i < ps.len(),
    ensures
        sum_pts(ps.take(i + 1)) == add_spec(sum_pts(ps.take(i)), ps[i]),
{
    assert(ps.take(i + 1).drop_last() =~= ps.take(i));
    assert(ps.take(i + 1).last() == ps[i]);
}

/// Unrolls [`min_push`] over a prefix.
pub proof fn lemma_min_push_take(pvs: Seq<V2>, i: int)
    requires
        0 <= i < pvs.len(),
    ensures
        min_push(pvs.take(i + 1)) == if i == 0 {
            pvs[0]
        } else {
            smaller_push(min_push(pvs.take(i)), pvs[i])
        },
{
    assert(pvs.take(i + 1).drop_last() =~= pvs.take(i));
    assert(pvs.take(i + 1).last() == pvs[i]);
}

/// The dot product of two vectors whose coordinates stay well inside the
/// range where the products cannot overflow.
pub fn dot(a: Vec2, b: Vec2) -> (r: i64)
    requires
        v2_in_bounds(a@, 0x4000_0000),
        v2_in_bounds(b@, 0x4000_0000),
    ensures
        r == dot_spec(a@, b@),
{
    proof {
        assert(-0x1000_0000_0000_0000 <= a@.x * b@.x <= 0x1000_0000_0000_0000)
            by (nonlinear_arith)
            requires
                -0x4000_0000 <= a@.x <= 0x4000_0000,
                -0x4000_0000 <= b@.x <= 0x4000_0000,
        ;
        assert(-0x1000_0000_0000_0000 <= a@.y * b@.y <= 0x1000_0000_0000_0000)
            by (nonlinear_arith)
            requires
                -0x4000_0000 <= a@.y <= 0x4000_0000,
                -0x4000_0000 <= b@.y <= 0x4000_0000,
        ;
    }
    a.x * b.x + a.y * b.y
}

/// The outward-pointing axis of an edge: the edge rotated by 90 degrees.
pub fn orthogonal(v: Vec2) -> (r: Vec2)
    requires
        v@.y > i64::MIN as int,
    ensures
        r@ == orth_spec(v@),
{
    Vec2 { x: -v.y, y: v.x }
}

/// The edge vectors of the polygon with corner points `vertices`: edge `i`
/// runs from point `i` to the cyclically next point.
pub fn generate_edges(vertices: &Vec<Vec2>) -> (r: Vec<Vec2>)
    requires
        pts_in_bounds(vertices.deep_view(), 0x2000_0000_0000_0000),
    ensures
        r.deep_view() == edges_spec(vertices.deep_view()),
{
    let ghost dv = vertices.deep_view();
    let mut edges: Vec<Vec2> = Vec::new();
    let n = vertices.len();
    let mut i: usize = 0;
    while i < n
        invariant
            n == vertices@.len(),
            dv == vertices.deep_view(),
            pts_in_bounds(dv, 0x2000_0000_0000_0000),
            0 <= i <= n,
            edges.deep_view() == edges_spec(dv).take(i as int),
        decreases n - i,
    {
        let j = (i + 1) % n;
        proof {
            assert(dv[i as int] == vertices@[i as int]@);
            assert(dv[j as int] == vertices@[j as int]@);
            assert(v2_in_bounds(dv[i as int], 0x2000_0000_0000_0000));
            assert(v2_in_bounds(dv[j as int], 0x2000_0000_0000_0000));
        }
        let edge = Vec2 { x: vertices[j].x - vertices[i].x, y: vertices[j].y - vertices[i].y };
        let ghost prior = edges.deep_view();
        edges.push(edge);
        proof {
            assert(edge@ == edges_spec(dv)[i as int]);
            assert(edges.deep_view() =~= prior.push(edge@));
            assert(prior.push(edge@) =~= edges_spec(dv).take(i as int + 1));
        }
        i = i + 1;
    }
    proof {
        assert(edges_spec(dv).take(n as int) =~= edges_spec(dv));
    }
    edges
}

/// `c * d / dd` computed exactly on non-negative magnitudes; the quotient is
/// never longer than `d` because `dd` dominates `c * c`.
fn scaled_component(c: i64, d: i64, dd: i64) -> (r: i64)
    requires
        -16384 <= c <= 16384,
        0 <= d <= depth_bound(),
        0 < dd,
        c * c <= dd,
    ensures
        r == scaled_div(c as int, d as int, dd as int),
        -d <= r <= d,
{
    let cc = if c < 0 {
        -c
    } else {
        c
    };
    proof {
        assert(0 <= cc * d <= 16384 * depth_bound()) by (nonlinear_arith)
            requires
                0 <= cc <= 16384,
                0 <= d <= depth_bound(),
        ;
    }
    let num = cc * d;
    let q = ((num as u64) / (dd as u64)) as i64;
    proof {
        lemma_div_pos_is_pos(num as int, dd as int);
        vstd::arithmetic::div_mod::lemma_div_nonincreasing(num as int, dd as int);
        assert(cc as int * cc as int == c as int * c as int) by (nonlinear_arith)
            requires
                cc as int == c as int || cc as int == -(c as int),
        ;
        if cc == 0 {
            assert(num == 0) by (nonlinear_arith)
                requires
                    num == cc as int * d as int,
                    cc as int == 0,
            ;
            assert(q == 0);
        } else {
            assert(cc * d <= dd * d) by (nonlinear_arith)
                requires
                    1 <= cc,
                    cc * cc <= dd,
                    0 <= d,
            ;
            lemma_div_is_ordered(num as int, dd * d, dd as int);
            vstd::arithmetic::div_mod::lemma_div_multiples_vanish(d as int, dd as int);
            assert(q <= d);
        }
    }
    if c < 0 {
        -q
    } else {
        q
    }
}

/// Projects both point sets onto the axis `o`.  When the projection
/// intervals are disjoint the axis separates the shapes and nothing is
/// returned; otherwise the returned push vector is `o` scaled so that its
/// length along `o` equals the overlap depth (see [`axis_push`]).
pub fn is_separating_axis(o: Vec2, p1: &Vec<Vec2>, p2: &Vec<Vec2>) -> (r: Option<Vec2>)
    requires
        p1@.len() > 0,
        p2@.len() > 0,
        pts_in_bounds(p1.deep_view(), COORD_LIMIT as int),
        pts_in_bounds(p2.deep_view(), COORD_LIMIT as int),
        v2_in_bounds(o@, 2 * COORD_LIMIT as int),
    ensures
        r is Some <==> axis_overlaps(o@, p1.deep_view(), p2.deep_view()),
        r is Some ==> r->Some_0@ == axis_push(o@, p1.deep_view(), p2.deep_view()),
        r is Some ==> v2_in_bounds(r->Some_0@, push_bound()),
{
    let ghost dv1 = p1.deep_view();
    let ghost dv2 = p2.deep_view();
    proof {
        assert(dv1[0] == p1@[0]@);
        lemma_dot_bound(dv1[0], o@, 8192, 16384);
    }
    let mut min1 = dot(p1[0], o);
    let mut max1 = min1;
    let mut i: usize = 1;
    while i < p1.len()
        invariant
            dv1 == p1.deep_view(),
            pts_in_bounds(dv1, COORD_LIMIT as int),
            v2_in_bounds(o@, 2 * COORD_LIMIT as int),
            1 <= i <= dv1.len(),
            min1 == proj_min(o@, dv1.take(i as int)),
            max1 == proj_max(o@, dv1.take(i as int)),
            -proj_bound() <= min1 <= max1 <= proj_bound(),
        decreases dv1.len() - i,
    {
        proof {
            assert(dv1[i as int] == p1@[i as int]@);
            lemma_dot_bound(dv1[i as int], o@, 8192, 16384);
            lemma_proj_min_take(o@, dv1, i as int);
            lemma_proj_max_take(o@, dv1, i as int);
        }
        let pr = dot(p1[i], o);
        if pr < min1 {
            min1 = pr;
        }
        if pr > max1 {
            max1 = pr;
        }
        i = i + 1;
    }
    proof {
        assert(dv1.take(dv1.len() as int) =~= dv1);
    }
    proof {
        assert(dv2[0] == p2@[0]@);
        lemma_dot_bound(dv2[0], o@, 8192, 16384);
    }
    let mut min2 = dot(p2[0], o);
    let mut max2 = min2;
    let mut k: usize = 1;
    while k < p2.len()
        invariant
            dv2 == p2.deep_view(),
            pts_in_bounds(dv2, COORD_LIMIT as int),
            v2_in_bounds(o@, 2 * COORD_LIMIT as int),
            1 <= k <= dv2.len(),
            min2 == proj_min(o@, dv2.take(k as int)),
            max2 == proj_max(o@, dv2.take(k as int)),
            -proj_bound() <= min2 <= max2 <= proj_bound(),
        decreases dv2.len() - k,
    {
        proof {
            assert(dv2[k as int] == p2@[k as int]@);
            lemma_dot_bound(dv2[k as int], o@, 8192, 16384);
            lemma_proj_min_take(o@, dv2, k as int);
            lemma_proj_max_take(o@, dv2, k as int);
        }
        let pr = dot(p2[k], o);
        if pr < min2 {
            min2 = pr;
        }
        if pr > max2 {
            max2 = pr;
        }
        k = k + 1;
    }
    proof {
        assert(dv2.take(dv2.len() as int) =~= dv2);
    }
    if max1 >= min2 && max2 >= min1 {
        let d1 = max2 - min1;
        let d2 = max1 - min2;
        let d = if d1 < d2 {
            d1
        } else {
            d2
        };
        let dd = dot(o, o);
        proof {
            assert(o@.x * o@.x >= 0 && o@.y * o@.y >= 0) by (nonlinear_arith);
            lemma_dot_bound(o@, o@, 16384, 16384);
        }
        if dd == 0 {
            Some(Vec2 { x: 0, y: 0 })
        } else {
            let px = scaled_component(o.x, d, dd);
            let py = scaled_component(o.y, d, dd);
            Some(Vec2 { x: px, y: py })
        }
    } else {
        None
    }
}

/// The displacement from the first point set's centroid toward the second
/// one's, scaled by the common point count so that it stays integral (see
/// [`centers_disp_spec`]).  Callers use only its direction.
pub fn centers_displacement(p1: &Vec<Vec2>, p2: &Vec<Vec2>) -> (r: Vec2)
    requires
        p1@.len() == p2@.len(),
        p1@.len() <= 0x10000,
        pts_in_bounds(p1.deep_view(), COORD_LIMIT as int),
        pts_in_bounds(p2.deep_view(), COORD_LIMIT as int),
    ensures
        r@ == centers_disp_spec(p1.deep_view(), p2.deep_view()),
        v2_in_bounds(r@, 0x40000000),
{
    let s1 = sum_points(p1);
    let s2 = sum_points(p2);
    Vec2 { x: s2.x - s1.x, y: s2.y - s1.y }
}

/// Adds up the coordinates of the points.
fn sum_points(ps: &Vec<Vec2>) -> (r: Vec2)
    requires
        ps@.len() <= 0x10000,
        pts_in_bounds(ps.deep_view(), COORD_LIMIT as int),
    ensures
        r@ == sum_pts(ps.deep_view()),
        v2_in_bounds(r@, 0x20000000),
{
    let ghost dv = ps.deep_view();
    let mut sx: i64 = 0;
    let mut sy: i64 = 0;
    let mut i: usize = 0;
    while i < ps.len()
        invariant
            dv == ps.deep_view(),
            pts_in_bounds(dv, COORD_LIMIT as int),
            dv.len() <= 0x10000,
            0 <= i <= dv.len(),
            (V2 { x: sx as int, y: sy as int }) == sum_pts(dv.take(i as int)),
            -(i as int) * 8192 <= sx <= (i as int) * 8192,
            -(i as int) * 8192 <= sy <= (i as int) * 8192,
        decreases dv.len() - i,
    {
        proof {
            assert(dv[i as int] == ps@[i as int]@);
            lemma_sum_take(dv, i as int);
        }
        sx = sx + ps[i].x;
        sy = sy + ps[i].y;
        i = i + 1;
    }
    proof {
        assert(dv.take(dv.len() as int) =~= dv);
    }
    Vec2 { x: sx, y: sy }
}

/// The push vector of least squared length among `pvs`; on ties the latest
/// minimal one wins (see [`min_push`]).
pub fn smallest_push(pvs: &Vec<Vec2>) -> (r: Vec2)
    requires
        pvs@.len() > 0,
        pts_in_bounds(pvs.deep_view(), push_bound()),
    ensures
        r@ == min_push(pvs.deep_view()),
        pvs.deep_view().contains(r@),
{
    let ghost dv = pvs.deep_view();
    let mut cur = pvs[0];
    proof {
        assert(dv[0] == pvs@[0]@);
        assert(dv.take(1)[0] == cur@);
        assert(dv.take(1).contains(cur@));
    }
    let mut i: usize = 1;
    while i < pvs.len()
        invariant
            dv == pvs.deep_view(),
            pts_in_bounds(dv, push_bound()),
            1 <= i <= dv.len(),
            cur@ == min_push(dv.take(i as int)),
            dv.take(i as int).contains(cur@),
        decreases dv.len() - i,
    {
        proof {
            lemma_min_push_take(dv, i as int);
        }
        proof {
            assert(dv[i as int] == pvs@[i as int]@);
            assert(v2_in_bounds(dv[i as int], push_bound()));
            assert(v2_in_bounds(cur@, push_bound()));
        }
        let cand = pvs[i];
        let ghost prev = cur@;
        let cl = dot(cur, cur);
        let xl = dot(cand, cand);
        if xl > cl {
            // keep cur
        } else {
            cur = cand;
        }
        proof {
            assert(dv.take(i as int + 1).contains(cur@)) by {
                if cur@ == prev {
                    let w = choose|w: int| 0 <= w < i && dv.take(i as int)[w] == prev;
                    assert(dv.take(i as int + 1)[w] == prev);
                } else {
                    assert(dv.take(i as int + 1)[i as int] == cur@);
                }
            }
        }
        i = i + 1;
    }
    proof {
        assert(dv.take(dv.len() as int) =~= dv);
    }
    cur
}

} // verus!
