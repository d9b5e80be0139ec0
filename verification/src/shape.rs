//! Geometric shapes: axis-aligned boxes and compound groups.
//!
//! A [`Shape`] carries a position, tag metadata, a collidability flag and a
//! variant: either an axis-aligned box with a width and a height, or a
//! compound group of child shapes.  A compound's children carry positions in
//! the same global frame as every other shape; the compound's own origin is
//! not used for collision geometry and exists only for interface symmetry.
//!
//! Collision tests dispatch on the variant pairing: box against box runs the
//! separating-axis test, box against compound returns the first colliding
//! child in order, and a compound never collides as the queried side (a
//! deliberate scope limitation, kept as such).

use crate::geom::{
    aabb_fits_spec, axis_overlaps, centers_displacement, dot, generate_edges, is_separating_axis,
    opt_v, orth_spec, orthogonal, pts_in_bounds, push_bound, sat_axes, sat_push_vectors,
    sat_result, separated, smallest_push, v2_in_bounds, Vec2, COORD_LIMIT, V2,
};
use vstd::prelude::*;

verus! {

/// The corner points of an axis-aligned box with origin `(x, y)`, width `w`
/// and height `h`, clockwise from the origin.
pub open spec fn aabb_points_spec(x: int, y: int, w: int, h: int) -> Seq<V2> {
    seq![
        V2 { x, y },
        V2 { x: x + w, y },
        V2 { x: x + w, y: y + h },
        V2 { x, y: y + h },
    ]
}

/// An axis-aligned box: a width and a height.  The box's origin lives on the
/// [`Shape`] that owns it.
#[derive(Debug, Clone, Copy, PartialEq, Eq, Structural)]
pub struct Aabb {
    pub w: i64,
    pub h: i64,
}

/// An ordered group of child shapes sharing one collision identity.
#[derive(Debug)]
pub struct Compound(pub Vec<Shape>);

/// The variant of a shape: an axis-aligned box or a compound group.
#[derive(Debug)]
pub enum ShapeType {
    Aabb(Aabb),
    Compound(Compound),
}

/// A geometric entity: a position, tag metadata, a collidability flag and a
/// box or compound variant.
#[derive(Debug)]
pub struct Shape {
    /// The shape's origin (top-left corner for a box).
    pub x: i64,
    /// The shape's origin.
    pub y: i64,
    /// Free-form tag strings; duplicates are allowed and order is kept.
    pub tags: Vec<String>,
    /// When `false`, the shape takes part in no collision test, for either
    /// side of the query.
    pub collidable: bool,
    /// The geometric variant.
    pub stype: ShapeType,
}

impl Shape {
    /// Whether every coordinate the shape contributes to collision geometry
    /// lies within [`COORD_LIMIT`]: for a box, its four corners; for a
    /// compound, recursively those of every child.
    pub open spec fn bounded(&self) -> bool
        decreases *self,
    {
        match self.stype {
            ShapeType::Aabb(b) => aabb_fits_spec(
                self.x as int,
                self.y as int,
                b.w as int,
                b.h as int,
            ),
            ShapeType::Compound(c) => forall|i: int|
                0 <= i < c.0@.len() ==> (#[trigger] c.0@[i]).bounded(),
        }
    }
}

/// The minimum-translation vector that moves `a` out of `b`, per the
/// dispatch table: nothing when either shape is not collidable; the
/// separating-axis outcome for box against box; the first colliding child in
/// order for box against compound; and nothing when the queried shape is a
/// compound (that pairing is deliberately not implemented).
pub open spec fn shape_mtv(a: Shape, b: Shape) -> Option<V2>
    decreases b,
{
    if !a.collidable || !b.collidable {
        None
    } else {
        match a.stype {
            ShapeType::Aabb(ab) => match b.stype {
                ShapeType::Aabb(bb) => sat_result(
                    aabb_points_spec(a.x as int, a.y as int, ab.w as int, ab.h as int),
                    aabb_points_spec(b.x as int, b.y as int, bb.w as int, bb.h as int),
                ),
                ShapeType::Compound(c) => first_child_mtv(a, c.0@, 0),
            },
            ShapeType::Compound(_) => None,
        }
    }
}

/// The first collision of `a` against the children `cs[i..]`, in order:
/// the outcome against the first child that collides at all, regardless of
/// how deep a later child's collision would be.
pub open spec fn first_child_mtv(a: Shape, cs: Seq<Shape>, i: int) -> Option<V2>
    decreases cs, cs.len() - i,
{
    if i < 0 || i >= cs.len() {
        None
    } else {
        match shape_mtv(a, cs[i]) {
            Some(v) => Some(v),
            None => first_child_mtv(a, cs, i + 1),
        }
    }
}

impl Aabb {
    /// Builds a box of the given size.
    fn new(w: i64, h: i64) -> (r: Aabb)
        ensures
            r == (Aabb { w, h }),
    {
        Aabb { w, h }
    }

    /// The box's four corner points, clockwise from the origin of the shape
    /// `s` that owns it.
    fn generate_points(&self, s: &Shape) -> (r: Vec<Vec2>)
        requires
            aabb_fits_spec(s.x as int, s.y as int, self.w as int, self.h as int),
        ensures
            r.deep_view() == aabb_points_spec(s.x as int, s.y as int, self.w as int, self.h as int),
            r@.len() == 4,
            pts_in_bounds(r.deep_view(), COORD_LIMIT as int),
    {
        let mut points: Vec<Vec2> = Vec::new();
        points.push(Vec2 { x: s.x, y: s.y });
        points.push(Vec2 { x: s.x + self.w, y: s.y });
        points.push(Vec2 { x: s.x + self.w, y: s.y + self.h });
        points.push(Vec2 { x: s.x, y: s.y + self.h });
        proof {
            let model = aabb_points_spec(s.x as int, s.y as int, self.w as int, self.h as int);
            assert(points.deep_view() =~= model);
            assert forall|i: int| 0 <= i < model.len() implies v2_in_bounds(
                #[trigger] model[i],
                COORD_LIMIT as int,
            ) by {}
        }
        points
    }

    /// The box's four edge vectors, derived from its corner points.
    fn generate_edges(&self, s: &Shape) -> (r: Vec<Vec2>)
        requires
            aabb_fits_spec(s.x as int, s.y as int, self.w as int, self.h as int),
        ensures
            r.deep_view() == crate::geom::edges_spec(
                aabb_points_spec(s.x as int, s.y as int, self.w as int, self.h as int),
            ),
    {
        let points = self.generate_points(s);
        proof {
            assert forall|i: int| 0 <= i < points.deep_view().len() implies v2_in_bounds(
                #[trigger] points.deep_view()[i],
                0x2000_0000_0000_0000,
            ) by {}
        }
        generate_edges(&points)
    }
}

impl Shape {
    /// Builds a collidable, untagged rectangle from its origin and size.
    /// A negative size is allowed; the box's corner points normalize it.
    pub fn new_rectangle_xywh(x: i64, y: i64, w: i64, h: i64) -> (r: Shape)
        requires
            aabb_fits_spec(x as int, y as int, w as int, h as int),
        ensures
            r.x == x,
            r.y == y,
            r.tags@.len() == 0,
            r.collidable,
            r.stype == (ShapeType::Aabb(Aabb { w, h })),
            r.bounded(),
    {
        Shape { x, y, tags: Vec::new(), collidable: true, stype: ShapeType::Aabb(Aabb::new(w, h)) }
    }

    /// Builds a collidable, untagged rectangle from two opposite corners:
    /// the size is the coordinate difference, without clamping, so corners
    /// given in the reverse order yield a negative size.
    pub fn new_rectangle_xyxy(x1: i64, y1: i64, x2: i64, y2: i64) -> (r: Shape)
        requires
            -COORD_LIMIT <= x1 <= COORD_LIMIT,
            -COORD_LIMIT <= y1 <= COORD_LIMIT,
            -COORD_LIMIT <= x2 <= COORD_LIMIT,
            -COORD_LIMIT <= y2 <= COORD_LIMIT,
        ensures
            r.x == x1,
            r.y == y1,
            r.tags@.len() == 0,
            r.collidable,
            r.stype == (ShapeType::Aabb(Aabb { w: (x2 - x1) as i64, h: (y2 - y1) as i64 })),
            r.bounded(),
    {
        Shape {
            x: x1,
            y: y1,
            tags: Vec::new(),
            collidable: true,
            stype: ShapeType::Aabb(Aabb::new(x2 - x1, y2 - y1)),
        }
    }

    /// The separating-axis test on two boxes, with their owning shapes
    /// supplying the origins: the outcome is exactly [`sat_result`] on the
    /// two boxes' corner points.
    fn aabb_aabb(a: &Shape, a_t: &Aabb, b: &Shape, b_t: &Aabb) -> (r: Option<Vec2>)
        requires
            aabb_fits_spec(a.x as int, a.y as int, a_t.w as int, a_t.h as int),
            aabb_fits_spec(b.x as int, b.y as int, b_t.w as int, b_t.h as int),
        ensures
            opt_v(r) == sat_result(
                aabb_points_spec(a.x as int, a.y as int, a_t.w as int, a_t.h as int),
                aabb_points_spec(b.x as int, b.y as int, b_t.w as int, b_t.h as int),
            ),
    {
        let ghost pa = aabb_points_spec(a.x as int, a.y as int, a_t.w as int, a_t.h as int);
        let ghost pb = aabb_points_spec(b.x as int, b.y as int, b_t.w as int, b_t.h as int);
        let ghost axs = sat_axes(pa, pb);
        let a_points = a_t.generate_points(a);
        let b_points = b_t.generate_points(b);
        let a_edges = a_t.generate_edges(a);
        let b_edges = b_t.generate_edges(b);
        proof {
            assert(axs.len() == 8);
            assert forall|i: int| 0 <= i < 8 implies v2_in_bounds(
                #[trigger] axs[i],
                2 * COORD_LIMIT as int,
            ) by {
                if i < 4 {
                    assert(axs[i] == orth_spec(crate::geom::edges_spec(pa)[i]));
                    assert(v2_in_bounds(pa[(i + 1) % 4], COORD_LIMIT as int));
                    assert(v2_in_bounds(pa[i], COORD_LIMIT as int));
                } else {
                    assert(axs[i] == orth_spec(crate::geom::edges_spec(pb)[i - 4]));
                    assert(v2_in_bounds(pb[(i - 4 + 1) % 4], COORD_LIMIT as int));
                    assert(v2_in_bounds(pb[i - 4], COORD_LIMIT as int));
                }
            }
        }
        let mut axes: Vec<Vec2> = Vec::new();
        let mut e: usize = 0;
        while e < a_edges.len()
            invariant
                a_edges.deep_view() == crate::geom::edges_spec(pa),
                pa.len() == 4,
                axs == sat_axes(pa, pb),
                forall|i: int| 0 <= i < axs.len() ==> v2_in_bounds(#[trigger] axs[i], 16384),
                0 <= e <= 4,
                axes.deep_view() == axs.take(e as int),
            decreases 4 - e,
        {
            proof {
                assert(a_edges.deep_view()[e as int] == a_edges@[e as int]@);
                assert(orth_spec(a_edges.deep_view()[e as int]) == axs[e as int]);
                assert(v2_in_bounds(axs[e as int], 16384));
            }
            let ghost prior = axes.deep_view();
            let axis = orthogonal(a_edges[e]);
            axes.push(axis);
            proof {
                assert(axes.deep_view() =~= prior.push(axis@));
                assert(prior.push(axis@) =~= axs.take(e as int + 1));
            }
            e = e + 1;
        }
        let mut f: usize = 0;
        while f < b_edges.len()
            invariant
                b_edges.deep_view() == crate::geom::edges_spec(pb),
                pb.len() == 4,
                pa.len() == 4,
                axs == sat_axes(pa, pb),
                forall|i: int| 0 <= i < axs.len() ==> v2_in_bounds(#[trigger] axs[i], 16384),
                0 <= f <= 4,
                axes.deep_view() == axs.take(4 + f as int),
            decreases 4 - f,
        {
            proof {
                assert(b_edges.deep_view()[f as int] == b_edges@[f as int]@);
                assert(orth_spec(b_edges.deep_view()[f as int]) == axs[4 + f as int]);
                assert(v2_in_bounds(axs[4 + f as int], 16384));
            }
            let ghost prior = axes.deep_view();
            let axis = orthogonal(b_edges[f]);
            axes.push(axis);
            proof {
                assert(axes.deep_view() =~= prior.push(axis@));
                assert(prior.push(axis@) =~= axs.take(4 + f as int + 1));
            }
            f = f + 1;
        }
        proof {
            assert(axes.deep_view() =~= axs);
        }
        let mut push_vectors: Vec<Vec2> = Vec::new();
        let mut idx: usize = 0;
        while idx < axes.len()
            invariant
                pa == aabb_points_spec(a.x as int, a.y as int, a_t.w as int, a_t.h as int),
                pb == aabb_points_spec(b.x as int, b.y as int, b_t.w as int, b_t.h as int),
                axs == sat_axes(pa, pb),
                axs.len() == 8,
                axes.deep_view() == axs,
                axes@.len() == 8,
                a_points.deep_view() == pa,
                b_points.deep_view() == pb,
                a_points@.len() == 4,
                b_points@.len() == 4,
                pts_in_bounds(pa, COORD_LIMIT as int),
                pts_in_bounds(pb, COORD_LIMIT as int),
                forall|i: int| 0 <= i < axs.len() ==> v2_in_bounds(#[trigger] axs[i], 16384),
                0 <= idx <= 8,
                push_vectors.deep_view() == sat_push_vectors(pa, pb).take(idx as int),
                forall|k: int| 0 <= k < idx ==> axis_overlaps(#[trigger] axs[k], pa, pb),
                pts_in_bounds(push_vectors.deep_view(), push_bound()),
            decreases 8 - idx,
        {
            proof {
                assert(axes.deep_view()[idx as int] == axes@[idx as int]@);
                assert(v2_in_bounds(axs[idx as int], 16384));
            }
            let pv_opt = is_separating_axis(axes[idx], &a_points, &b_points);
            match pv_opt {
                Some(pv) => {
                    let ghost prior = push_vectors.deep_view();
                    push_vectors.push(pv);
                    proof {
                        assert(pv@ == sat_push_vectors(pa, pb)[idx as int]);
                        assert(push_vectors.deep_view() =~= prior.push(pv@));
                        assert(prior.push(pv@) =~= sat_push_vectors(pa, pb).take(idx as int + 1));
                        assert forall|k: int|
                            0 <= k < push_vectors.deep_view().len() implies v2_in_bounds(
                            #[trigger] push_vectors.deep_view()[k],
                            push_bound(),
                        ) by {}
                    }
                },
                None => {
                    proof {
                        assert(!axis_overlaps(axs[idx as int], pa, pb));
                        assert(separated(pa, pb));
                    }
                    return None;
                },
            }
            idx = idx + 1;
        }
        proof {
            assert(push_vectors.deep_view() =~= sat_push_vectors(pa, pb));
            if separated(pa, pb) {
                let w = choose|w: int|
                    0 <= w < axs.len() && !axis_overlaps(#[trigger] axs[w], pa, pb);
                assert(axis_overlaps(axs[w], pa, pb));
            }
            assert(!separated(pa, pb));
        }
        let mpv0 = smallest_push(&push_vectors);
        proof {
            assert(v2_in_bounds(mpv0@, push_bound()));
        }
        let displacement = centers_displacement(&a_points, &b_points);
        let dm = dot(displacement, mpv0);
        let mpv = if dm > 0 {
            Vec2 { x: -mpv0.x, y: -mpv0.y }
        } else {
            mpv0
        };
        let mag = dot(mpv, mpv);
        if mag > 0 {
            Some(mpv)
        } else {
            None
        }
    }

    /// Builds a collidable, untagged compound group of `shapes`, with its
    /// own origin fixed at `(0, 0)`.
    pub fn new_compound(shapes: Vec<Shape>) -> (r: Shape)
        ensures
            r.x == 0,
            r.y == 0,
            r.tags@.len() == 0,
            r.collidable,
            r.stype == (ShapeType::Compound(Compound(shapes))),
    {
        Shape {
            x: 0,
            y: 0,
            tags: Vec::new(),
            collidable: true,
            stype: ShapeType::Compound(Compound(shapes)),
        }
    }
}

/// A bounded compound's children are bounded.
proof fn lemma_bounded_child(s: Shape, i: int)
    requires
        s.bounded(),
        s.stype matches ShapeType::Compound(c) && 0 <= i < c.0@.len(),
    ensures
        (s.stype->Compound_0).0@[i].bounded(),
{
}

/// Skipping children that do not collide leaves the first-match outcome
/// unchanged.
proof fn lemma_first_child_skip(a: Shape, cs: Seq<Shape>, i: int)
    requires
        0 <= i <= cs.len(),
        forall|k: int| 0 <= k < i ==> shape_mtv(a, #[trigger] cs[k]) is None,
    ensures
        first_child_mtv(a, cs, 0) == first_child_mtv(a, cs, i),
    decreases i,
{
    if i > 0 {
        lemma_first_child_skip(a, cs, i - 1);
        assert(shape_mtv(a, cs[i - 1]) is None);
        assert(first_child_mtv(a, cs, i - 1) == first_child_mtv(a, cs, i));
    }
}

impl Shape {
    /// The minimum-translation vector that moves this shape out of `o`, or
    /// nothing when the two do not collide: exactly [`shape_mtv`].  Either
    /// shape having `collidable` off, a separating axis, a degenerate
    /// zero-length translation, and a compound on the queried side all
    /// report no collision.
    pub fn is_colliding(&self, o: &Shape) -> (r: Option<Vec2>)
        requires
            self.bounded(),
            o.bounded(),
        ensures
            opt_v(r) == shape_mtv(*self, *o),
        decreases *o,
    {
        if self.collidable && o.collidable {
            match &self.stype {
                ShapeType::Aabb(aabb) => match &o.stype {
                    ShapeType::Aabb(aabb2) => Shape::aabb_aabb(self, aabb, o, aabb2),
                    ShapeType::Compound(compound) => {
                        let ghost css = compound.0@;
                        let mut i: usize = 0;
                        while i < compound.0.len()
                            invariant
                                self.bounded(),
                                o.bounded(),
                                self.collidable,
                                o.collidable,
                                self.stype matches ShapeType::Aabb(_),
                                o.stype matches ShapeType::Compound(c) && c.0@ == css,
                                compound.0@ == css,
                                0 <= i <= css.len(),
                                forall|k: int|
                                    0 <= k < i ==> shape_mtv(*self, #[trigger] css[k]) is None,
                            decreases css.len() - i,
                        {
                            let child = &compound.0[i];
                            proof {
                                let c = o.stype->Compound_0;
                                lemma_bounded_child(*o, i as int);
                                assert(c.0@[i as int].bounded());
                                assert(css[i as int] == c.0@[i as int]);
                                assert(decreases_to!(*o => o.stype));
                                assert(decreases_to!(o.stype => c));
                                assert(decreases_to!(c => c.0));
                                assert(decreases_to!(c.0 => c.0@));
                                assert(decreases_to!(c.0@ => c.0@[i as int]));
                                assert(decreases_to!(*o => css[i as int]));
                            }
                            let res = self.is_colliding(child);
                            match res {
                                Some(v) => {
                                    proof {
                                        lemma_first_child_skip(*self, css, i as int);
                                    }
                                    return Some(v);
                                },
                                None => {},
                            }
                            i = i + 1;
                        }
                        proof {
                            lemma_first_child_skip(*self, css, css.len() as int);
                        }
                        None
                    },
                },
                ShapeType::Compound(_) => {
                    // A compound on the queried side is an unimplemented
                    // pairing: it reports no collision, by design.
                    None
                },
            }
        } else {
            None
        }
    }
}

/// Whether translating `s` by `(dx, dy)` keeps every moved position
/// coordinate representable: a box's own origin moves, while a compound's
/// origin stays put and only its children (recursively) move.
pub open spec fn shift_fits(s: Shape, dx: int, dy: int) -> bool
    decreases s,
{
    &&& match s.stype {
        ShapeType::Aabb(_) => i64::MIN <= s.x + dx <= i64::MAX && i64::MIN <= s.y + dy
            <= i64::MAX,
        ShapeType::Compound(_) => true,
    }
    &&& stype_shift_fits(s.stype, dx, dy)
}

/// [`shift_fits`] on a shape variant: trivial for a box, recursive for a
/// compound's children.
pub open spec fn stype_shift_fits(st: ShapeType, dx: int, dy: int) -> bool
    decreases st,
{
    match st {
        ShapeType::Aabb(_) => true,
        ShapeType::Compound(c) => forall|i: int|
            0 <= i < c.0@.len() ==> shift_fits(#[trigger] c.0@[i], dx, dy),
    }
}

/// Whether `r` is `orig` translated by `(dx, dy)`: a box's origin moves by
/// the delta; a compound's own origin stays untouched while every child is
/// translated; tags and collidability are kept and the box size is
/// unchanged.
pub open spec fn is_shifted(orig: Shape, dx: int, dy: int, r: Shape) -> bool
    decreases orig,
{
    &&& match orig.stype {
        ShapeType::Aabb(_) => r.x == orig.x + dx && r.y == orig.y + dy,
        ShapeType::Compound(_) => r.x == orig.x && r.y == orig.y,
    }
    &&& r.tags.deep_view() == orig.tags.deep_view()
    &&& r.collidable == orig.collidable
    &&& stype_is_shifted(orig.stype, dx, dy, r.stype)
}

/// [`is_shifted`] on a shape variant: a box is carried over unchanged (its
/// origin lives on the owning shape), a compound has every child shifted.
pub open spec fn stype_is_shifted(orig: ShapeType, dx: int, dy: int, r: ShapeType) -> bool
    decreases orig,
{
    match orig {
        ShapeType::Aabb(b1) => r matches ShapeType::Aabb(b2) && b1 == b2,
        ShapeType::Compound(c1) => r matches ShapeType::Compound(c2) && c1.0@.len()
            == c2.0@.len() && (forall|i: int|
            0 <= i < c1.0@.len() ==> is_shifted(#[trigger] c1.0@[i], dx, dy, c2.0@[i])),
    }
}

/// Clones a tag list, character for character.
fn clone_tags(tags: &Vec<String>) -> (r: Vec<String>)
    ensures
        r.deep_view() == tags.deep_view(),
{
    let mut out: Vec<String> = Vec::new();
    let mut i: usize = 0;
    while i < tags.len()
        invariant
            0 <= i <= tags@.len(),
            out.deep_view() == tags.deep_view().take(i as int),
        decreases tags@.len() - i,
    {
        let ghost prior = out.deep_view();
        let tag = tags[i].clone();
        out.push(tag);
        proof {
            assert(out.deep_view() =~= prior.push(tag@));
            assert(tags.deep_view()[i as int] == tags@[i as int]@);
            assert(prior.push(tag@) =~= tags.deep_view().take(i as int + 1));
        }
        i = i + 1;
    }
    proof {
        assert(tags.deep_view().take(tags@.len() as int) =~= tags.deep_view());
    }
    out
}

impl ShapeType {
    /// A copy of this variant translated by `(dx, dy)`: a box is returned
    /// as it is, a compound has every child shifted by the same delta.
    pub fn shifted(&self, dx: i64, dy: i64) -> (r: ShapeType)
        requires
            stype_shift_fits(*self, dx as int, dy as int),
        ensures
            stype_is_shifted(*self, dx as int, dy as int, r),
        decreases *self,
    {
        match self {
            ShapeType::Aabb(aabb) => ShapeType::Aabb(*aabb),
            ShapeType::Compound(compound) => {
                let ghost css = compound.0@;
                let mut children: Vec<Shape> = Vec::new();
                let mut i: usize = 0;
                while i < compound.0.len()
                    invariant
                        *self matches ShapeType::Compound(_),
                        (*self)->Compound_0.0@ == css,
                        compound.0@ == css,
                        stype_shift_fits(*self, dx as int, dy as int),
                        0 <= i <= css.len(),
                        children@.len() == i,
                        forall|k: int|
                            0 <= k < i ==> is_shifted(
                                css[k],
                                dx as int,
                                dy as int,
                                #[trigger] children@[k],
                            ),
                    decreases css.len() - i,
                {
                    let child = &compound.0[i];
                    proof {
                        let c = (*self)->Compound_0;
                        assert(c.0@ == css);
                        assert((i as int) < c.0@.len());
                        assert(shift_fits(c.0@[i as int], dx as int, dy as int));
                        assert(css[i as int] == c.0@[i as int]);
                        assert(decreases_to!(*self => c));
                        assert(decreases_to!(c => c.0));
                        assert(decreases_to!(c.0 => c.0@));
                        assert(decreases_to!(c.0@ => c.0@[i as int]));
                        assert(decreases_to!(*self => css[i as int]));
                    }
                    let shifted_child = child.shifted(dx, dy);
                    children.push(shifted_child);
                    i = i + 1;
                }
                ShapeType::Compound(Compound(children))
            },
        }
    }
}

impl Shape {
    /// The tag strings, in order.
    pub fn tags(&self) -> (r: &Vec<String>)
        ensures
            *r == self.tags,
    {
        &self.tags
    }

    /// Mutable access to the tag strings; nothing else changes.
    pub fn tags_mut(&mut self) -> (r: &mut Vec<String>)
        ensures
            *r == old(self).tags,
            final(self).tags == *final(r),
            final(self).x == old(self).x,
            final(self).y == old(self).y,
            final(self).collidable == old(self).collidable,
            final(self).stype == old(self).stype,
    {
        &mut self.tags
    }

    /// Whether every queried tag is present among this shape's tags: all of
    /// them must match, not just any.
    pub fn has_tags(&self, tags_to_query: &Vec<String>) -> (r: bool)
        ensures
            r == has_tags_spec(*self, tags_to_query.deep_view()),
    {
        let ghost q = tags_to_query.deep_view();
        let mut k: usize = 0;
        while k < tags_to_query.len()
            invariant
                q == tags_to_query.deep_view(),
                0 <= k <= q.len(),
                forall|j: int| 0 <= j < k ==> self.tags.deep_view().contains(#[trigger] q[j]),
            decreases q.len() - k,
        {
            proof {
                assert(q[k as int] == tags_to_query@[k as int]@);
            }
            let wanted = &tags_to_query[k];
            if !vec_contains_string(&self.tags, wanted) {
                return false;
            }
            k = k + 1;
        }
        true
    }

    /// Whether the shape takes part in collision tests.
    pub fn collidable(&self) -> (r: bool)
        ensures
            r == self.collidable,
    {
        self.collidable
    }

    /// Mutable access to the collidability flag; nothing else changes.
    pub fn collidable_mut(&mut self) -> (r: &mut bool)
        ensures
            *r == old(self).collidable,
            final(self).collidable == *final(r),
            final(self).x == old(self).x,
            final(self).y == old(self).y,
            final(self).tags == old(self).tags,
            final(self).stype == old(self).stype,
    {
        &mut self.collidable
    }

    /// The origin's first coordinate.
    pub fn x(&self) -> (r: i64)
        ensures
            r == self.x,
    {
        self.x
    }

    /// Mutable access to the origin's first coordinate; nothing else
    /// changes.
    pub fn x_mut(&mut self) -> (r: &mut i64)
        ensures
            *r == old(self).x,
            final(self).x == *final(r),
            final(self).y == old(self).y,
            final(self).tags == old(self).tags,
            final(self).collidable == old(self).collidable,
            final(self).stype == old(self).stype,
    {
        &mut self.x
    }

    /// The origin's second coordinate.
    pub fn y(&self) -> (r: i64)
        ensures
            r == self.y,
    {
        self.y
    }

    /// Mutable access to the origin's second coordinate; nothing else
    /// changes.
    pub fn y_mut(&mut self) -> (r: &mut i64)
        ensures
            *r == old(self).y,
            final(self).y == *final(r),
            final(self).x == old(self).x,
            final(self).tags == old(self).tags,
            final(self).collidable == old(self).collidable,
            final(self).stype == old(self).stype,
    {
        &mut self.y
    }

    /// Moves the shape's own origin by `(x, y)`.  Compound children stay
    /// where they are: only the owning shape's origin moves.
    pub fn shift(&mut self, x: i64, y: i64)
        requires
            i64::MIN <= old(self).x + x <= i64::MAX,
            i64::MIN <= old(self).y + y <= i64::MAX,
        ensures
            final(self).x == old(self).x + x,
            final(self).y == old(self).y + y,
            final(self).tags == old(self).tags,
            final(self).collidable == old(self).collidable,
            final(self).stype == old(self).stype,
    {
        self.x = self.x + x;
        self.y = self.y + y;
    }

    /// A translated copy.  A box's origin moves by `(dx, dy)`; a compound's
    /// own origin stays untouched (it takes no part in collision geometry)
    /// while every child is shifted by the same delta.  Tags and
    /// collidability are preserved.
    pub fn shifted(&self, dx: i64, dy: i64) -> (r: Shape)
        requires
            shift_fits(*self, dx as int, dy as int),
        ensures
            is_shifted(*self, dx as int, dy as int, r),
        decreases *self,
    {
        let moves = match &self.stype {
            ShapeType::Aabb(_) => true,
            ShapeType::Compound(_) => false,
        };
        let nx = if moves {
            self.x + dx
        } else {
            self.x
        };
        let ny = if moves {
            self.y + dy
        } else {
            self.y
        };
        Shape {
            x: nx,
            y: ny,
            tags: clone_tags(&self.tags),
            collidable: self.collidable,
            stype: self.stype.shifted(dx, dy),
        }
    }
}

/// Whether every tag of `q` occurs among `s`'s tags.
pub open spec fn has_tags_spec(s: Shape, q: Seq<Seq<char>>) -> bool {
    forall|k: int| 0 <= k < q.len() ==> s.tags.deep_view().contains(#[trigger] q[k])
}

/// Evaluates the least and greatest projection of a box's four corner
/// points onto an axis: the extremes over the four corner projections.
proof fn lemma_proj_minmax_box(o: V2, x: int, y: int, w: int, h: int)
    ensures
        crate::geom::proj_min(o, aabb_points_spec(x, y, w, h)) == vstd::math::min(
            vstd::math::min(
                crate::geom::proj_of(o, (V2 { x, y })),
                crate::geom::proj_of(o, (V2 { x: x + w, y })),
            ),
            vstd::math::min(
                crate::geom::proj_of(o, (V2 { x: x + w, y: y + h })),
                crate::geom::proj_of(o, (V2 { x, y: y + h })),
            ),
        ),
        crate::geom::proj_max(o, aabb_points_spec(x, y, w, h)) == vstd::math::max(
            vstd::math::max(
                crate::geom::proj_of(o, (V2 { x, y })),
                crate::geom::proj_of(o, (V2 { x: x + w, y })),
            ),
            vstd::math::max(
                crate::geom::proj_of(o, (V2 { x: x + w, y: y + h })),
                crate::geom::proj_of(o, (V2 { x, y: y + h })),
            ),
        ),
{
    reveal_with_fuel(crate::geom::proj_min, 5);
    reveal_with_fuel(crate::geom::proj_max, 5);
    let ps = aabb_points_spec(x, y, w, h);
    assert(ps.drop_last() =~= seq![
        V2 { x, y },
        V2 { x: x + w, y },
        V2 { x: x + w, y: y + h },
    ]);
    assert(ps.drop_last().drop_last() =~= seq![V2 { x, y }, V2 { x: x + w, y }]);
    assert(ps.drop_last().drop_last().drop_last() =~= seq![V2 { x, y }]);
}

/// The push vector that a vertical axis `(0, s)` contributes for two boxes
/// overlapping on the y interval: exactly the y overlap depth, with `s`'s
/// sign.
proof fn lemma_y_axis_push(
    s: int,
    ax: int,
    ay: int,
    aw: int,
    ah: int,
    bx: int,
    by: int,
    bw: int,
    bh: int,
)
    requires
        s != 0,
        ah > 0,
        bh > 0,
        by + bh >= ay,
        ay + ah >= by,
    ensures
        ({
            let pa = aabb_points_spec(ax, ay, aw, ah);
            let pb = aabb_points_spec(bx, by, bw, bh);
            let o = V2 { x: 0, y: s };
            let oy = vstd::math::min(by + bh - ay, ay + ah - by);
            &&& axis_overlaps(o, pa, pb)
            &&& crate::geom::axis_push(o, pa, pb) == (V2 {
                x: 0,
                y: if s > 0 {
                    oy
                } else {
                    -oy
                },
            })
        }),
{
    let pa = aabb_points_spec(ax, ay, aw, ah);
    let pb = aabb_points_spec(bx, by, bw, bh);
    let o = V2 { x: 0, y: s };
    let oy = vstd::math::min(by + bh - ay, ay + ah - by);
    lemma_proj_minmax_box(o, ax, ay, aw, ah);
    lemma_proj_minmax_box(o, bx, by, bw, bh);
    if s > 0 {
        assert(ay * s < (ay + ah) * s && by * s < (by + bh) * s) by (nonlinear_arith)
            requires
                s > 0,
                ah > 0,
                bh > 0,
        ;
        assert(crate::geom::proj_min(o, pa) == ay * s);
        assert(crate::geom::proj_max(o, pa) == (ay + ah) * s);
        assert(crate::geom::proj_min(o, pb) == by * s);
        assert(crate::geom::proj_max(o, pb) == (by + bh) * s);
        assert((by + bh) * s - ay * s == (by + bh - ay) * s && (ay + ah) * s - by * s == (ay + ah
            - by) * s) by (nonlinear_arith);
        assert((by + bh) * s >= ay * s && (ay + ah) * s >= by * s) by (nonlinear_arith)
            requires
                s > 0,
                by + bh >= ay,
                ay + ah >= by,
        ;
        assert(crate::geom::axis_depth(o, pa, pb) == oy * s) by (nonlinear_arith)
            requires
                s > 0,
                crate::geom::axis_depth(o, pa, pb) == vstd::math::min(
                    (by + bh - ay) * s,
                    (ay + ah - by) * s,
                ),
                oy == vstd::math::min(by + bh - ay, ay + ah - by),
        ;
    } else {
        assert(ay * s > (ay + ah) * s && by * s > (by + bh) * s) by (nonlinear_arith)
            requires
                s < 0,
                ah > 0,
                bh > 0,
        ;
        assert(crate::geom::proj_min(o, pa) == (ay + ah) * s);
        assert(crate::geom::proj_max(o, pa) == ay * s);
        assert(crate::geom::proj_min(o, pb) == (by + bh) * s);
        assert(crate::geom::proj_max(o, pb) == by * s);
        assert(ay * s - (by + bh) * s == (by + bh - ay) * (-s) && by * s - (ay + ah) * s == (ay
            + ah - by) * (-s)) by (nonlinear_arith);
        assert(ay * s >= (by + bh) * s && by * s >= (ay + ah) * s) by (nonlinear_arith)
            requires
                s < 0,
                by + bh >= ay,
                ay + ah >= by,
        ;
        assert(crate::geom::axis_depth(o, pa, pb) == oy * (-s)) by (nonlinear_arith)
            requires
                s < 0,
                crate::geom::axis_depth(o, pa, pb) == vstd::math::min(
                    (by + bh - ay) * (-s),
                    (ay + ah - by) * (-s),
                ),
                oy == vstd::math::min(by + bh - ay, ay + ah - by),
        ;
    }
    let d = crate::geom::axis_depth(o, pa, pb);
    let dd = crate::geom::dot_spec(o, o);
    assert(dd == s * s);
    assert(dd > 0) by (nonlinear_arith)
        requires
            dd == s * s,
            s != 0,
    ;
    assert(crate::geom::scaled_div(0, d, dd) == 0) by {
        assert(0 * d == 0) by (nonlinear_arith);
        vstd::arithmetic::div_mod::lemma_div_of0(dd);
    }
    if s > 0 {
        assert(s * d == dd * oy) by (nonlinear_arith)
            requires
                d == oy * s,
                dd == s * s,
        ;
        vstd::arithmetic::div_mod::lemma_div_multiples_vanish(oy, dd);
        assert(crate::geom::scaled_div(s, d, dd) == oy);
    } else {
        assert((-s) * d == dd * oy) by (nonlinear_arith)
            requires
                d == oy * (-s),
                dd == s * s,
        ;
        vstd::arithmetic::div_mod::lemma_div_multiples_vanish(oy, dd);
        assert(crate::geom::scaled_div(s, d, dd) == -oy);
    }
}

/// The push vector that a horizontal axis `(s, 0)` contributes for two
/// boxes overlapping on the x interval: exactly the x overlap depth, with
/// `s`'s sign.
proof fn lemma_x_axis_push(
    s: int,
    ax: int,
    ay: int,
    aw: int,
    ah: int,
    bx: int,
    by: int,
    bw: int,
    bh: int,
)
    requires
        s != 0,
        aw > 0,
        bw > 0,
        bx + bw >= ax,
        ax + aw >= bx,
    ensures
        ({
            let pa = aabb_points_spec(ax, ay, aw, ah);
            let pb = aabb_points_spec(bx, by, bw, bh);
            let o = V2 { x: s, y: 0 };
            let ox = vstd::math::min(bx + bw - ax, ax + aw - bx);
            &&& axis_overlaps(o, pa, pb)
            &&& crate::geom::axis_push(o, pa, pb) == (V2 {
                x: if s > 0 {
                    ox
                } else {
                    -ox
                },
                y: 0,
            })
        }),
{
    let pa = aabb_points_spec(ax, ay, aw, ah);
    let pb = aabb_points_spec(bx, by, bw, bh);
    let o = V2 { x: s, y: 0 };
    let ox = vstd::math::min(bx + bw - ax, ax + aw - bx);
    lemma_proj_minmax_box(o, ax, ay, aw, ah);
    lemma_proj_minmax_box(o, bx, by, bw, bh);
    if s > 0 {
        assert(ax * s < (ax + aw) * s && bx * s < (bx + bw) * s) by (nonlinear_arith)
            requires
                s > 0,
                aw > 0,
                bw > 0,
        ;
        assert(crate::geom::proj_min(o, pa) == ax * s);
        assert(crate::geom::proj_max(o, pa) == (ax + aw) * s);
        assert(crate::geom::proj_min(o, pb) == bx * s);
        assert(crate::geom::proj_max(o, pb) == (bx + bw) * s);
        assert((bx + bw) * s - ax * s == (bx + bw - ax) * s && (ax + aw) * s - bx * s == (ax + aw
            - bx) * s) by (nonlinear_arith);
        assert((bx + bw) * s >= ax * s && (ax + aw) * s >= bx * s) by (nonlinear_arith)
            requires
                s > 0,
                bx + bw >= ax,
                ax + aw >= bx,
        ;
        assert(crate::geom::axis_depth(o, pa, pb) == ox * s) by (nonlinear_arith)
            requires
                s > 0,
                crate::geom::axis_depth(o, pa, pb) == vstd::math::min(
                    (bx + bw - ax) * s,
                    (ax + aw - bx) * s,
                ),
                ox == vstd::math::min(bx + bw - ax, ax + aw - bx),
        ;
    } else {
        assert(ax * s > (ax + aw) * s && bx * s > (bx + bw) * s) by (nonlinear_arith)
            requires
                s < 0,
                aw > 0,
                bw > 0,
        ;
        assert(crate::geom::proj_min(o, pa) == (ax + aw) * s);
        assert(crate::geom::proj_max(o, pa) == ax * s);
        assert(crate::geom::proj_min(o, pb) == (bx + bw) * s);
        assert(crate::geom::proj_max(o, pb) == bx * s);
        assert(ax * s - (bx + bw) * s == (bx + bw - ax) * (-s) && bx * s - (ax + aw) * s == (ax
            + aw - bx) * (-s)) by (nonlinear_arith);
        assert(ax * s >= (bx + bw) * s && bx * s >= (ax + aw) * s) by (nonlinear_arith)
            requires
                s < 0,
                bx + bw >= ax,
                ax + aw >= bx,
        ;
        assert(crate::geom::axis_depth(o, pa, pb) == ox * (-s)) by (nonlinear_arith)
            requires
                s < 0,
                crate::geom::axis_depth(o, pa, pb) == vstd::math::min(
                    (bx + bw - ax) * (-s),
                    (ax + aw - bx) * (-s),
                ),
                ox == vstd::math::min(bx + bw - ax, ax + aw - bx),
        ;
    }
    let d = crate::geom::axis_depth(o, pa, pb);
    let dd = crate::geom::dot_spec(o, o);
    assert(dd == s * s);
    assert(dd > 0) by (nonlinear_arith)
        requires
            dd == s * s,
            s != 0,
    ;
    assert(crate::geom::scaled_div(0, d, dd) == 0) by {
        assert(0 * d == 0) by (nonlinear_arith);
        vstd::arithmetic::div_mod::lemma_div_of0(dd);
    }
    if s > 0 {
        assert(s * d == dd * ox) by (nonlinear_arith)
            requires
                d == ox * s,
                dd == s * s,
        ;
        vstd::arithmetic::div_mod::lemma_div_multiples_vanish(ox, dd);
        assert(crate::geom::scaled_div(s, d, dd) == ox);
    } else {
        assert((-s) * d == dd * ox) by (nonlinear_arith)
            requires
                d == ox * (-s),
                dd == s * s,
        ;
        vstd::arithmetic::div_mod::lemma_div_multiples_vanish(ox, dd);
        assert(crate::geom::scaled_div(s, d, dd) == -ox);
    }
}

/// The minimum-translation property of the separating-axis test on boxes:
/// two boxes of positive size whose intervals overlap strictly on both
/// axes collide, and the reported translation's squared length is the
/// square of the smaller of the two axis overlap depths.
/// The squared length of an axis-aligned vector of either sign.
proof fn lemma_axis_pv_dot(v: int, q: int)
    requires
        q == v * v,
    ensures
        crate::geom::dot_spec((V2 { x: 0, y: v }), (V2 { x: 0, y: v })) == q,
        crate::geom::dot_spec((V2 { x: 0, y: -v }), (V2 { x: 0, y: -v })) == q,
        crate::geom::dot_spec((V2 { x: v, y: 0 }), (V2 { x: v, y: 0 })) == q,
        crate::geom::dot_spec((V2 { x: -v, y: 0 }), (V2 { x: -v, y: 0 })) == q,
{
    assert((-v) * (-v) == v * v) by (nonlinear_arith);
    assert(0 * 0 == 0) by (nonlinear_arith);
}

#[verifier::rlimit(50)]
#[verifier::spinoff_prover]
pub proof fn lemma_aabb_mtv_depth(
    ax: int,
    ay: int,
    aw: int,
    ah: int,
    bx: int,
    by: int,
    bw: int,
    bh: int,
)
    requires
        aw > 0,
        ah > 0,
        bw > 0,
        bh > 0,
        bx + bw > ax,
        ax + aw > bx,
        by + bh > ay,
        ay + ah > by,
    ensures
        ({
            let pa = aabb_points_spec(ax, ay, aw, ah);
            let pb = aabb_points_spec(bx, by, bw, bh);
            let ox = vstd::math::min(bx + bw - ax, ax + aw - bx);
            let oy = vstd::math::min(by + bh - ay, ay + ah - by);
            let depth = vstd::math::min(ox, oy);
            &&& sat_result(pa, pb) is Some
            &&& crate::geom::dot_spec(
                sat_result(pa, pb)->Some_0,
                sat_result(pa, pb)->Some_0,
            ) == depth * depth
        }),
{
    let pa = aabb_points_spec(ax, ay, aw, ah);
    let pb = aabb_points_spec(bx, by, bw, bh);
    let ox = vstd::math::min(bx + bw - ax, ax + aw - bx);
    let oy = vstd::math::min(by + bh - ay, ay + ah - by);
    let depth = vstd::math::min(ox, oy);
    let oxq = ox * ox;
    let oyq = oy * oy;
    let ea = crate::geom::edges_spec(pa);
    let eb = crate::geom::edges_spec(pb);
    let axs = sat_axes(pa, pb);
    assert(pa.len() == 4 && pb.len() == 4);
    assert(pa[0] == (V2 { x: ax, y: ay }));
    assert(pa[1] == (V2 { x: ax + aw, y: ay }));
    assert(pa[2] == (V2 { x: ax + aw, y: ay + ah }));
    assert(pa[3] == (V2 { x: ax, y: ay + ah }));
    assert(pb[0] == (V2 { x: bx, y: by }));
    assert(pb[1] == (V2 { x: bx + bw, y: by }));
    assert(pb[2] == (V2 { x: bx + bw, y: by + bh }));
    assert(pb[3] == (V2 { x: bx, y: by + bh }));
    assert(ea.len() == 4 && eb.len() == 4);
    assert(ea[0] == crate::geom::sub_spec(pa[(1int) % 4], pa[0]));
    assert(ea[1] == crate::geom::sub_spec(pa[(2int) % 4], pa[1]));
    assert(ea[2] == crate::geom::sub_spec(pa[(3int) % 4], pa[2]));
    assert(ea[3] == crate::geom::sub_spec(pa[(4int) % 4], pa[3]));
    assert(eb[0] == crate::geom::sub_spec(pb[(1int) % 4], pb[0]));
    assert(eb[1] == crate::geom::sub_spec(pb[(2int) % 4], pb[1]));
    assert(eb[2] == crate::geom::sub_spec(pb[(3int) % 4], pb[2]));
    assert(eb[3] == crate::geom::sub_spec(pb[(4int) % 4], pb[3]));
    assert(ea[0] == (V2 { x: aw, y: 0 }));
    assert(ea[1] == (V2 { x: 0, y: ah }));
    assert(ea[2] == (V2 { x: -aw, y: 0 }));
    assert(ea[3] == (V2 { x: 0, y: -ah }));
    assert(eb[0] == (V2 { x: bw, y: 0 }));
    assert(eb[1] == (V2 { x: 0, y: bh }));
    assert(eb[2] == (V2 { x: -bw, y: 0 }));
    assert(eb[3] == (V2 { x: 0, y: -bh }));
    assert(axs.len() == 8);
    assert(axs[0] == orth_spec(ea[0]) && axs[0] == (V2 { x: 0, y: aw }));
    assert(axs[1] == orth_spec(ea[1]) && axs[1] == (V2 { x: -ah, y: 0 }));
    assert(axs[2] == orth_spec(ea[2]) && axs[2] == (V2 { x: 0, y: -aw }));
    assert(axs[3] == orth_spec(ea[3]) && axs[3] == (V2 { x: ah, y: 0 }));
    assert(axs[4] == orth_spec(eb[0]) && axs[4] == (V2 { x: 0, y: bw }));
    assert(axs[5] == orth_spec(eb[1]) && axs[5] == (V2 { x: -bh, y: 0 }));
    assert(axs[6] == orth_spec(eb[2]) && axs[6] == (V2 { x: 0, y: -bw }));
    assert(axs[7] == orth_spec(eb[3]) && axs[7] == (V2 { x: bh, y: 0 }));
    lemma_y_axis_push(aw, ax, ay, aw, ah, bx, by, bw, bh);
    lemma_x_axis_push(-ah, ax, ay, aw, ah, bx, by, bw, bh);
    lemma_y_axis_push(-aw, ax, ay, aw, ah, bx, by, bw, bh);
    lemma_x_axis_push(ah, ax, ay, aw, ah, bx, by, bw, bh);
    lemma_y_axis_push(bw, ax, ay, aw, ah, bx, by, bw, bh);
    lemma_x_axis_push(-bh, ax, ay, aw, ah, bx, by, bw, bh);
    lemma_y_axis_push(-bw, ax, ay, aw, ah, bx, by, bw, bh);
    lemma_x_axis_push(bh, ax, ay, aw, ah, bx, by, bw, bh);
    assert forall|i: int| 0 <= i < axs.len() implies axis_overlaps(
        #[trigger] axs[i],
        pa,
        pb,
    ) by {}
    assert(!separated(pa, pb)) by {
        if separated(pa, pb) {
            let w = choose|w: int|
                0 <= w < sat_axes(pa, pb).len() && !axis_overlaps(
                    #[trigger] sat_axes(pa, pb)[w],
                    pa,
                    pb,
                );
            assert(axis_overlaps(axs[w], pa, pb));
        }
    }
    let pvs = sat_push_vectors(pa, pb);
    assert(pvs.len() == 8);
    assert(pvs[0] == (V2 { x: 0, y: oy }));
    assert(pvs[1] == (V2 { x: -ox, y: 0 }));
    assert(pvs[2] == (V2 { x: 0, y: -oy }));
    assert(pvs[3] == (V2 { x: ox, y: 0 }));
    assert(pvs[4] == (V2 { x: 0, y: oy }));
    assert(pvs[5] == (V2 { x: -ox, y: 0 }));
    assert(pvs[6] == (V2 { x: 0, y: -oy }));
    assert(pvs[7] == (V2 { x: ox, y: 0 }));
    lemma_axis_pv_dot(oy, oyq);
    lemma_axis_pv_dot(ox, oxq);
    assert(crate::geom::dot_spec(pvs[0], pvs[0]) == oyq);
    assert(crate::geom::dot_spec(pvs[1], pvs[1]) == oxq);
    assert(crate::geom::dot_spec(pvs[2], pvs[2]) == oyq);
    assert(crate::geom::dot_spec(pvs[3], pvs[3]) == oxq);
    assert(crate::geom::dot_spec(pvs[4], pvs[4]) == oyq);
    assert(crate::geom::dot_spec(pvs[5], pvs[5]) == oxq);
    assert(crate::geom::dot_spec(pvs[6], pvs[6]) == oyq);
    assert(crate::geom::dot_spec(pvs[7], pvs[7]) == oxq);
    let dmin = vstd::math::min(oxq, oyq);
    assert(crate::geom::min_push(pvs.take(1)) == pvs[0]);
    crate::geom::lemma_min_push_take(pvs, 1);
    crate::geom::lemma_min_push_take(pvs, 2);
    crate::geom::lemma_min_push_take(pvs, 3);
    crate::geom::lemma_min_push_take(pvs, 4);
    crate::geom::lemma_min_push_take(pvs, 5);
    crate::geom::lemma_min_push_take(pvs, 6);
    crate::geom::lemma_min_push_take(pvs, 7);
    let m0 = crate::geom::min_push(pvs);
    assert(pvs.take(8) =~= pvs);
    assert(crate::geom::dot_spec(m0, m0) == dmin);
    assert(dmin == depth * depth) by (nonlinear_arith)
        requires
            ox > 0,
            oy > 0,
            oxq == ox * ox,
            oyq == oy * oy,
            dmin == vstd::math::min(oxq, oyq),
            depth == vstd::math::min(ox, oy),
    ;
    assert(depth * depth > 0) by (nonlinear_arith)
        requires
            depth > 0,
    ;
    let disp = crate::geom::centers_disp_spec(pa, pb);
    let m = if crate::geom::dot_spec(disp, m0) > 0 {
        crate::geom::neg_spec(m0)
    } else {
        m0
    };
    assert(crate::geom::dot_spec(crate::geom::neg_spec(m0), crate::geom::neg_spec(m0))
        == crate::geom::dot_spec(m0, m0)) by (nonlinear_arith);
    assert(crate::geom::dot_spec(m, m) == depth * depth);
    assert(sat_result(pa, pb) == Some(m));
}

/// The shape-level corollary of [`lemma_aabb_mtv_depth`]: two collidable
/// boxes of positive size that overlap strictly on both axes collide, and
/// the translation's squared length is the square of the smaller overlap
/// depth.
pub proof fn lemma_shape_mtv_depth(a: Shape, b: Shape)
    requires
        a.collidable,
        b.collidable,
        a.stype matches ShapeType::Aabb(ab) && ab.w > 0 && ab.h > 0,
        b.stype matches ShapeType::Aabb(bb) && bb.w > 0 && bb.h > 0,
        b.x + (b.stype->Aabb_0).w > a.x,
        a.x + (a.stype->Aabb_0).w > b.x,
        b.y + (b.stype->Aabb_0).h > a.y,
        a.y + (a.stype->Aabb_0).h > b.y,
    ensures
        shape_mtv(a, b) is Some,
        ({
            let ox = vstd::math::min(
                b.x + (b.stype->Aabb_0).w - a.x,
                a.x + (a.stype->Aabb_0).w - b.x,
            );
            let oy = vstd::math::min(
                b.y + (b.stype->Aabb_0).h - a.y,
                a.y + (a.stype->Aabb_0).h - b.y,
            );
            let depth = vstd::math::min(ox, oy);
            crate::geom::dot_spec(shape_mtv(a, b)->Some_0, shape_mtv(a, b)->Some_0) == depth
                * depth
        }),
{
    lemma_aabb_mtv_depth(
        a.x as int,
        a.y as int,
        (a.stype->Aabb_0).w as int,
        (a.stype->Aabb_0).h as int,
        b.x as int,
        b.y as int,
        (b.stype->Aabb_0).w as int,
        (b.stype->Aabb_0).h as int,
    );
}

/// Separation is symmetric: when some candidate axis separates two boxes,
/// the collision test reports no collision in either query direction, even
/// though the two directions compute their translation vectors
/// independently.
pub proof fn lemma_shape_separation_symmetric(a: Shape, b: Shape)
    requires
        a.stype matches ShapeType::Aabb(_),
        b.stype matches ShapeType::Aabb(_),
        crate::geom::separated(
            aabb_points_spec(
                a.x as int,
                a.y as int,
                (a.stype->Aabb_0).w as int,
                (a.stype->Aabb_0).h as int,
            ),
            aabb_points_spec(
                b.x as int,
                b.y as int,
                (b.stype->Aabb_0).w as int,
                (b.stype->Aabb_0).h as int,
            ),
        ),
    ensures
        shape_mtv(a, b) is None,
        shape_mtv(b, a) is None,
{
    let pa = aabb_points_spec(
        a.x as int,
        a.y as int,
        (a.stype->Aabb_0).w as int,
        (a.stype->Aabb_0).h as int,
    );
    let pb = aabb_points_spec(
        b.x as int,
        b.y as int,
        (b.stype->Aabb_0).w as int,
        (b.stype->Aabb_0).h as int,
    );
    crate::geom::lemma_separation_symmetric(pa, pb);
}

/// The first-match policy for compound targets: the query returns the
/// outcome against the first child that collides at all, and the children
/// after it never matter, however deep their own collisions would be.
pub proof fn lemma_first_match_policy(a: Shape, cs: Seq<Shape>, i: int)
    requires
        0 <= i < cs.len(),
        forall|k: int| 0 <= k < i ==> shape_mtv(a, #[trigger] cs[k]) is None,
        shape_mtv(a, cs[i]) is Some,
    ensures
        first_child_mtv(a, cs, 0) == shape_mtv(a, cs[i]),
{
    lemma_first_child_skip(a, cs, i);
}

/// Whether `needle` occurs in `hay`, compared character for character.
fn vec_contains_string(hay: &Vec<String>, needle: &String) -> (r: bool)
    ensures
        r == hay.deep_view().contains(needle@),
{
    let mut t: usize = 0;
    while t < hay.len()
        invariant
            0 <= t <= hay@.len(),
            forall|j: int| 0 <= j < t ==> hay.deep_view()[j] != needle@,
        decreases hay@.len() - t,
    {
        proof {
            assert(hay.deep_view()[t as int] == hay@[t as int]@);
        }
        if hay[t].eq(needle) {
            proof {
                assert(hay.deep_view().contains(needle@));
            }
            return true;
        }
        t = t + 1;
    }
    proof {
        if hay.deep_view().contains(needle@) {
            let w = choose|w: int| 0 <= w < hay.deep_view().len() && hay.deep_view()[w] == needle@;
            assert(hay.deep_view()[w] != needle@);
        }
    }
    false
}

} // verus!
