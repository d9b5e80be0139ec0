//! The collision space: a shape arena with all-pairs collision queries.
//!
//! A [`Space`] owns a list of live handles (in insertion order), a
//! generation-checked shape array and a handle allocator.  Shapes are added
//! to obtain stable handles, mutated through those handles, and queried for
//! collisions against every other live shape.

use crate::generation::{
    array_get_spec, ArrayEntryView, GenerationalIndex, GenerationalIndexAllocator,
    GenerationalIndexArray,
};
use crate::geom::V2;
use crate::shape::{shape_mtv, Shape};
use vstd::prelude::*;

verus! {

broadcast use crate::generation::lemma_index_view_eq_auto;

/// The handle type for shapes stored in a [`Space`].
pub type ShapeIndex = GenerationalIndex;

/// One collision record: the minimum-translation vector that moves
/// `shape_a` (the queried shape) out of `shape_b`, and the two handles.
#[derive(Debug, Clone)]
pub struct Collision {
    /// The translation's first component.
    pub resolve_x: i64,
    /// The translation's second component.
    pub resolve_y: i64,
    /// The queried ("moving") shape.
    pub shape_a: ShapeIndex,
    /// The shape it collides with.
    pub shape_b: ShapeIndex,
}

/// Ghost model of a [`Collision`] record.
pub struct CollisionView {
    pub resolve: V2,
    pub shape_a: ShapeIndex,
    pub shape_b: ShapeIndex,
}

impl View for Collision {
    type V = CollisionView;

    open spec fn view(&self) -> CollisionView {
        CollisionView {
            resolve: V2 { x: self.resolve_x as int, y: self.resolve_y as int },
            shape_a: self.shape_a,
            shape_b: self.shape_b,
        }
    }
}

impl DeepView for Collision {
    type V = CollisionView;

    open spec fn deep_view(&self) -> CollisionView {
        self.view()
    }
}

/// The collision records that a query for `qh` (whose shape is `qs`)
/// produces against the handles `hs`, in order: one record per other handle
/// whose stored shape collides with `qs`, with `qh` skipped by handle
/// equality.
pub open spec fn collisions_spec(
    arr: Seq<Option<ArrayEntryView<Shape>>>,
    qh: ShapeIndex,
    qs: Shape,
    hs: Seq<ShapeIndex>,
) -> Seq<CollisionView>
    decreases hs.len(),
{
    if hs.len() == 0 {
        Seq::empty()
    } else {
        let init = collisions_spec(arr, qh, qs, hs.drop_last());
        let h = hs.last();
        if h == qh {
            init
        } else {
            match array_get_spec(arr, h@) {
                Some(other) => match shape_mtv(qs, other) {
                    Some(m) => init.push(CollisionView { resolve: m, shape_a: qh, shape_b: h }),
                    None => init,
                },
                None => init,
            }
        }
    }
}

/// Unrolls [`collisions_spec`] over a prefix of the handle list.
proof fn lemma_collisions_take(
    arr: Seq<Option<ArrayEntryView<Shape>>>,
    qh: ShapeIndex,
    qs: Shape,
    hs: Seq<ShapeIndex>,
    i: int,
)
    requires
        0 <= i < hs.len(),
    ensures
        collisions_spec(arr, qh, qs, hs.take(i + 1)) == ({
            let init = collisions_spec(arr, qh, qs, hs.take(i));
            if hs[i] == qh {
                init
            } else {
                match array_get_spec(arr, hs[i]@) {
                    Some(other) => match shape_mtv(qs, other) {
                        Some(m) => init.push(
                            CollisionView { resolve: m, shape_a: qh, shape_b: hs[i] },
                        ),
                        None => init,
                    },
                    None => init,
                }
            }
        }),
{
    assert(hs.take(i + 1).drop_last() =~= hs.take(i));
    assert(hs.take(i + 1).last() == hs[i]);
}

/// Every record that [`collisions_spec`] produces carries the queried
/// handle as `shape_a` and some other handle of the scanned list as
/// `shape_b`.
proof fn lemma_collisions_members(
    arr: Seq<Option<ArrayEntryView<Shape>>>,
    qh: ShapeIndex,
    qs: Shape,
    hs: Seq<ShapeIndex>,
)
    ensures
        forall|k: int|
            0 <= k < collisions_spec(arr, qh, qs, hs).len() ==> ({
                let c = #[trigger] collisions_spec(arr, qh, qs, hs)[k];
                c.shape_a == qh && c.shape_b != qh && hs.contains(c.shape_b)
            }),
    decreases hs.len(),
{
    if hs.len() > 0 {
        lemma_collisions_members(arr, qh, qs, hs.drop_last());
        let init = collisions_spec(arr, qh, qs, hs.drop_last());
        assert forall|k: int|
            0 <= k < collisions_spec(arr, qh, qs, hs).len() implies ({
            let c = #[trigger] collisions_spec(arr, qh, qs, hs)[k];
            c.shape_a == qh && c.shape_b != qh && hs.contains(c.shape_b)
        }) by {
            let c = collisions_spec(arr, qh, qs, hs)[k];
            if k < init.len() {
                assert(c == init[k]);
                assert(hs.drop_last().contains(init[k].shape_b));
                let w = choose|w: int|
                    0 <= w < hs.drop_last().len() && hs.drop_last()[w] == init[k].shape_b;
                assert(hs[w] == init[k].shape_b);
            } else {
                assert(c.shape_b == hs.last());
                assert(hs[hs.len() - 1] == hs.last());
            }
        }
    }
}

/// The handle list with every occurrence of `h` removed, order otherwise
/// kept.
pub open spec fn without_handle(hs: Seq<ShapeIndex>, h: ShapeIndex) -> Seq<ShapeIndex>
    decreases hs.len(),
{
    if hs.len() == 0 {
        Seq::empty()
    } else {
        let init = without_handle(hs.drop_last(), h);
        if hs.last() == h {
            init
        } else {
            init.push(hs.last())
        }
    }
}

/// Unrolls [`without_handle`] over a prefix.
proof fn lemma_without_handle_take(hs: Seq<ShapeIndex>, h: ShapeIndex, i: int)
    requires
        0 <= i < hs.len(),
    ensures
        without_handle(hs.take(i + 1), h) == if hs[i] == h {
            without_handle(hs.take(i), h)
        } else {
            without_handle(hs.take(i), h).push(hs[i])
        },
{
    assert(hs.take(i + 1).drop_last() =~= hs.take(i));
    assert(hs.take(i + 1).last() == hs[i]);
}

/// Removing a handle that does not occur changes nothing.
proof fn lemma_without_handle_absent(hs: Seq<ShapeIndex>, h: ShapeIndex)
    requires
        forall|k: int| 0 <= k < hs.len() ==> hs[k] != h,
    ensures
        without_handle(hs, h) == hs,
    decreases hs.len(),
{
    if hs.len() > 0 {
        lemma_without_handle_absent(hs.drop_last(), h);
        assert(hs.last() != h);
        assert(without_handle(hs, h) =~= hs);
    } else {
        assert(without_handle(hs, h) =~= hs);
    }
}

/// Under [`Space::wf`] the live-handle list holds exactly the live
/// handles, once each: every listed handle is live, and every live handle
/// is listed.
pub proof fn lemma_live_handles_live(s: &Space)
    requires
        s.wf(),
    ensures
        forall|k: int|
            0 <= k < s.live_handles().len() ==> s.live_spec(#[trigger] s.live_handles()[k]),
        forall|h: ShapeIndex| #[trigger] s.live_spec(h) ==> s.live_handles().contains(h),
        forall|k: int, l: int|
            0 <= k < l < s.live_handles().len() ==> s.live_handles()[k] != s.live_handles()[l],
{
}

/// Owns the shape arena: the live-handle list (insertion order), the
/// generation-checked shape array, and the handle allocator.
#[derive(Debug)]
pub struct Space {
    shapes: Vec<ShapeIndex>,
    shapes_array: GenerationalIndexArray<Shape>,
    shapes_allocator: GenerationalIndexAllocator,
}

impl Default for Space {
    /// An empty space.
    fn default() -> (r: Space)
        ensures
            r.wf(),
            r.shapes_bounded(),
            r.live_handles().len() == 0,
            forall|h: ShapeIndex| !r.live_spec(h),
    {
        Space::new()
    }
}

impl Space {
    /// The live handles, in insertion order.
    pub closed spec fn live_handles(&self) -> Seq<ShapeIndex> {
        self.shapes@
    }

    /// Whether `h` is a live handle of this space.
    pub closed spec fn live_spec(&self, h: ShapeIndex) -> bool {
        self.shapes_allocator.is_live_spec(h)
    }

    /// The model of the shape array's slots.
    pub closed spec fn array_view(&self) -> Seq<Option<ArrayEntryView<Shape>>> {
        self.shapes_array@
    }

    /// What a generation-checked read through `h` yields.  A removed
    /// handle's shape stays readable until its slot is reused: removal
    /// does not clear the array slot eagerly.
    pub open spec fn shape_spec(&self, h: ShapeIndex) -> Option<Shape> {
        array_get_spec(self.array_view(), h@)
    }

    /// The space's internal consistency: the allocator is consistent, the
    /// live-handle list holds exactly the live handles, once each, every
    /// live handle's array slot holds a value stamped with the handle's
    /// generation, and no array slot is stamped beyond its allocator
    /// generation.
    pub closed spec fn wf(&self) -> bool {
        &&& self.shapes_allocator.wf()
        &&& forall|k: int|
            0 <= k < self.shapes@.len() ==> self.shapes_allocator.is_live_spec(
                #[trigger] self.shapes@[k],
            )
        &&& forall|k: int, l: int|
            0 <= k < l < self.shapes@.len() ==> self.shapes@[k] != self.shapes@[l]
        &&& forall|h: ShapeIndex|
            #[trigger] self.shapes_allocator.is_live_spec(h) ==> self.shapes@.contains(h)
        &&& forall|h: ShapeIndex|
            #[trigger] self.shapes_allocator.is_live_spec(h) ==> array_get_spec(
                self.shapes_array@,
                h@,
            ) is Some
        &&& forall|j: int|
            0 <= j < self.shapes_array@.len() && (#[trigger] self.shapes_array@[j]) is Some
                ==> j < self.shapes_allocator@.slots.len()
                && self.shapes_array@[j]->Some_0.generation
                <= self.shapes_allocator@.slots[j].generation
    }

    /// Whether every live handle's shape is within the coordinate bounds
    /// that collision queries need.
    pub open spec fn shapes_bounded(&self) -> bool {
        forall|h: ShapeIndex|
            #[trigger] self.live_spec(h) ==> match self.shape_spec(h) {
                Some(s) => s.bounded(),
                None => true,
            }
    }

    /// Creates an empty space.
    pub fn new() -> (r: Space)
        ensures
            r.wf(),
            r.shapes_bounded(),
            r.live_handles().len() == 0,
            forall|h: ShapeIndex| !r.live_spec(h),
    {
        Space {
            shapes: Vec::new(),
            shapes_array: GenerationalIndexArray::new(),
            shapes_allocator: GenerationalIndexAllocator::new(),
        }
    }

    /// Stores `shape` under a freshly allocated handle, records the handle
    /// at the end of the live list, and returns it.  The handle was not
    /// live before the call; every other handle keeps its liveness and its
    /// stored shape.
    pub fn add_shape(&mut self, shape: Shape) -> (r: ShapeIndex)
        requires
            old(self).wf(),
        ensures
            final(self).wf(),
            final(self).live_spec(r),
            !old(self).live_spec(r),
            forall|h: ShapeIndex|
                h != r ==> (final(self).live_spec(h) <==> old(self).live_spec(h)),
            final(self).live_handles() == old(self).live_handles().push(r),
            final(self).shape_spec(r) == Some(shape),
            forall|h: ShapeIndex|
                old(self).live_spec(h) && h != r ==> final(self).shape_spec(h) == old(
                    self,
                ).shape_spec(h),
            old(self).shapes_bounded() && shape.bounded() ==> final(self).shapes_bounded(),
    {
        let ghost oldself = *old(self);
        let ni = self.shapes_allocator.allocate();
        self.shapes.push(ni);
        proof {
            assert(ni@.index < self.shapes_allocator@.slots.len());
            assert(self.shapes_array@.len() > ni@.index && self.shapes_array@[ni@.index] is Some
                ==> self.shapes_array@[ni@.index]->Some_0.generation < ni@.generation);
        }
        self.shapes_array.set(ni, shape);
        proof {
            let ns = *self;
            assert(array_get_spec(ns.shapes_array@, ni@) == Some(shape)) by {
                assert(ns.shapes_array@[ni@.index] == Some(
                    ArrayEntryView { generation: ni@.generation, value: shape },
                ));
            }
            assert forall|h: ShapeIndex|
                oldself.live_spec(h) && h != ni implies ns.shape_spec(h) == oldself.shape_spec(
                h,
            ) by {
                crate::generation::lemma_index_view_eq(h, ni);
                assert(oldself.shapes_allocator.is_live_spec(h));
                if h@.index == ni@.index {
                    assert(ni@.generation != h@.generation);
                }
            }
            assert forall|h: ShapeIndex|
                ns.shapes_allocator.is_live_spec(h) implies ns.shapes@.contains(h) by {
                if h == ni {
                    assert(ns.shapes@[ns.shapes@.len() - 1] == ni);
                } else {
                    crate::generation::lemma_index_view_eq(h, ni);
                    if h@.index == ni@.index {
                        assert(ns.shapes_allocator@.slots[h@.index].generation
                            == ni@.generation);
                        assert(false);
                    }
                    assert(oldself.shapes_allocator.is_live_spec(h));
                    let k = choose|k: int|
                        0 <= k < oldself.shapes@.len() && oldself.shapes@[k] == h;
                    assert(ns.shapes@[k] == h);
                }
            }
            assert(ns.wf());
            if oldself.shapes_bounded() && shape.bounded() {
                assert forall|h: ShapeIndex| #[trigger] ns.live_spec(h) implies match ns
                    .shape_spec(h) {
                    Some(s) => s.bounded(),
                    None => true,
                } by {
                    if h != ni {
                        crate::generation::lemma_index_view_eq(h, ni);
                        if h@.index == ni@.index {
                            assert(ns.shapes_allocator@.slots[h@.index].generation
                                == ni@.generation);
                            assert(false);
                        }
                        assert(oldself.live_spec(h));
                        assert(ns.shape_spec(h) == oldself.shape_spec(h));
                    }
                }
            }
        }
        ni
    }

    /// Releases `shape_index` in the allocator and removes it from the
    /// live list, keeping the order of the rest.  Safe on an
    /// already-removed or stale handle: nothing changes.  The array slot is
    /// not cleared; the stored shape stays readable through a matching
    /// handle until the slot is reused.
    pub fn remove_shape(&mut self, shape_index: ShapeIndex)
        requires
            old(self).wf(),
        ensures
            final(self).wf(),
            !final(self).live_spec(shape_index),
            forall|h: ShapeIndex|
                h != shape_index ==> (final(self).live_spec(h) <==> old(self).live_spec(h)),
            final(self).live_handles() == without_handle(
                old(self).live_handles(),
                shape_index,
            ),
            !old(self).live_spec(shape_index) ==> final(self).live_handles() == old(
                self,
            ).live_handles(),
            forall|h: ShapeIndex| final(self).shape_spec(h) == old(self).shape_spec(h),
            old(self).shapes_bounded() ==> final(self).shapes_bounded(),
    {
        let ghost oldself = *old(self);
        self.shapes_allocator.deallocate(shape_index);
        let ghost hs = self.shapes@;
        let mut kept: Vec<ShapeIndex> = Vec::new();
        let mut i: usize = 0;
        while i < self.shapes.len()
            invariant
                hs == self.shapes@,
                0 <= i <= hs.len(),
                kept@ == without_handle(hs.take(i as int), shape_index),
            decreases hs.len() - i,
        {
            proof {
                lemma_without_handle_take(hs, shape_index, i as int);
            }
            let h = self.shapes[i];
            if !(h.index() == shape_index.index() && h.generation()
                == shape_index.generation()) {
                proof {
                    assert(h@ != shape_index@);
                    assert(h != shape_index);
                }
                kept.push(h);
                proof {
                    assert(kept@ =~= without_handle(hs.take(i as int + 1), shape_index));
                }
            } else {
                proof {
                    crate::generation::lemma_index_view_injective(h, shape_index);
                    assert(h == shape_index);
                    assert(kept@ =~= without_handle(hs.take(i as int + 1), shape_index));
                }
            }
            i = i + 1;
        }
        proof {
            assert(hs.take(hs.len() as int) =~= hs);
        }
        self.shapes = kept;
        proof {
            let ns = *self;
            if !oldself.live_spec(shape_index) {
                assert forall|k: int| 0 <= k < hs.len() implies hs[k] != shape_index by {
                    assert(oldself.shapes_allocator.is_live_spec(hs[k]));
                }
                lemma_without_handle_absent(hs, shape_index);
            }
            lemma_without_handle_nodup(hs, shape_index);
            lemma_without_handle_membership(hs, shape_index);
            assert forall|k: int|
                0 <= k < ns.shapes@.len() implies ns.shapes_allocator.is_live_spec(
                #[trigger] ns.shapes@[k],
            ) by {
                assert(hs.contains(ns.shapes@[k]));
                let w = choose|w: int| 0 <= w < hs.len() && hs[w] == ns.shapes@[k];
                assert(oldself.shapes_allocator.is_live_spec(hs[w]));
                assert(hs[w] != shape_index);
                crate::generation::lemma_index_view_eq(hs[w], shape_index);
                if hs[w]@.index == shape_index@.index {
                    if oldself.shapes_allocator.is_live_spec(shape_index) {
                        crate::generation::lemma_live_handles_unique(
                            &oldself.shapes_allocator,
                            hs[w],
                            shape_index,
                        );
                        assert(false);
                    } else {
                        assert(ns.shapes_allocator@ == oldself.shapes_allocator@);
                    }
                }
            }
            assert forall|h: ShapeIndex|
                ns.shapes_allocator.is_live_spec(h) implies ns.shapes@.contains(h) by {
                crate::generation::lemma_index_view_eq(h, shape_index);
                if h@.index == shape_index@.index {
                    if oldself.shapes_allocator.is_live_spec(shape_index) {
                        assert(!ns.shapes_allocator.is_live_spec(h));
                        assert(false);
                    } else {
                        assert(ns.shapes_allocator@ == oldself.shapes_allocator@);
                    }
                }
                assert(oldself.shapes_allocator.is_live_spec(h));
                assert(h != shape_index);
                let w = choose|w: int| 0 <= w < hs.len() && hs[w] == h;
                lemma_without_handle_keeps(hs, shape_index, w);
            }
            assert forall|h: ShapeIndex|
                h != shape_index implies (ns.live_spec(h) <==> oldself.live_spec(h)) by {
                if h@.index == shape_index@.index {
                    if oldself.shapes_allocator.is_live_spec(shape_index) {
                        if oldself.shapes_allocator.is_live_spec(h) {
                            crate::generation::lemma_live_handles_unique(
                                &oldself.shapes_allocator,
                                h,
                                shape_index,
                            );
                            assert(false);
                        }
                        assert(!ns.shapes_allocator.is_live_spec(h));
                    } else {
                        assert(ns.shapes_allocator@ == oldself.shapes_allocator@);
                    }
                }
            }
            assert(ns.wf());
            if oldself.shapes_bounded() {
                assert forall|h: ShapeIndex| #[trigger] ns.live_spec(h) implies match ns
                    .shape_spec(h) {
                    Some(s) => s.bounded(),
                    None => true,
                } by {
                    crate::generation::lemma_index_view_eq(h, shape_index);
                    if h@.index == shape_index@.index
                        && oldself.shapes_allocator.is_live_spec(shape_index) {
                        assert(!ns.shapes_allocator.is_live_spec(h));
                        assert(false);
                    }
                    assert(oldself.live_spec(h));
                    assert(ns.shape_spec(h) == oldself.shape_spec(h));
                }
            }
        }
    }

    /// The shape stored under `shape_index`, found only on an exact
    /// generation match.
    pub fn shape(&self, shape_index: ShapeIndex) -> (r: Option<&Shape>)
        ensures
            match r {
                Some(s) => self.shape_spec(shape_index) == Some(*s),
                None => self.shape_spec(shape_index) is None,
            },
    {
        self.shapes_array.get(shape_index)
    }

    /// Mutable access to the shape stored under `shape_index`, found only
    /// on an exact generation match.  Writing through the borrow replaces
    /// the stored shape; handles, liveness and every other slot stay as
    /// they were.  When the written shape is within bounds,
    /// [`lemma_bounded_after_update`] re-establishes [`Space::shapes_bounded`]
    /// from this function's contract.
    pub fn shape_mut(&mut self, shape_index: ShapeIndex) -> (r: Option<&mut Shape>)
        requires
            old(self).wf(),
        ensures
            final(self).wf(),
            final(self).live_handles() == old(self).live_handles(),
            forall|h: ShapeIndex| final(self).live_spec(h) <==> old(self).live_spec(h),
            match r {
                Some(m) => old(self).shape_spec(shape_index) == Some(*m),
                None => old(self).shape_spec(shape_index) is None,
            },
            match r {
                Some(m) => final(self).shape_spec(shape_index) == Some(*final(m)),
                None => true,
            },
            match r {
                Some(m) => forall|h: ShapeIndex|
                    h != shape_index ==> final(self).shape_spec(h) == old(self).shape_spec(h),
                None => forall|h: ShapeIndex|
                    final(self).shape_spec(h) == old(self).shape_spec(h),
            },

    {
        self.shapes_array.get_mut(shape_index)
    }

    /// The collisions of the shape under `shape_index` against every other
    /// live shape, in live-list order: exactly [`collisions_spec`].  A
    /// stale or removed handle yields no collisions.  The scan is
    /// one-directional: it tests only the queried shape against the
    /// others, so querying both sides of a colliding pair reports the pair
    /// twice, once from each side.
    pub fn check_collisions(&mut self, shape_index: ShapeIndex) -> (r: Vec<Collision>)
        requires
            old(self).wf(),
            old(self).shapes_bounded(),
        ensures
            *final(self) == *old(self),
            old(self).live_spec(shape_index) ==> r.deep_view() == collisions_spec(
                old(self).array_view(),
                shape_index,
                old(self).shape_spec(shape_index)->Some_0,
                old(self).live_handles(),
            ),
            !old(self).live_spec(shape_index) ==> r.deep_view() == Seq::<
                CollisionView,
            >::empty(),
            forall|k: int|
                0 <= k < r.deep_view().len() ==> ({
                    let c = #[trigger] r.deep_view()[k];
                    c.shape_a == shape_index && c.shape_b != shape_index && old(
                        self,
                    ).live_spec(c.shape_b)
                }),
    {
        if self.shapes_allocator.is_live(shape_index) {
            proof {
                assert(self.shapes_allocator.is_live_spec(shape_index));
                assert(array_get_spec(self.shapes_array@, shape_index@) is Some);
            }
            let shape = self.shapes_array.get(shape_index).unwrap();
            let ghost qs = shape_spec_of(*self, shape_index);
            let ghost arrv = self.shapes_array@;
            let ghost hs = self.shapes@;
            proof {
                assert(self.live_spec(shape_index));
                assert(match self.shape_spec(shape_index) {
                    Some(s) => s.bounded(),
                    None => true,
                });
                assert(qs.bounded());
            }
            let mut colls: Vec<Collision> = Vec::new();
            let mut i: usize = 0;
            while i < self.shapes.len()
                invariant
                    self.wf(),
                    self.shapes_bounded(),
                    arrv == self.shapes_array@,
                    hs == self.shapes@,
                    self.live_spec(shape_index),
                    self.shape_spec(shape_index) == Some(*shape),
                    qs == *shape,
                    qs.bounded(),
                    0 <= i <= hs.len(),
                    colls.deep_view() == collisions_spec(
                        arrv,
                        shape_index,
                        qs,
                        hs.take(i as int),
                    ),
                decreases hs.len() - i,
            {
                proof {
                    lemma_collisions_take(arrv, shape_index, qs, hs, i as int);
                    assert(self.shapes_allocator.is_live_spec(hs[i as int]));
                    assert(array_get_spec(arrv, hs[i as int]@) is Some);
                }
                let si = self.shapes[i];
                if !(si.index() == shape_index.index() && si.generation()
                    == shape_index.generation()) {
                    proof {
                        assert(si@ != shape_index@);
                        assert(si != shape_index);
                        assert(self.live_spec(si));
                    }
                    let other = self.shapes_array.get(si).unwrap();
                    proof {
                        assert(array_get_spec(arrv, si@) == Some(*other));
                        assert(other.bounded());
                    }
                    let ghost prior = colls.deep_view();
                    match shape.is_colliding(other) {
                        Some(mpv) => {
                            let record = Collision {
                                resolve_x: mpv.x,
                                resolve_y: mpv.y,
                                shape_a: shape_index,
                                shape_b: si,
                            };
                            colls.push(record);
                            proof {
                                assert(colls.deep_view() =~= prior.push(record@));
                                assert(record@ == (CollisionView {
                                    resolve: mpv@,
                                    shape_a: shape_index,
                                    shape_b: si,
                                }));
                                assert(colls.deep_view() =~= collisions_spec(
                                    arrv,
                                    shape_index,
                                    qs,
                                    hs.take(i as int + 1),
                                ));
                            }
                        },
                        None => {
                            proof {
                                assert(colls.deep_view() =~= collisions_spec(
                                    arrv,
                                    shape_index,
                                    qs,
                                    hs.take(i as int + 1),
                                ));
                            }
                        },
                    }
                } else {
                    proof {
                        assert(si@ == shape_index@);
                        crate::generation::lemma_index_view_injective(si, shape_index);
                        assert(colls.deep_view() =~= collisions_spec(
                            arrv,
                            shape_index,
                            qs,
                            hs.take(i as int + 1),
                        ));
                    }
                }
                i = i + 1;
            }
            proof {
                assert(hs.take(hs.len() as int) =~= hs);
                lemma_collisions_members(arrv, shape_index, qs, hs);
                assert forall|k: int|
                    0 <= k < colls.deep_view().len() implies ({
                    let c = #[trigger] colls.deep_view()[k];
                    c.shape_a == shape_index && c.shape_b != shape_index && self.live_spec(
                        c.shape_b,
                    )
                }) by {
                    let c = colls.deep_view()[k];
                    assert(hs.contains(c.shape_b));
                    let w = choose|w: int| 0 <= w < hs.len() && hs[w] == c.shape_b;
                    assert(self.shapes_allocator.is_live_spec(hs[w]));
                }
            }
            colls
        } else {
            let empty: Vec<Collision> = Vec::new();
            proof {
                assert(empty.deep_view() =~= Seq::<CollisionView>::empty());
            }
            empty
        }
    }
}

/// A space stays within coordinate bounds when nothing observable changes.
pub proof fn lemma_bounded_preserved(pre: Space, post: Space)
    requires
        pre.shapes_bounded(),
        forall|h: ShapeIndex| post.live_spec(h) <==> pre.live_spec(h),
        forall|h: ShapeIndex| post.shape_spec(h) == pre.shape_spec(h),
    ensures
        post.shapes_bounded(),
{
    assert forall|h: ShapeIndex| #[trigger] post.live_spec(h) implies match post.shape_spec(h) {
        Some(t) => t.bounded(),
        None => true,
    } by {
        assert(pre.live_spec(h));
        assert(post.shape_spec(h) == pre.shape_spec(h));
    }
}

/// A space stays within coordinate bounds when one stored shape is
/// replaced by a bounded one and nothing else changes.
pub proof fn lemma_bounded_after_update(pre: Space, post: Space, hx: ShapeIndex, s: Shape)
    requires
        pre.shapes_bounded(),
        s.bounded(),
        forall|h: ShapeIndex| post.live_spec(h) <==> pre.live_spec(h),
        post.shape_spec(hx) == Some(s),
        forall|h: ShapeIndex| h != hx ==> post.shape_spec(h) == pre.shape_spec(h),
    ensures
        post.shapes_bounded(),
{
    assert forall|h: ShapeIndex| #[trigger] post.live_spec(h) implies match post.shape_spec(h) {
        Some(t) => t.bounded(),
        None => true,
    } by {
        if h != hx {
            assert(pre.live_spec(h));
            assert(post.shape_spec(h) == pre.shape_spec(h));
        }
    }
}

/// The shape a live handle refers to.
pub open spec fn shape_spec_of(s: Space, h: ShapeIndex) -> Shape {
    s.shape_spec(h)->Some_0
}

/// Membership after removal: every handle kept by [`without_handle`] occurs
/// in the original list, and the removed handle is gone.
proof fn lemma_without_handle_membership(hs: Seq<ShapeIndex>, h: ShapeIndex)
    ensures
        forall|k: int|
            0 <= k < without_handle(hs, h).len() ==> hs.contains(
                #[trigger] without_handle(hs, h)[k],
            ) && without_handle(hs, h)[k] != h,
    decreases hs.len(),
{
    if hs.len() > 0 {
        lemma_without_handle_membership(hs.drop_last(), h);
        assert forall|k: int|
            0 <= k < without_handle(hs, h).len() implies hs.contains(
            #[trigger] without_handle(hs, h)[k],
        ) && without_handle(hs, h)[k] != h by {
            let init = without_handle(hs.drop_last(), h);
            if k < init.len() {
                assert(hs.drop_last().contains(init[k]));
                let w = choose|w: int|
                    0 <= w < hs.drop_last().len() && hs.drop_last()[w] == init[k];
                assert(hs[w] == init[k]);
            } else {
                assert(without_handle(hs, h)[k] == hs.last());
                assert(hs[hs.len() - 1] == hs.last());
            }
        }
    }
}

/// Removal keeps the remaining handles distinct.
proof fn lemma_without_handle_nodup(hs: Seq<ShapeIndex>, h: ShapeIndex)
    requires
        forall|k: int, l: int| 0 <= k < l < hs.len() ==> hs[k] != hs[l],
    ensures
        forall|k: int, l: int|
            0 <= k < l < without_handle(hs, h).len() ==> without_handle(hs, h)[k]
                != without_handle(hs, h)[l],
    decreases hs.len(),
{
    if hs.len() > 0 {
        let prefix = hs.drop_last();
        assert forall|k: int, l: int| 0 <= k < l < prefix.len() implies prefix[k]
            != prefix[l] by {
            assert(hs[k] == prefix[k]);
            assert(hs[l] == prefix[l]);
        }
        lemma_without_handle_nodup(prefix, h);
        lemma_without_handle_membership(prefix, h);
        let init = without_handle(prefix, h);
        if hs.last() != h {
            assert forall|k: int, l: int|
                0 <= k < l < without_handle(hs, h).len() implies without_handle(hs, h)[k]
                != without_handle(hs, h)[l] by {
                if l < init.len() {
                } else {
                    assert(without_handle(hs, h)[l] == hs.last());
                    assert(prefix.contains(init[k]));
                    let w = choose|w: int| 0 <= w < prefix.len() && prefix[w] == init[k];
                    assert(hs[w] == init[k]);
                    assert(hs[w] != hs[hs.len() - 1]);
                }
            }
        }
    }
}

/// A handle other than the removed one keeps its place in the list.
proof fn lemma_without_handle_keeps(hs: Seq<ShapeIndex>, h: ShapeIndex, w: int)
    requires
        0 <= w < hs.len(),
        hs[w] != h,
    ensures
        without_handle(hs, h).contains(hs[w]),
    decreases hs.len(),
{
    if w == hs.len() - 1 {
        let init = without_handle(hs.drop_last(), h);
        assert(without_handle(hs, h)[init.len() as int] == hs.last());
    } else {
        lemma_without_handle_keeps(hs.drop_last(), h, w);
        assert(hs.drop_last()[w] == hs[w]);
        let init = without_handle(hs.drop_last(), h);
        let k = choose|k: int| 0 <= k < init.len() && init[k] == hs[w];
        if hs.last() == h {
            assert(without_handle(hs, h)[k] == hs[w]);
        } else {
            assert(without_handle(hs, h)[k] == hs[w]);
        }
    }
}

} // verus!
