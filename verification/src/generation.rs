//! Generational indices: reusable, ABA-safe handles.
//!
//! An allocator hands out `(index, generation)` pairs.  A slot's generation
//! strictly increases every time the slot is reused, so a handle kept after
//! its slot was freed and reallocated can never be mistaken for the handle of
//! the new occupant.

use std::collections::VecDeque;
use vstd::prelude::*;

verus! {

/// A reusable handle: a slot position together with the generation of the
/// occupant it refers to.  Possessing a handle does not guarantee that the
/// referenced slot is still live.
#[derive(Debug, Copy, Clone, PartialEq, Eq, Hash, Structural)]
pub struct GenerationalIndex {
    index: usize,
    generation: u64,
}

/// Ghost model of a [`GenerationalIndex`]: its two fields as mathematical
/// integers.
pub struct GenerationalIndexView {
    pub index: int,
    pub generation: int,
}

impl View for GenerationalIndex {
    type V = GenerationalIndexView;

    closed spec fn view(&self) -> GenerationalIndexView {
        GenerationalIndexView { index: self.index as int, generation: self.generation as int }
    }
}

impl GenerationalIndex {
    /// The slot position this handle refers to.
    pub fn index(&self) -> (r: usize)
        ensures
            r == self@.index,
    {
        self.index
    }

    /// The generation of the occupant this handle refers to.
    pub fn generation(&self) -> (r: u64)
        ensures
            r == self@.generation,
    {
        self.generation
    }
}

/// Two handles with equal views are the same handle.
pub proof fn lemma_index_view_injective(a: GenerationalIndex, b: GenerationalIndex)
    requires
        a@ == b@,
    ensures
        a == b,
{
}

/// Handle equality and view equality coincide.
pub proof fn lemma_index_view_eq(a: GenerationalIndex, b: GenerationalIndex)
    ensures
        (a == b) <==> (a@ == b@),
{
}

/// Handle equality and view equality coincide (ambient form).
pub broadcast proof fn lemma_index_view_eq_auto(a: GenerationalIndex, b: GenerationalIndex)
    ensures
        #![trigger a.view(), b.view()]
        (a == b) <==> (a@ == b@),
{
}

/// One slot record of the allocator: whether the slot is occupied, and the
/// generation of its current or most recent occupant.
#[derive(Debug)]
struct AllocatorEntry {
    is_live: bool,
    generation: u64,
}

/// Ghost model of one allocator slot.
pub struct SlotView {
    pub live: bool,
    pub generation: int,
}

/// Ghost model of the allocator: the slot records in order, and the queue of
/// freed slot positions awaiting reuse (oldest first).
pub struct AllocatorView {
    pub slots: Seq<SlotView>,
    pub free: Seq<int>,
}

/// Issues [`GenerationalIndex`] handles, reusing freed slot positions in
/// first-in-first-out order while increasing the slot's generation on every
/// reuse.
#[derive(Debug)]
pub struct GenerationalIndexAllocator {
    entries: Vec<AllocatorEntry>,
    free: VecDeque<usize>,
}

impl View for GenerationalIndexAllocator {
    type V = AllocatorView;

    closed spec fn view(&self) -> AllocatorView {
        AllocatorView {
            slots: self.entries@.map_values(
                |e: AllocatorEntry| SlotView { live: e.is_live, generation: e.generation as int },
            ),
            free: self.free@.map_values(|i: usize| i as int),
        }
    }
}

impl GenerationalIndexAllocator {
    /// The allocator's internal consistency: every queued free position names
    /// an existing, unoccupied slot, and no position is queued twice.
    pub open spec fn wf(&self) -> bool {
        let v = self@;
        &&& forall|k: int|
            0 <= k < v.free.len() ==> 0 <= #[trigger] v.free[k] < v.slots.len()
                && !v.slots[v.free[k]].live
        &&& forall|k: int, l: int| 0 <= k < l < v.free.len() ==> v.free[k] != v.free[l]
    }

    /// Whether `idx` refers to the current occupant of a live slot.
    pub open spec fn is_live_spec(&self, idx: GenerationalIndex) -> bool {
        let v = self@;
        &&& 0 <= idx@.index < v.slots.len()
        &&& v.slots[idx@.index].generation == idx@.generation
        &&& v.slots[idx@.index].live
    }

    /// Creates an allocator with no slots.
    pub fn new() -> (r: GenerationalIndexAllocator)
        ensures
            r.wf(),
            r@.slots.len() == 0,
            r@.free.len() == 0,
            forall|i: GenerationalIndex| !r.is_live_spec(i),
    {
        GenerationalIndexAllocator { free: VecDeque::new(), entries: Vec::new() }
    }

    /// Issues a handle.  The oldest freed slot position is reused, with its
    /// generation increased by one — strictly above every handle previously
    /// issued for that position — and a fresh slot is appended at generation
    /// zero when no freed position is queued.  The one machine-limit
    /// accommodation: a freed slot whose generation counter has reached its
    /// maximum is never reused (a fresh slot is appended instead), since its
    /// generation can no longer grow.  The returned handle was not live
    /// before the call and is live after it; no other handle changes
    /// liveness.
    pub fn allocate(&mut self) -> (r: GenerationalIndex)
        requires
            old(self).wf(),
        ensures
            final(self).wf(),
            !old(self).is_live_spec(r),
            final(self).is_live_spec(r),
            forall|i: GenerationalIndex|
                i@.index != r@.index ==> (final(self).is_live_spec(i) <==> old(
                    self,
                ).is_live_spec(i)),
            ({
                let ov = old(self)@;
                let nv = final(self)@;
                if ov.free.len() > 0 && ov.slots[ov.free[0]].generation < u64::MAX {
                    &&& r@.index == ov.free[0]
                    &&& r@.generation == ov.slots[ov.free[0]].generation + 1
                    &&& nv.slots == ov.slots.update(
                        ov.free[0],
                        (SlotView { live: true, generation: r@.generation }),
                    )
                    &&& nv.free == ov.free.drop_first()
                } else {
                    &&& r@.index == ov.slots.len()
                    &&& r@.generation == 0
                    &&& nv.slots == ov.slots.push((SlotView { live: true, generation: 0 }))
                    &&& nv.free == ov.free
                }
            }),
    {
        let ghost ov = self@;
        let mut reuse = false;
        if self.free.len() > 0 {
            proof {
                assert(0 <= ov.free[0] < ov.slots.len());
                assert(self.entries@.len() == ov.slots.len());
            }
            let head = self.free[0];
            reuse = self.entries[head].generation < u64::MAX;
        }
        if reuse {
            let index = self.free.pop_front().unwrap();
            proof {
                assert(ov.free[0] == index as int);
                assert(0 <= ov.free[0] < ov.slots.len());
                assert(self.entries@.len() == ov.slots.len());
            }
            assert(!self.entries[index as int].is_live);
            let next_generation = self.entries[index].generation + 1;
            let entry = &mut self.entries[index];
            entry.generation = next_generation;
            entry.is_live = true;
            proof {
                assert(self@.slots =~= ov.slots.update(
                    index as int,
                    SlotView { live: true, generation: next_generation as int },
                ));
                assert(self@.free =~= ov.free.drop_first());
            }
            GenerationalIndex { index, generation: next_generation }
        } else {
            let index = self.entries.len();
            self.entries.push(AllocatorEntry { is_live: true, generation: 0 });
            proof {
                assert(self@.slots =~= ov.slots.push(SlotView { live: true, generation: 0 }));
                assert(self@.free =~= ov.free);
            }
            GenerationalIndex { index, generation: 0 }
        }
    }

    /// Releases a handle.  A live handle's slot is marked unoccupied and its
    /// position queued for reuse; the call reports whether the handle was
    /// live.  On a stale or already-dead handle nothing changes and `false`
    /// is returned, so releasing twice is harmless.
    pub fn deallocate(&mut self, index: GenerationalIndex) -> (r: bool)
        requires
            old(self).wf(),
        ensures
            final(self).wf(),
            r == old(self).is_live_spec(index),
            !final(self).is_live_spec(index),
            !old(self).is_live_spec(index) ==> final(self)@ == old(self)@,
            old(self).is_live_spec(index) ==> final(self)@ == (AllocatorView {
                slots: old(self)@.slots.update(
                    index@.index,
                    (SlotView { live: false, generation: index@.generation }),
                ),
                free: old(self)@.free.push(index@.index),
            }),
            forall|i: GenerationalIndex|
                i@.index != index@.index ==> (final(self).is_live_spec(i) <==> old(
                    self,
                ).is_live_spec(i)),
    {
        let ghost ov = self@;
        let is_live = self.is_live(index);
        if is_live {
            self.entries[index.index].is_live = false;
            self.free.push_back(index.index);
            proof {
                assert(self@.slots =~= ov.slots.update(
                    index@.index,
                    SlotView { live: false, generation: index@.generation },
                ));
                assert(self@.free =~= ov.free.push(index@.index));
                assert forall|k: int| 0 <= k < ov.free.len() implies ov.free[k]
                    != index@.index by {}
            }
        }
        is_live
    }

    /// Whether `index` refers to the current occupant of a live slot.
    pub fn is_live(&self, index: GenerationalIndex) -> (r: bool)
        ensures
            r == self.is_live_spec(index),
    {
        if index.index < self.entries.len() {
            let entry = &self.entries[index.index];
            entry.generation == index.generation && entry.is_live
        } else {
            false
        }
    }
}

/// No two simultaneously-live handles share a slot position without being the
/// same handle: a slot has exactly one live occupant, so its position and the
/// occupant's generation identify a handle uniquely.
pub proof fn lemma_live_handles_unique(
    a: &GenerationalIndexAllocator,
    h1: GenerationalIndex,
    h2: GenerationalIndex,
)
    requires
        a.is_live_spec(h1),
        a.is_live_spec(h2),
        h1@.index == h2@.index,
    ensures
        h1 == h2,
{
    assert(h1@.generation == a@.slots[h1@.index].generation);
    lemma_index_view_injective(h1, h2);
}

/// The ABA-safety of generational handles: once a slot carries a later
/// generation than a handle's, that handle is reported not-live and can
/// never resolve again.  After a release and a reallocation of the same
/// slot position, the new handle's generation is strictly greater (see
/// [`GenerationalIndexAllocator::allocate`]), so this applies to every
/// outdated handle.
pub proof fn lemma_outdated_handle_not_live(
    a: &GenerationalIndexAllocator,
    old_handle: GenerationalIndex,
    new_handle: GenerationalIndex,
)
    requires
        a.is_live_spec(new_handle),
        old_handle@.index == new_handle@.index,
        old_handle@.generation < new_handle@.generation,
    ensures
        !a.is_live_spec(old_handle),
{
}

/// One stored value of the array: the value together with the generation of
/// the handle that wrote it.
#[derive(Debug)]
struct ArrayEntry<T> {
    value: T,
    generation: u64,
}

/// Ghost model of one stored value of the array.
pub struct ArrayEntryView<T> {
    pub generation: int,
    pub value: T,
}

/// Sparse storage addressed by [`GenerationalIndex`]: each slot holds at most
/// one value, stamped with the generation that wrote it, and every access is
/// generation-checked.
#[derive(Debug)]
pub struct GenerationalIndexArray<T>(Vec<Option<ArrayEntry<T>>>);

impl<T> View for GenerationalIndexArray<T> {
    type V = Seq<Option<ArrayEntryView<T>>>;

    closed spec fn view(&self) -> Seq<Option<ArrayEntryView<T>>> {
        self.0@.map_values(
            |e: Option<ArrayEntry<T>>| match e {
                Some(en) => Some(
                    ArrayEntryView { generation: en.generation as int, value: en.value },
                ),
                None => None,
            },
        )
    }
}

/// What a generation-checked read of slot model `s` through handle `idx`
/// yields: the stored value exactly when the slot holds one stamped with
/// `idx`'s generation, and nothing otherwise.
pub open spec fn array_get_spec<T>(
    s: Seq<Option<ArrayEntryView<T>>>,
    idx: GenerationalIndexView,
) -> Option<T> {
    if 0 <= idx.index < s.len() && s[idx.index] is Some && s[idx.index]->Some_0.generation
        == idx.generation {
        Some(s[idx.index]->Some_0.value)
    } else {
        None
    }
}

/// What a generation-gated write of `value` through handle `idx` does to the
/// slot model `s`: an occupied slot is overwritten (and restamped) only when
/// the incoming generation is at least the stored one, a stale write changes
/// nothing, and a write past the end grows the storage with empty slots.
pub open spec fn array_set_spec<T>(
    s: Seq<Option<ArrayEntryView<T>>>,
    idx: GenerationalIndexView,
    value: T,
) -> Seq<Option<ArrayEntryView<T>>> {
    let entry = Some(ArrayEntryView { generation: idx.generation, value });
    if 0 <= idx.index < s.len() && s[idx.index] is Some {
        if s[idx.index]->Some_0.generation <= idx.generation {
            s.update(idx.index, entry)
        } else {
            s
        }
    } else {
        let padded = if s.len() <= idx.index {
            s + Seq::new((idx.index + 1 - s.len()) as nat, |k: int| None)
        } else {
            s
        };
        padded.update(idx.index, entry)
    }
}

/// A write through a handle whose generation is older than the stored one
/// alters nothing.
pub proof fn lemma_stale_set_ignored<T>(
    s: Seq<Option<ArrayEntryView<T>>>,
    idx: GenerationalIndexView,
    value: T,
)
    requires
        0 <= idx.index < s.len(),
        s[idx.index] is Some,
        s[idx.index]->Some_0.generation > idx.generation,
    ensures
        array_set_spec(s, idx, value) == s,
{
}

/// A read through a handle whose generation differs from the stored one finds
/// nothing, even though the slot holds a value.
pub proof fn lemma_mismatched_get_not_found<T>(
    s: Seq<Option<ArrayEntryView<T>>>,
    idx: GenerationalIndexView,
)
    requires
        0 <= idx.index < s.len(),
        s[idx.index] is Some,
        s[idx.index]->Some_0.generation != idx.generation,
    ensures
        array_get_spec(s, idx) is None,
{
}

impl<T> GenerationalIndexArray<T> {
    /// Creates an empty array.
    pub fn new() -> (r: GenerationalIndexArray<T>)
        ensures
            r@.len() == 0,
    {
        GenerationalIndexArray(Vec::new())
    }

    /// Stores `value` under `index`, per [`array_set_spec`]: overwriting an
    /// occupied slot only when `index`'s generation is at least the stored
    /// one, and growing the backing storage when the slot does not exist yet.
    pub fn set(&mut self, index: GenerationalIndex, value: T)
        ensures
            final(self)@ == array_set_spec(old(self)@, index@, value),
    {
        let i = index.index;
        let entry = ArrayEntry { value, generation: index.generation };
        if i < self.0.len() {
            let stored_generation = match &self.0[i] {
                Some(e) => Some(e.generation),
                None => None,
            };
            match stored_generation {
                Some(g) => {
                    if index.generation >= g {
                        self.0[i] = Some(entry);
                    }
                    // A write with a strictly older generation is stale:
                    // it is silently ignored.
                },
                None => {
                    self.0[i] = Some(entry);
                },
            }
            proof {
                assert(final(self)@ =~= array_set_spec(old(self)@, index@, entry.value));
            }
        } else {
            while self.0.len() <= i
                invariant
                    old(self).0@.len() <= self.0@.len() <= i + 1,
                    self.0@ == old(self).0@ + Seq::new(
                        (self.0@.len() - old(self).0@.len()) as nat,
                        |k: int| None::<ArrayEntry<T>>,
                    ),
                decreases i + 1 - self.0@.len(),
            {
                let ghost prev = self.0@;
                self.0.push(None);
                proof {
                    assert(self.0@ =~= old(self).0@ + Seq::new(
                        (self.0@.len() - old(self).0@.len()) as nat,
                        |k: int| None::<ArrayEntry<T>>,
                    ));
                }
            }
            self.0[i] = Some(entry);
            proof {
                assert(final(self)@ =~= array_set_spec(old(self)@, index@, entry.value));
            }
        }
    }

    /// Reads the value stored under `index`, per [`array_get_spec`]: found
    /// only on an exact generation match.
    pub fn get(&self, index: GenerationalIndex) -> (r: Option<&T>)
        ensures
            ({
                let g = array_get_spec(self@, index@);
                match r {
                    Some(v) => g == Some(*v),
                    None => g is None,
                }
            }),
    {
        if index.index < self.0.len() {
            match &self.0[index.index] {
                Some(item) => if index.generation == item.generation {
                    Some(&item.value)
                } else {
                    None
                },
                None => None,
            }
        } else {
            None
        }
    }

    /// Mutably borrows the value stored under `index`, per
    /// [`array_get_spec`]: found only on an exact generation match.  Writing
    /// through the returned borrow updates the stored value in place and
    /// leaves its generation stamp unchanged.
    pub fn get_mut(&mut self, index: GenerationalIndex) -> (r: Option<&mut T>)
        ensures
            ({
                match r {
                    Some(m) => {
                        &&& array_get_spec(old(self)@, index@) == Some(*m)
                        &&& final(self)@ == old(self)@.update(
                            index@.index,
                            Some(
                                (ArrayEntryView {
                                    generation: index@.generation,
                                    value: *final(m),
                                }),
                            ),
                        )
                    },
                    None => {
                        &&& array_get_spec(old(self)@, index@) is None
                        &&& final(self)@ == old(self)@
                    },
                }
            }),
    {
        if index.index < self.0.len() {
            let slot = &mut self.0[index.index];
            match slot {
                Some(item) => if index.generation == item.generation {
                    Some(&mut item.value)
                } else {
                    None
                },
                None => None,
            }
        } else {
            None
        }
    }
}

} // verus!
