use shape_space::generation::{GenerationalIndexAllocator, GenerationalIndexArray};

#[test]
fn fresh_allocations_use_new_slots() {
    let mut alloc = GenerationalIndexAllocator::new();
    let a = alloc.allocate();
    let b = alloc.allocate();
    assert_eq!(a.index(), 0);
    assert_eq!(a.generation(), 0);
    assert_eq!(b.index(), 1);
    assert_eq!(b.generation(), 0);
    assert!(alloc.is_live(a));
    assert!(alloc.is_live(b));
    assert_ne!(a, b);
}

#[test]
fn reuse_bumps_generation_and_kills_old_handle() {
    let mut alloc = GenerationalIndexAllocator::new();
    let a = alloc.allocate();
    assert!(alloc.deallocate(a));
    assert!(!alloc.is_live(a));
    let b = alloc.allocate();
    // The freed slot is reused with a strictly greater generation, so the
    // old handle and the new one never collide.
    assert_eq!(b.index(), a.index());
    assert!(b.generation() > a.generation());
    assert_eq!(b.generation(), 1);
    assert!(!alloc.is_live(a));
    assert!(alloc.is_live(b));
}

#[test]
fn deallocate_is_idempotent() {
    let mut alloc = GenerationalIndexAllocator::new();
    let a = alloc.allocate();
    assert!(alloc.deallocate(a));
    assert!(!alloc.deallocate(a));
    assert!(!alloc.deallocate(a));
    assert!(!alloc.is_live(a));
}

#[test]
fn deallocate_stale_handle_is_a_no_op() {
    let mut alloc = GenerationalIndexAllocator::new();
    let a = alloc.allocate();
    alloc.deallocate(a);
    let b = alloc.allocate();
    // `a` is stale: same slot, older generation.
    assert!(!alloc.deallocate(a));
    assert!(alloc.is_live(b));
}

#[test]
fn freed_slots_are_reused_oldest_first() {
    let mut alloc = GenerationalIndexAllocator::new();
    let a = alloc.allocate();
    let b = alloc.allocate();
    let _c = alloc.allocate();
    alloc.deallocate(a);
    alloc.deallocate(b);
    let d = alloc.allocate();
    let e = alloc.allocate();
    assert_eq!(d.index(), a.index());
    assert_eq!(e.index(), b.index());
    assert_eq!(d.generation(), 1);
    assert_eq!(e.generation(), 1);
}

#[test]
fn array_get_requires_exact_generation() {
    let mut alloc = GenerationalIndexAllocator::new();
    let mut arr: GenerationalIndexArray<i32> = GenerationalIndexArray::new();
    let a = alloc.allocate();
    arr.set(a, 41);
    assert_eq!(arr.get(a), Some(&41));
    alloc.deallocate(a);
    let b = alloc.allocate();
    arr.set(b, 42);
    // The slot still holds a value, but the old handle's generation no
    // longer matches: the read finds nothing.
    assert_eq!(arr.get(a), None);
    assert_eq!(arr.get(b), Some(&42));
}

#[test]
fn array_stale_set_is_ignored() {
    let mut alloc = GenerationalIndexAllocator::new();
    let mut arr: GenerationalIndexArray<i32> = GenerationalIndexArray::new();
    let a = alloc.allocate();
    alloc.deallocate(a);
    let b = alloc.allocate();
    arr.set(b, 7);
    // A write through the older handle must not clobber the newer
    // occupant's value.
    arr.set(a, 999);
    assert_eq!(arr.get(b), Some(&7));
    assert_eq!(arr.get(a), None);
}

#[test]
fn array_newer_set_overwrites_and_restamps() {
    let mut alloc = GenerationalIndexAllocator::new();
    let mut arr: GenerationalIndexArray<i32> = GenerationalIndexArray::new();
    let a = alloc.allocate();
    arr.set(a, 1);
    alloc.deallocate(a);
    let b = alloc.allocate();
    arr.set(b, 2);
    assert_eq!(arr.get(a), None);
    assert_eq!(arr.get(b), Some(&2));
}

#[test]
fn array_get_mut_edits_in_place() {
    let mut alloc = GenerationalIndexAllocator::new();
    let mut arr: GenerationalIndexArray<i32> = GenerationalIndexArray::new();
    let a = alloc.allocate();
    arr.set(a, 10);
    if let Some(v) = arr.get_mut(a) {
        *v = 20;
    } else {
        panic!("value should be present");
    }
    assert_eq!(arr.get(a), Some(&20));
    let b = alloc.allocate();
    // No value was ever stored under `b`'s slot.
    assert!(arr.get_mut(b).is_none());
}

#[test]
fn array_grows_for_large_indices() {
    let mut alloc = GenerationalIndexAllocator::new();
    let mut arr: GenerationalIndexArray<String> = GenerationalIndexArray::new();
    let mut handles = Vec::new();
    for i in 0..5 {
        let h = alloc.allocate();
        arr.set(h, format!("value-{}", i));
        handles.push(h);
    }
    for (i, h) in handles.iter().enumerate() {
        assert_eq!(arr.get(*h), Some(&format!("value-{}", i)));
    }
}
