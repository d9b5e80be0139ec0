use shape_space::shape::Shape;
use shape_space::space::Space;

#[test]
fn end_to_end_overlap_reports_one_collision() {
    let mut space = Space::new();
    let a = space.add_shape(Shape::new_rectangle_xywh(0, 0, 10, 10));
    let b = space.add_shape(Shape::new_rectangle_xywh(8, 0, 10, 10));
    let collisions = space.check_collisions(a);
    assert_eq!(collisions.len(), 1);
    let c = &collisions[0];
    assert_eq!(c.shape_a, a);
    assert_eq!(c.shape_b, b);
    // The overlap is 2 deep along x; the translation pushes `a` toward
    // negative x, away from `b`.
    assert_eq!(c.resolve_x, -2);
    assert_eq!(c.resolve_y, 0);
}

#[test]
fn both_sides_of_a_pair_are_reported() {
    let mut space = Space::new();
    let a = space.add_shape(Shape::new_rectangle_xywh(0, 0, 10, 10));
    let b = space.add_shape(Shape::new_rectangle_xywh(8, 0, 10, 10));
    // The scan is one-directional: each side's query reports the pair
    // once, with its own translation.
    let from_a = space.check_collisions(a);
    let from_b = space.check_collisions(b);
    assert_eq!(from_a.len(), 1);
    assert_eq!(from_b.len(), 1);
    assert_eq!(from_a[0].resolve_x, -2);
    assert_eq!(from_b[0].resolve_x, 2);
}

#[test]
fn removal_is_idempotent_and_queries_empty() {
    let mut space = Space::new();
    let a = space.add_shape(Shape::new_rectangle_xywh(0, 0, 10, 10));
    let b = space.add_shape(Shape::new_rectangle_xywh(8, 0, 10, 10));
    space.remove_shape(a);
    // A second removal of the same handle is a harmless no-op.
    space.remove_shape(a);
    assert!(space.check_collisions(a).is_empty());
    // The other shape no longer sees the removed one.
    assert!(space.check_collisions(b).is_empty());
}

#[test]
fn stale_handles_stop_resolving_after_slot_reuse() {
    let mut space = Space::new();
    let a = space.add_shape(Shape::new_rectangle_xywh(0, 0, 10, 10));
    space.remove_shape(a);
    // The freed slot is reused for the new shape with a newer generation.
    let c = space.add_shape(Shape::new_rectangle_xywh(50, 50, 5, 5));
    assert_eq!(c.index(), a.index());
    assert!(c.generation() > a.generation());
    assert!(space.shape(a).is_none());
    assert!(space.shape(c).is_some());
}

#[test]
fn shape_accessor_returns_the_stored_shape() {
    let mut space = Space::new();
    let a = space.add_shape(Shape::new_rectangle_xywh(3, 4, 10, 10));
    let stored = space.shape(a).expect("shape should be stored");
    assert_eq!(stored.x(), 3);
    assert_eq!(stored.y(), 4);
}

#[test]
fn shape_mut_moves_a_shape_and_changes_collisions() {
    let mut space = Space::new();
    let a = space.add_shape(Shape::new_rectangle_xywh(0, 0, 10, 10));
    let b = space.add_shape(Shape::new_rectangle_xywh(30, 0, 10, 10));
    assert!(space.check_collisions(a).is_empty());
    {
        let shape = space.shape_mut(a).expect("shape should be stored");
        *shape.x_mut() = 25;
    }
    let collisions = space.check_collisions(a);
    assert_eq!(collisions.len(), 1);
    assert_eq!(collisions[0].shape_b, b);
}

#[test]
fn collisions_come_in_insertion_order() {
    let mut space = Space::new();
    let a = space.add_shape(Shape::new_rectangle_xywh(0, 0, 10, 10));
    let b = space.add_shape(Shape::new_rectangle_xywh(5, 0, 10, 10));
    let c = space.add_shape(Shape::new_rectangle_xywh(0, 5, 10, 10));
    let collisions = space.check_collisions(a);
    assert_eq!(collisions.len(), 2);
    assert_eq!(collisions[0].shape_b, b);
    assert_eq!(collisions[1].shape_b, c);
}

#[test]
fn removing_a_shape_keeps_the_order_of_the_rest() {
    let mut space = Space::new();
    let a = space.add_shape(Shape::new_rectangle_xywh(0, 0, 10, 10));
    let b = space.add_shape(Shape::new_rectangle_xywh(5, 0, 10, 10));
    let c = space.add_shape(Shape::new_rectangle_xywh(0, 5, 10, 10));
    space.remove_shape(b);
    let collisions = space.check_collisions(a);
    assert_eq!(collisions.len(), 1);
    assert_eq!(collisions[0].shape_b, c);
}

#[test]
fn non_collidable_shapes_are_excluded_from_queries() {
    let mut space = Space::new();
    let a = space.add_shape(Shape::new_rectangle_xywh(0, 0, 10, 10));
    let _b = space.add_shape(Shape::new_rectangle_xywh(5, 0, 10, 10));
    {
        let shape = space.shape_mut(a).expect("shape should be stored");
        *shape.collidable_mut() = false;
    }
    assert!(space.check_collisions(a).is_empty());
}

#[test]
fn default_space_is_empty() {
    let mut other = Space::new();
    let foreign = other.add_shape(Shape::new_rectangle_xywh(0, 0, 1, 1));
    let mut space = Space::default();
    // A handle from another space is not live here; the query is empty.
    assert!(space.check_collisions(foreign).is_empty());
    assert!(space.shape(foreign).is_none());
}
