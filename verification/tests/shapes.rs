use shape_space::geom::Vec2;
use shape_space::shape::Shape;

fn tags_of(items: &[&str]) -> Vec<String> {
    items.iter().map(|s| s.to_string()).collect()
}

#[test]
fn has_tags_needs_every_queried_tag() {
    let mut shape = Shape::new_rectangle_xywh(0, 0, 10, 10);
    shape.tags_mut().push("a".to_string());
    shape.tags_mut().push("b".to_string());
    assert!(shape.has_tags(&tags_of(&["a"])));
    assert!(shape.has_tags(&tags_of(&["a", "b"])));
    assert!(!shape.has_tags(&tags_of(&["a", "c"])));
    assert!(shape.has_tags(&tags_of(&[])));
}

#[test]
fn separated_boxes_collide_in_neither_direction() {
    let a = Shape::new_rectangle_xywh(0, 0, 10, 10);
    let b = Shape::new_rectangle_xywh(20, 20, 5, 5);
    assert_eq!(a.is_colliding(&b), None);
    assert_eq!(b.is_colliding(&a), None);
}

#[test]
fn touching_boxes_report_no_collision() {
    // A shared edge gives a zero-length translation, which counts as no
    // collision.
    let a = Shape::new_rectangle_xywh(0, 0, 10, 10);
    let b = Shape::new_rectangle_xywh(10, 0, 10, 10);
    assert_eq!(a.is_colliding(&b), None);
}

#[test]
fn diagonal_overlap_resolves_along_minimum_depth_axis() {
    let a = Shape::new_rectangle_xywh(0, 0, 10, 10);
    let b = Shape::new_rectangle_xywh(5, 5, 10, 10);
    // Both axes overlap by depth 5; the translation has length 5 along a
    // single axis and pushes `a` away from `b`'s centroid.
    let mtv = a.is_colliding(&b).expect("boxes overlap");
    assert_eq!(mtv, Vec2 { x: -5, y: 0 });
}

#[test]
fn shallow_overlap_reports_depth_two() {
    let a = Shape::new_rectangle_xywh(0, 0, 10, 10);
    let b = Shape::new_rectangle_xywh(8, 0, 10, 10);
    let mtv = a.is_colliding(&b).expect("boxes overlap");
    assert_eq!(mtv, Vec2 { x: -2, y: 0 });
    // Queried the other way round, the push moves `b` away from `a`.
    let mtv_rev = b.is_colliding(&a).expect("boxes overlap");
    assert_eq!(mtv_rev, Vec2 { x: 2, y: 0 });
}

#[test]
fn corner_rectangles_from_both_constructors_agree() {
    let a1 = Shape::new_rectangle_xywh(2, 3, 8, 4);
    let a2 = Shape::new_rectangle_xyxy(2, 3, 10, 7);
    let other = Shape::new_rectangle_xywh(8, 3, 10, 10);
    assert_eq!(a1.is_colliding(&other), a2.is_colliding(&other));
    assert_eq!(a1.x(), a2.x());
    assert_eq!(a1.y(), a2.y());
}

#[test]
fn reversed_corners_still_collide() {
    // Corners in reverse order give a negative size; the corner points
    // still span the same box.
    let a = Shape::new_rectangle_xyxy(10, 10, 0, 0);
    let b = Shape::new_rectangle_xywh(8, 0, 10, 10);
    assert!(a.is_colliding(&b).is_some());
}

#[test]
fn non_collidable_shapes_never_collide() {
    let mut a = Shape::new_rectangle_xywh(0, 0, 10, 10);
    let b = Shape::new_rectangle_xywh(5, 0, 10, 10);
    assert!(a.is_colliding(&b).is_some());
    *a.collidable_mut() = false;
    assert_eq!(a.is_colliding(&b), None);
    assert_eq!(b.is_colliding(&a), None);
    *a.collidable_mut() = true;
    assert!(a.is_colliding(&b).is_some());
}

#[test]
fn compound_returns_first_matching_child() {
    let a = Shape::new_rectangle_xywh(0, 0, 10, 10);
    let shallow = Shape::new_rectangle_xywh(5, 0, 10, 10);
    let deep = Shape::new_rectangle_xywh(2, 0, 10, 10);
    let expected = a.is_colliding(&shallow);
    assert!(expected.is_some());
    // Both children overlap `a`; the deeper child comes later, but the
    // first child in order wins.
    let compound = Shape::new_compound(vec![
        Shape::new_rectangle_xywh(5, 0, 10, 10),
        Shape::new_rectangle_xywh(2, 0, 10, 10),
    ]);
    assert_eq!(a.is_colliding(&compound), expected);
    // With the order reversed, the deeper child is found first.
    let reversed = Shape::new_compound(vec![
        Shape::new_rectangle_xywh(2, 0, 10, 10),
        Shape::new_rectangle_xywh(5, 0, 10, 10),
    ]);
    assert_eq!(a.is_colliding(&reversed), a.is_colliding(&deep));
}

#[test]
fn compound_skips_non_colliding_children() {
    let a = Shape::new_rectangle_xywh(0, 0, 10, 10);
    let compound = Shape::new_compound(vec![
        Shape::new_rectangle_xywh(100, 100, 5, 5),
        Shape::new_rectangle_xywh(8, 0, 10, 10),
    ]);
    let direct = a.is_colliding(&Shape::new_rectangle_xywh(8, 0, 10, 10));
    assert_eq!(a.is_colliding(&compound), direct);
}

#[test]
fn compound_as_queried_side_never_collides() {
    // Compound-versus-anything is a deliberate scope limitation: the
    // queried side being a compound always reports no collision.
    let compound = Shape::new_compound(vec![Shape::new_rectangle_xywh(0, 0, 10, 10)]);
    let b = Shape::new_rectangle_xywh(5, 0, 10, 10);
    assert_eq!(compound.is_colliding(&b), None);
    // The box queried against the compound does collide.
    assert!(b.is_colliding(&compound).is_some());
}

#[test]
fn shift_moves_only_the_origin() {
    let mut a = Shape::new_rectangle_xywh(1, 2, 3, 4);
    a.shift(10, 20);
    assert_eq!(a.x(), 11);
    assert_eq!(a.y(), 22);
    a.shift(-1, -2);
    assert_eq!(a.x(), 10);
    assert_eq!(a.y(), 20);
}

#[test]
fn shifted_translates_a_copy() {
    let mut a = Shape::new_rectangle_xywh(0, 0, 10, 10);
    a.tags_mut().push("solid".to_string());
    let moved = a.shifted(8, 0);
    assert_eq!(moved.x(), 8);
    assert_eq!(moved.y(), 0);
    assert_eq!(moved.tags(), a.tags());
    assert_eq!(moved.collidable(), a.collidable());
    // The original is untouched.
    assert_eq!(a.x(), 0);
    // The moved copy collides where the original did not.
    let b = Shape::new_rectangle_xywh(16, 0, 10, 10);
    assert_eq!(a.is_colliding(&b), None);
    assert!(moved.is_colliding(&b).is_some());
}

#[test]
fn shifted_compound_moves_children_not_its_origin() {
    let compound = Shape::new_compound(vec![Shape::new_rectangle_xywh(0, 0, 10, 10)]);
    let probe = Shape::new_rectangle_xywh(28, 0, 10, 10);
    assert_eq!(probe.is_colliding(&compound), None);
    let moved = compound.shifted(25, 0);
    // The compound's own origin stays untouched (it takes no part in
    // collision geometry) while every child moves by the delta.
    assert_eq!(moved.x(), compound.x());
    assert_eq!(moved.y(), compound.y());
    // The child now stands at x 25..35 and overlaps the probe.
    assert!(probe.is_colliding(&moved).is_some());
}

#[test]
fn position_accessors_edit_in_place() {
    let mut a = Shape::new_rectangle_xywh(0, 0, 10, 10);
    *a.x_mut() = 5;
    *a.y_mut() = 6;
    assert_eq!(a.x(), 5);
    assert_eq!(a.y(), 6);
}
