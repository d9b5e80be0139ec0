use shape_space::geom::{
    centers_displacement, dot, generate_edges, is_separating_axis, orthogonal, smallest_push,
    Vec2,
};

fn square_points(x: i64, y: i64, side: i64) -> Vec<Vec2> {
    vec![
        Vec2 { x, y },
        Vec2 { x: x + side, y },
        Vec2 { x: x + side, y: y + side },
        Vec2 { x, y: y + side },
    ]
}

#[test]
fn orthogonal_rotates_by_ninety_degrees() {
    let v = Vec2 { x: 3, y: 4 };
    let o = orthogonal(v);
    assert_eq!(o, Vec2 { x: -4, y: 3 });
    // The rotated vector is perpendicular to the original.
    assert_eq!(dot(v, o), 0);
}

#[test]
fn dot_product_is_the_coordinate_sum() {
    assert_eq!(dot(Vec2 { x: 2, y: 3 }, Vec2 { x: 5, y: 7 }), 31);
    assert_eq!(dot(Vec2 { x: -2, y: 3 }, Vec2 { x: 5, y: -7 }), -31);
}

#[test]
fn edges_of_a_square_wrap_around() {
    let points = square_points(0, 0, 10);
    let edges = generate_edges(&points);
    assert_eq!(
        edges,
        vec![
            Vec2 { x: 10, y: 0 },
            Vec2 { x: 0, y: 10 },
            Vec2 { x: -10, y: 0 },
            Vec2 { x: 0, y: -10 },
        ]
    );
}

#[test]
fn separating_axis_reports_disjoint_projections() {
    let a = square_points(0, 0, 10);
    let b = square_points(20, 0, 10);
    // Projections onto the x-directed axis are [0, 100] and [200, 300]:
    // disjoint, so the axis separates the squares.
    assert_eq!(is_separating_axis(Vec2 { x: 10, y: 0 }, &a, &b), None);
    // Projections onto the y-directed axis are both [0, 100]: no
    // separation there, and the full overlap yields a push of depth 10.
    assert_eq!(
        is_separating_axis(Vec2 { x: 0, y: 10 }, &a, &b),
        Some(Vec2 { x: 0, y: 10 })
    );
}

#[test]
fn separating_axis_push_has_overlap_depth() {
    let a = square_points(0, 0, 10);
    let b = square_points(6, 0, 10);
    // x-projections (scaled by 10) are [0, 100] and [60, 160]: overlap
    // depth 40, so the push vector along (10, 0) has length 4.
    assert_eq!(
        is_separating_axis(Vec2 { x: 10, y: 0 }, &a, &b),
        Some(Vec2 { x: 4, y: 0 })
    );
}

#[test]
fn centers_displacement_points_between_centroids() {
    let a = square_points(0, 0, 10);
    let b = square_points(6, 2, 10);
    // The result is the centroid displacement scaled by the point count
    // (4): centroids are (5, 5) and (11, 7), so the displacement is
    // (6, 2) and the scaled result (24, 8).
    assert_eq!(centers_displacement(&a, &b), Vec2 { x: 24, y: 8 });
}

#[test]
fn smallest_push_picks_minimal_length_latest_on_ties() {
    let pvs = vec![
        Vec2 { x: 0, y: 7 },
        Vec2 { x: 3, y: 0 },
        Vec2 { x: 0, y: -3 },
        Vec2 { x: 5, y: 5 },
    ];
    // (3, 0) and (0, -3) tie at squared length 9; the later one wins.
    assert_eq!(smallest_push(&pvs), Vec2 { x: 0, y: -3 });
}
