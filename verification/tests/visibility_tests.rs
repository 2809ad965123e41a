//! The visibility engine on concrete scenes.

use raycasting::rat::Rat;
use raycasting::segment::Segment;
use raycasting::tile::{boundary_edges, Tile, TileType};
use raycasting::vector::Vector;
use raycasting::visibility::{
    calculate_intersection_points, origin_clear, raycast, VisibilityError,
};

/// The four edges of a square of side 10 centered on the origin.
fn square_side_10() -> Vec<Segment> {
    vec![
        Segment::from_coords(-5, -5, 5, -5),
        Segment::from_coords(5, -5, 5, 5),
        Segment::from_coords(5, 5, -5, 5),
        Segment::from_coords(-5, 5, -5, -5),
    ]
}

fn area_of_fan(triangles: &[raycasting::visibility::Triangle]) -> f64 {
    let coord = |r: Rat| -> f64 { r.num() as f64 / r.den() as f64 };
    triangles
        .iter()
        .map(|t| {
            let (ax, ay) = (coord(t.a.x), coord(t.a.y));
            let (bx, by) = (coord(t.b.x), coord(t.b.y));
            let (cx, cy) = (coord(t.c.x), coord(t.c.y));
            ((bx - ax) * (cy - ay) - (by - ay) * (cx - ax)).abs() / 2.0
        })
        .sum()
}

#[test]
fn square_from_center_sees_corners_and_probe_points() {
    let origin = Vector::new(0, 0);
    let segments = square_side_10();
    assert!(origin_clear(&origin, &segments));

    let points = calculate_intersection_points(origin, segments);

    // The four corners are each reached directly; each corner also
    // schedules two probe rays, exactly one of which lands on the
    // adjacent boundary edge and is kept. All points come out sorted by
    // angle around the origin, ascending from just below -135 degrees.
    let expected = vec![
        Vector::from_ratio(-5, 1, -495, 101),
        Vector::new(-5, -5),
        Vector::new(5, -5),
        Vector::from_ratio(5, 1, -495, 101),
        Vector::new(5, 5),
        Vector::from_ratio(495, 101, 5, 1),
        Vector::new(-5, 5),
        Vector::from_ratio(-5, 1, 495, 101),
    ];
    assert_eq!(points, expected);

    // Every corner is visible, and reported exactly once.
    for corner in [
        Vector::new(5, 5),
        Vector::new(-5, 5),
        Vector::new(-5, -5),
        Vector::new(5, -5),
    ] {
        assert_eq!(points.iter().filter(|p| **p == corner).count(), 1);
    }
}

#[test]
fn square_fan_covers_the_full_area() {
    let origin = Vector::new(0, 0);
    let triangles = raycast(origin, square_side_10()).unwrap();
    assert_eq!(triangles.len(), 8);
    for t in &triangles {
        assert_eq!(t.a, origin);
    }
    let area = area_of_fan(&triangles);
    assert!((area - 100.0).abs() < 1e-9, "fan area {area}");
}

#[test]
fn identical_inputs_give_identical_output() {
    let origin = Vector::new(0, 0);
    let first = calculate_intersection_points(origin, square_side_10());
    let second = calculate_intersection_points(origin, square_side_10());
    assert_eq!(first, second);
}

#[test]
fn coincident_endpoints_are_reported_once() {
    let origin = Vector::new(0, 0);
    // Two walls sharing the corner (2, 2).
    let segments = vec![
        Segment::from_coords(2, 0, 2, 2),
        Segment::from_coords(2, 2, 0, 2),
    ];
    assert!(origin_clear(&origin, &segments));

    let points = calculate_intersection_points(origin, segments);

    let expected = vec![
        Vector::new(2, 0),
        Vector::new(2, 2),
        Vector::from_ratio(198, 101, 2, 1),
        Vector::new(0, 2),
    ];
    assert_eq!(points, expected);
    let shared = Vector::new(2, 2);
    assert_eq!(points.iter().filter(|p| **p == shared).count(), 1);
}

#[test]
fn fan_requires_two_points() {
    let origin = Vector::new(0, 0);
    assert_eq!(
        raycast(origin, Vec::new()),
        Err(VisibilityError::TooFewPoints)
    );
}

#[test]
fn empty_scene_has_no_points() {
    let points = calculate_intersection_points(Vector::new(0, 0), Vec::new());
    assert!(points.is_empty());
}

#[test]
fn origin_on_a_wall_is_detected() {
    let origin = Vector::new(3, 0);
    let segments = vec![Segment::from_coords(0, 0, 5, 0)];
    assert!(!origin_clear(&origin, &segments));
    let clear_origin = Vector::new(3, 1);
    assert!(origin_clear(&clear_origin, &segments));
}

#[test]
fn tile_edges_trace_its_square() {
    let tile = Tile {
        x: 2,
        y: 1,
        tile_type: TileType::Wall,
    };
    let edges = tile.get_edges();
    assert_eq!(edges[0], Segment::from_coords(48, 48, 80, 48));
    assert_eq!(edges[1], Segment::from_coords(80, 48, 80, 16));
    assert_eq!(edges[2], Segment::from_coords(80, 16, 48, 16));
    assert_eq!(edges[3], Segment::from_coords(48, 16, 48, 48));
}

#[test]
fn boundary_encloses_the_map() {
    let edges = boundary_edges(30, 30);
    assert_eq!(edges.len(), 4);
    assert_eq!(edges[0], Segment::from_coords(0, 0, 960, 0));
    assert_eq!(edges[1], Segment::from_coords(960, 0, 960, 960));
    assert_eq!(edges[2], Segment::from_coords(960, 960, 0, 960));
    assert_eq!(edges[3], Segment::from_coords(0, 960, 0, 0));
}
