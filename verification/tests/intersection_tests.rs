//! Segment/segment and ray/segment intersection classification on
//! concrete geometry.

use raycasting::intersection::{get_segment_intersection, Intersect};
use raycasting::ray::{calculate_ray_segment_intersection, Ray};
use raycasting::segment::{IntersectionStatus, Segment};
use raycasting::vector::Vector;

#[test]
fn intersection_intersection_works() {
    let segment = Segment::from_coords(0, 0, 5, 0);

    let cases = [
        (
            Segment::from_coords(3, 3, 3, -3),
            Intersect::Intersecting(Vector::new(3, 0)),
        ),
        (
            Segment::from_coords(0, 3, 0, -3),
            Intersect::Intersecting(Vector::new(0, 0)),
        ),
        (
            Segment::from_coords(5, 3, 5, -3),
            Intersect::Intersecting(Vector::new(5, 0)),
        ),
        (Segment::from_coords(0, 0, 3, 0), Intersect::Collinear),
    ];
    for (s, expected) in cases {
        assert_eq!(get_segment_intersection(segment, s), expected);
    }
}

#[test]
fn lib_segment_segment_intersection_works() {
    let line = Segment::from_coords(0, 0, 5, 0);

    let cases = [
        (
            Segment::from_coords(3, 3, 3, -3),
            IntersectionStatus::Intersecting(Vector::new(3, 0)),
        ),
        (
            Segment::from_coords(0, 3, 0, -3),
            IntersectionStatus::Intersecting(Vector::new(0, 0)),
        ),
        (
            Segment::from_coords(5, 3, 5, -3),
            IntersectionStatus::Intersecting(Vector::new(5, 0)),
        ),
        (
            Segment::from_coords(0, -1, 5, 1),
            IntersectionStatus::Intersecting(Vector::from_ratio(5, 2, 0, 1)),
        ),
        (
            Segment::from_coords(0, 0, 3, 0),
            IntersectionStatus::CollinearIntersecting,
        ),
        (
            Segment::from_coords(3, 0, 0, 0),
            IntersectionStatus::CollinearIntersecting,
        ),
        (
            Segment::from_coords(6, 0, 10, 0),
            IntersectionStatus::CollinearNotIntersecting,
        ),
        (
            Segment::from_coords(10, 0, 6, 0),
            IntersectionStatus::CollinearNotIntersecting,
        ),
        (
            Segment::from_coords(0, 1, 5, 1),
            IntersectionStatus::NotIntersecting,
        ),
    ];
    for (l, expected) in cases {
        assert_eq!(line.calculate_intersection(&l), expected);
    }
}

#[test]
fn lib_ray_segment_intersection_works() {
    let ray = Ray::new(Vector::new(0, 0), Vector::new(5, 0));

    let cases = [
        (
            Segment::from_coords(7, 3, 7, -3),
            IntersectionStatus::Intersecting(Vector::new(7, 0)),
        ),
        (
            Segment::from_coords(7000, 3, 7000, -3),
            IntersectionStatus::Intersecting(Vector::new(7000, 0)),
        ),
        (
            Segment::from_coords(-1, 3, -1, -3),
            IntersectionStatus::NotIntersecting,
        ),
        (
            Segment::from_coords(0, 3, -3, 0),
            IntersectionStatus::NotIntersecting,
        ),
        (
            Segment::from_coords(0, 3, 5, 3),
            IntersectionStatus::NotIntersecting,
        ),
        (
            Segment::from_coords(-5, 0, -3, 0),
            IntersectionStatus::CollinearNotIntersecting,
        ),
        (
            Segment::from_coords(0, 0, 3, 0),
            IntersectionStatus::CollinearIntersecting,
        ),
    ];
    for (segment, expected) in cases {
        assert_eq!(ray.calculate_intersection(&segment), expected);
    }
}

#[test]
fn ray_intersection_intersection_works() {
    let ray = Ray::new(Vector::new(0, 0), Vector::new(5, 0));

    let cases = [
        (
            Segment::from_coords(7, 3, 7, -3),
            IntersectionStatus::Intersecting(Vector::new(7, 0)),
        ),
        (
            Segment::from_coords(7000, 3, 7000, -3),
            IntersectionStatus::Intersecting(Vector::new(7000, 0)),
        ),
        (
            Segment::from_coords(-1, 3, -1, -3),
            IntersectionStatus::NotIntersecting,
        ),
        (
            Segment::from_coords(0, 3, -3, 0),
            IntersectionStatus::NotIntersecting,
        ),
        (
            Segment::from_coords(0, 3, 5, 3),
            IntersectionStatus::NotIntersecting,
        ),
        (
            Segment::from_coords(-5, 0, -3, 0),
            IntersectionStatus::CollinearNotIntersecting,
        ),
        (
            Segment::from_coords(0, 0, 3, 0),
            IntersectionStatus::CollinearIntersecting,
        ),
    ];
    for (l, expected) in cases {
        assert_eq!(calculate_ray_segment_intersection(ray, l), expected);
    }
}

#[test]
fn raycasting_segment_segment_intersection_works() {
    let line = Segment::from_coords(0, 0, 5, 0);

    let cases = [
        (
            Segment::from_coords(3, 3, 3, -3),
            IntersectionStatus::Intersecting(Vector::new(3, 0)),
        ),
        (
            Segment::from_coords(0, 3, 0, -3),
            IntersectionStatus::Intersecting(Vector::new(0, 0)),
        ),
        (
            Segment::from_coords(5, 3, 5, -3),
            IntersectionStatus::Intersecting(Vector::new(5, 0)),
        ),
        (
            Segment::from_coords(0, -1, 5, 1),
            IntersectionStatus::Intersecting(Vector::from_ratio(5, 2, 0, 1)),
        ),
        (
            Segment::from_coords(0, 0, 3, 0),
            IntersectionStatus::CollinearIntersecting,
        ),
        (
            Segment::from_coords(3, 0, 0, 0),
            IntersectionStatus::CollinearIntersecting,
        ),
        (
            Segment::from_coords(6, 0, 10, 0),
            IntersectionStatus::CollinearNotIntersecting,
        ),
        (
            Segment::from_coords(10, 0, 6, 0),
            IntersectionStatus::CollinearNotIntersecting,
        ),
        (
            Segment::from_coords(0, 1, 5, 1),
            IntersectionStatus::NotIntersecting,
        ),
    ];
    for (l, expected) in cases {
        assert_eq!(line.calculate_intersection(&l), expected);
    }
}

#[test]
fn raycasting_ray_segment_intersection_works() {
    let ray = Ray::new(Vector::new(0, 0), Vector::new(5, 0));

    let cases = [
        (
            Segment::from_coords(7, 3, 7, -3),
            IntersectionStatus::Intersecting(Vector::new(7, 0)),
        ),
        (
            Segment::from_coords(7000, 3, 7000, -3),
            IntersectionStatus::Intersecting(Vector::new(7000, 0)),
        ),
        (
            Segment::from_coords(-1, 3, -1, -3),
            IntersectionStatus::NotIntersecting,
        ),
        (
            Segment::from_coords(0, 3, -3, 0),
            IntersectionStatus::NotIntersecting,
        ),
        (
            Segment::from_coords(0, 3, 5, 3),
            IntersectionStatus::NotIntersecting,
        ),
        (
            Segment::from_coords(-5, 0, -3, 0),
            IntersectionStatus::CollinearNotIntersecting,
        ),
        (
            Segment::from_coords(0, 0, 3, 0),
            IntersectionStatus::CollinearIntersecting,
        ),
    ];
    for (segment, expected) in cases {
        assert_eq!(ray.calculate_intersection(&segment), expected);
    }
}

#[test]
fn self_intersection_is_collinear_overlap() {
    // A segment against itself always overlaps collinearly.
    for s in [
        Segment::from_coords(0, 0, 5, 0),
        Segment::from_coords(-3, 7, 2, -4),
        Segment::from_coords(1, 1, 1, 2),
    ] {
        assert_eq!(
            s.calculate_intersection(&s),
            IntersectionStatus::CollinearIntersecting
        );
    }
}

#[test]
fn crossing_is_symmetric() {
    // Non-parallel segments report the same crossing point in both
    // orders.
    let s0 = Segment::from_coords(0, 0, 5, 0);
    let s1 = Segment::from_coords(0, -1, 5, 1);
    let expected = IntersectionStatus::Intersecting(Vector::from_ratio(5, 2, 0, 1));
    assert_eq!(s0.calculate_intersection(&s1), expected);
    assert_eq!(s1.calculate_intersection(&s0), expected);

    let s2 = Segment::from_coords(1, -2, 3, 4);
    let s3 = Segment::from_coords(0, 1, 4, 1);
    let first = s2.calculate_intersection(&s3);
    let second = s3.calculate_intersection(&s2);
    assert_eq!(first, second);
    assert!(matches!(first, IntersectionStatus::Intersecting(_)));
}
