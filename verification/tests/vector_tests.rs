//! Exact rational and vector algebra.

use raycasting::angle::angle_le_exec;
use raycasting::rat::Rat;
use raycasting::vector::Vector;

#[test]
fn rationals_are_stored_reduced() {
    assert_eq!(Rat::new(90, 30), Rat::from_int(3));
    assert_eq!(Rat::new(-90, 30), Rat::from_int(-3));
    assert_eq!(Rat::new(0, 7), Rat::from_int(0));
    let r = Rat::new(6, 4);
    assert_eq!(r.num(), 3);
    assert_eq!(r.den(), 2);
    assert!(r.eq_value(&Rat::new(3, 2)));
    assert!(Rat::new(1, 3).lt_value(&Rat::new(1, 2)));
    assert!(Rat::new(1, 2).le_value(&Rat::new(2, 4)));
    assert!(Rat::from_int(2).is_int());
    assert!(!Rat::new(1, 2).is_int());
}

#[test]
fn vector_algebra_is_exact() {
    let a = Vector::from_ratio(1, 2, 3, 1);
    let b = Vector::from_ratio(1, 3, -1, 1);

    let sum = a.add(&b);
    assert_eq!(sum, Vector::from_ratio(5, 6, 2, 1));

    let diff = a.sub(&b);
    assert_eq!(diff, Vector::from_ratio(1, 6, 4, 1));

    let scaled = a.scale(&Rat::new(2, 3));
    assert_eq!(scaled, Vector::from_ratio(1, 3, 2, 1));

    let divided = a.divide(&Rat::new(1, 2));
    assert_eq!(divided, Vector::from_ratio(1, 1, 6, 1));

    // cross((1,0),(0,1)) = 1; dot((1,2),(3,4)) = 11.
    let e1 = Vector::new(1, 0);
    let e2 = Vector::new(0, 1);
    assert_eq!(e1.cross_product(&e2), Rat::from_int(1));
    assert_eq!(e2.cross_product(&e1), Rat::from_int(-1));
    let u = Vector::new(1, 2);
    let v = Vector::new(3, 4);
    assert_eq!(u.dot_product(&v), Rat::from_int(11));
    // Parallel displacements have zero cross product.
    assert_eq!(u.cross_product(&u.scale(&Rat::from_int(5))), Rat::from_int(0));

    let (tx, ty) = a.tuple();
    assert_eq!(tx, Rat::new(1, 2));
    assert_eq!(ty, Rat::from_int(3));

    assert!(a.eq_value(&Vector::from_ratio(2, 4, 6, 2)));
    assert!(!a.eq_value(&b));
}

#[test]
fn angle_order_matches_atan2() {
    // Representative directions in ascending atan2 order:
    // -135, -90, -45, 0, 45, 90, 135, 180 degrees.
    let dirs: [(i128, i128); 8] = [
        (-1, -1),
        (0, -1),
        (1, -1),
        (1, 0),
        (1, 1),
        (0, 1),
        (-1, 1),
        (-1, 0),
    ];
    for i in 0..dirs.len() {
        for j in 0..dirs.len() {
            let (ax, ay) = dirs[i];
            let (bx, by) = dirs[j];
            assert_eq!(angle_le_exec(ax, ay, bx, by), i <= j, "{ax},{ay} vs {bx},{by}");
        }
    }
    // Positive multiples compare equal in both directions.
    assert!(angle_le_exec(2, 3, 20, 30));
    assert!(angle_le_exec(20, 30, 2, 3));
}
