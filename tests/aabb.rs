use pathtrace::aabb::{Aabb, GridPoint, COORD_LIMIT};

fn p(x: i64, y: i64, z: i64) -> GridPoint {
    GridPoint { x, y, z }
}

fn b(min: GridPoint, max: GridPoint) -> Aabb {
    Aabb::new(min, max).unwrap()
}

#[test]
fn union_is_componentwise_min_max() {
    let a = b(p(0, 0, 0), p(2, 3, 4));
    let c = b(p(-1, 1, 2), p(1, 5, 3));
    let u = a.union(&c);
    assert_eq!(u, b(p(-1, 0, 0), p(2, 5, 4)));
}

#[test]
fn union_commutes_associates_and_contains() {
    let a = b(p(0, 0, 0), p(2, 3, 4));
    let c = b(p(-1, 1, 2), p(1, 5, 3));
    let d = b(p(7, -8, 9), p(10, -2, 11));
    assert_eq!(a.union(&c), c.union(&a));
    assert_eq!(a.union(&c).union(&d), a.union(&c.union(&d)));
    let u = a.union(&c);
    assert!(u.contains(&a));
    assert!(u.contains(&c));
    assert!(!a.contains(&u));
}

#[test]
fn new_rejects_inverted_and_out_of_range_corners() {
    assert!(Aabb::new(p(1, 0, 0), p(0, 1, 1)).is_none());
    assert!(Aabb::new(p(0, 0, 0), p(0, 0, COORD_LIMIT + 1)).is_none());
    assert!(Aabb::new(p(-COORD_LIMIT, 0, 0), p(COORD_LIMIT, 0, 0)).is_some());
    assert!(Aabb::new(p(3, 3, 3), p(3, 3, 3)).is_some());
}

#[test]
fn surface_area_and_longest_axis() {
    let a = b(p(0, 0, 0), p(2, 3, 4));
    assert_eq!(a.surface_area(), 52);
    assert_eq!(a.longest_axis(), 2);
    assert_eq!(b(p(0, 0, 0), p(5, 5, 1)).longest_axis(), 0);
    assert_eq!(b(p(0, 0, 0), p(0, 0, 0)).surface_area(), 0);
    let big = b(p(-COORD_LIMIT, -COORD_LIMIT, -COORD_LIMIT), p(COORD_LIMIT, COORD_LIMIT, COORD_LIMIT));
    let side = (2 * COORD_LIMIT) as u128;
    assert_eq!(big.surface_area(), 6 * side * side);
}

#[test]
fn centre_is_twice_the_midpoint() {
    let a = b(p(-3, 0, 2), p(5, 4, 2));
    assert_eq!(a.centre2(), p(2, 4, 4));
    assert_eq!(a.extent(0), 8);
}
