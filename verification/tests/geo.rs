use approx::AbsDiffEq;
use i2d_tree::geo::floor_sqrt;
use i2d_tree::Point;

#[test]
fn geo_point_new_fill_fields() {
    let point = Point::new(10, 200);

    assert_eq!(point.latitude, 10);
    assert_eq!(point.longitude, 200);
}

#[test]
fn geo_point_eq_checks_for_equality() {
    let point = Point::new(1, 20);
    let same = Point::new(1, 20);
    let different = Point::new(2, 10);

    assert!(point == same);
    assert!(point != different);
}

#[test]
fn lib_point_new_fill_fields() {
    let point = Point::new(10, 200);

    assert_eq!(point.latitude, 10);
    assert_eq!(point.longitude, 200);
}

#[test]
fn lib_point_eq_checks_for_equality() {
    let point = Point::new(1, 20);
    let same = Point::new(1, 20);
    let different = Point::new(2, 10);

    assert_eq!(point, same);
    assert_ne!(point, different);
}

#[test]
fn tests_point_new_fill_fields() {
    let point = Point::new(10, 200);

    assert_eq!(point.latitude, 10);
    assert_eq!(point.longitude, 200);
}

#[test]
fn tests_point_eq_checks_for_equality() {
    let point = Point::new(1, 20);
    let same = Point::new(1, 20);
    let different = Point::new(2, 10);

    assert!(point == same);
    assert!(point != different);
}

#[test]
fn point_eq_tells_points_apart_by_either_coordinate() {
    assert_ne!(Point::new(1, 20), Point::new(1, 21));
    assert_ne!(Point::new(1, 20), Point::new(2, 20));
    assert_eq!(Point::new(-1, -20), Point::new(-1, -20));
}

#[test]
fn point_distance_for_3_and_4_returns_5() {
    let point1 = Point::new(10, 200);
    let point2 = Point::new(10 + 3, 200 + 4);

    let actual = point1.distance(point2);

    assert_eq!(actual, 5);
    assert!((actual as f64).abs_diff_eq(&5.0, f64::default_epsilon()));
}

#[test]
fn point_distance_with_vertical_segment_returns_height() {
    const SAME_LONGITUDE: i32 = 50;

    let point1 = Point::new(90, SAME_LONGITUDE);
    let point2 = Point::new(80, SAME_LONGITUDE);

    let actual = point1.distance(point2);

    assert_eq!(actual, 90 - 80);
}

#[test]
fn point_distance_with_horizontal_segment_returns_width() {
    const SAME_LATITUDE: i32 = 50;

    let point1 = Point::new(SAME_LATITUDE, 70);
    let point2 = Point::new(SAME_LATITUDE, 40);

    let actual = point1.distance(point2);

    assert_eq!(actual, 70 - 40);
}

#[test]
fn point_distance_with_pythagorean_triple_cathetuses_returns_hypotenuse() {
    let point1 = Point::new(3, 4);
    let point2 = Point::new(0, 0);

    let actual = point1.distance(point2);

    assert_eq!(actual, 5);
}

#[test]
fn point_distance_rounds_down() {
    let origin = Point::new(0, 0);

    assert_eq!(origin.distance(Point::new(1, 1)), 1);
    assert_eq!(origin.distance(Point::new(2, 2)), 2);
    assert_eq!(origin.distance(Point::new(-7, 7)), 9);
    assert_eq!(origin.distance(origin), 0);
}

#[test]
fn point_distance_between_the_farthest_points() {
    let low = Point::new(i32::MIN, i32::MIN);
    let high = Point::new(i32::MAX, i32::MAX);

    assert_eq!(low.distance(high), 6074000998);
    assert_eq!(high.distance(low), 6074000998);
}

#[test]
fn floor_sqrt_returns_the_whole_root() {
    assert_eq!(floor_sqrt(0), 0);
    assert_eq!(floor_sqrt(1), 1);
    assert_eq!(floor_sqrt(3), 1);
    assert_eq!(floor_sqrt(4), 2);
    assert_eq!(floor_sqrt(24), 4);
    assert_eq!(floor_sqrt(25), 5);
    assert_eq!(floor_sqrt(26), 5);
    assert_eq!(floor_sqrt(18446744073709551615), 4294967295);
    assert_eq!(floor_sqrt(18446744073709551616), 4294967296);
    assert_eq!(floor_sqrt(u128::MAX), u64::MAX);
}
