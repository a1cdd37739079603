use approx::AbsDiffEq;
use i2d_tree::finding::find_nearest_recursive;
use i2d_tree::geo::square;
use i2d_tree::{Axis, Item, Nearest, Node, Point};

#[test]
fn square_distance_with_diffs_3_and_4_returns_25() {
    let point1 = Point::new(1, 20);
    let point2 = Point::new(1 + 3, 20 + 4);

    let actual = point1.square_distance(point2);

    assert_eq!(actual, 25);
    assert!((actual as f64).abs_diff_eq(&25.0, f64::default_epsilon()));
}

#[test]
fn finding_find_nearest_recursive_with_empty_returns_none() {
    let point = Point::new(1, 20);

    let actual = find_nearest_recursive(&Node::<&str>::Empty, Axis::Latitude, point);

    assert_eq!(actual, None);
}

#[test]
fn finding_find_nearest_recursive_when_children_are_empty_returns_parent() {
    let node = Node::new_area(Item::new(20, 70, "parent"), Node::Empty, Node::Empty);
    let point = Point::new(20 + 3, 70 + 4);

    let actual = find_nearest_recursive(&node, Axis::Latitude, point);

    assert_eq!(actual, Some(Nearest::new(25, &Item::new(20, 70, "parent"))));
}

#[test]
fn finding_find_nearest_recursive_with_same_point_return_item() {
    let mut items = vec![
        Item::new(20, 70, "parent"),
        Item::new(10, 70, "left"),
        Item::new(30, 70, "right"),
    ];
    let node = Node::build(&mut items);
    let point = Point::new(20, 70);

    let actual = find_nearest_recursive(&node, Axis::Latitude, point);

    assert_eq!(actual, Some(Nearest::new(0, &Item::new(20, 70, "parent"))));
}

#[test]
fn finding_find_nearest_recursive_when_point_on_right_and_near_to_right_child_returns_right_child() {
    let mut items = vec![
        Item::new(20, 70, "parent"),
        Item::new(10, 70, "left"),
        Item::new(30, 70, "right"),
    ];
    let node = Node::build(&mut items);
    let point = Point::new(30 + 3, 70 + 4);

    let actual = find_nearest_recursive(&node, Axis::Latitude, point);
    assert_eq!(actual, Some(Nearest::new(25, &Item::new(30, 70, "right"))));
}

#[test]
fn finding_find_nearest_recursive_when_point_on_right_and_near_to_left_child_returns_left_child() {
    let mut items = vec![
        Item::new(20, 60, "parent"),
        Item::new(18, 70, "left"),
        Item::new(30, 70, "right"),
    ];
    let node = Node::build(&mut items);
    let point = Point::new(18 + 3, 70 + 4);

    let actual = find_nearest_recursive(&node, Axis::Latitude, point);
    assert_eq!(actual, Some(Nearest::new(25, &Item::new(18, 70, "left"))));
}

#[test]
fn square_returns_exact_products() {
    assert_eq!(square(0), 0);
    assert_eq!(square(7), 49);
    assert_eq!(square(-7), 49);
    assert_eq!(square(4294967295), 18446744065119617025);
    assert_eq!(square(i64::MAX), 85070591730234615847396907784232501249);
    assert_eq!(square(i64::MIN), 85070591730234615865843651857942052864);
}

#[test]
fn square_distance_is_exact_between_the_farthest_points() {
    let low = Point::new(i32::MIN, i32::MIN);
    let high = Point::new(i32::MAX, i32::MAX);

    assert_eq!(low.square_distance(high), 36893488130239234050);
    assert_eq!(high.square_distance(low), 36893488130239234050);
    assert_eq!(low.square_distance(low), 0);
}

#[test]
fn square_distance_does_not_depend_on_direction() {
    let a = Point::new(-3, 8);
    let b = Point::new(9, 3);

    assert_eq!(a.square_distance(b), 169);
    assert_eq!(b.square_distance(a), 169);
}

#[test]
fn find_nearest_of_empty_returns_none() {
    let node = Node::<u8>::Empty;

    assert_eq!(node.find_nearest(Point::new(0, 0)), None);
}

#[test]
fn find_nearest_returns_parent_for_its_own_place_and_right_for_3_4_5_triangle() {
    let mut items = vec![
        Item::new(20, 70, "parent"),
        Item::new(10, 70, "left"),
        Item::new(30, 70, "right"),
    ];
    let node = Node::build(&mut items);

    assert_eq!(node.find_nearest(Point::new(20, 70)), Some(Item::new(20, 70, "parent")));
    assert_eq!(node.find_nearest(Point::new(33, 74)), Some(Item::new(30, 70, "right")));
    assert_eq!(
        Point::new(33, 74).square_distance(node.find_nearest(Point::new(33, 74)).unwrap().point),
        25
    );
}

#[test]
fn find_nearest_looks_across_the_split_when_the_line_is_closer() {
    // The query lies right of the root's line, yet its nearest item lies left of it.
    let mut items = vec![
        Item::new(10, 0, "root"),
        Item::new(9, 50, "across"),
        Item::new(40, 50, "same side"),
    ];
    let node = Node::build(&mut items);
    assert_eq!(node.value(), Some("root"));

    assert_eq!(node.find_nearest(Point::new(11, 50)), Some(Item::new(9, 50, "across")));
}

#[test]
fn find_nearest_compares_the_split_in_squares() {
    // The line is 3 away and the best so far 4 away: 9 < 16, so the far side is searched.
    let far = Node::new_area(Item::new(9, 1, "far side"), Node::Empty, Node::Empty);
    let node = Node::new_area(Item::new(10, 4, "root"), far, Node::Empty);

    assert_eq!(node.find_nearest(Point::new(10, 0)), Some(Item::new(9, 1, "far side")));
}

#[test]
fn find_nearest_skips_the_far_side_when_the_line_is_not_closer() {
    // An ill-ordered tree shows the pruning: the closer item hides on a side that
    // the search has no reason to visit.
    let hidden = Node::new_area(Item::new(21, 0, "hidden"), Node::Empty, Node::Empty);
    let node = Node::new_area(Item::new(10, 0, "root"), hidden, Node::Empty);

    assert_eq!(node.find_nearest(Point::new(20, 0)), Some(Item::new(10, 0, "root")));
}

#[test]
fn find_nearest_keeps_the_parent_on_equal_distances() {
    let mut items = vec![
        Item::new(20, 70, "parent"),
        Item::new(10, 70, "left"),
        Item::new(30, 70, "right"),
    ];
    let node = Node::build(&mut items);

    assert_eq!(node.find_nearest(Point::new(25, 70)), Some(Item::new(20, 70, "parent")));
    assert_eq!(node.find_nearest(Point::new(15, 70)), Some(Item::new(20, 70, "parent")));
}

fn nearest_by_scan(items: &[Item<usize>], point: Point) -> u128 {
    let mut best = items[0].point.square_distance(point);
    for item in items {
        best = best.min(item.point.square_distance(point));
    }
    best
}

fn grid(n: usize) -> Vec<Item<usize>> {
    let mut items = Vec::new();
    let mut state: i32 = 2024;
    for i in 0..n {
        state = state.wrapping_mul(1103515245).wrapping_add(12345);
        let latitude = (state >> 16).rem_euclid(61) - 30;
        state = state.wrapping_mul(1103515245).wrapping_add(12345);
        let longitude = (state >> 16).rem_euclid(61) - 30;
        items.push(Item::new(latitude, longitude, i));
    }
    items
}

#[test]
fn find_nearest_of_built_tree_agrees_with_scan() {
    for n in 1..30 {
        let mut items = grid(n);
        let node = Node::build(&mut items);
        for latitude in -35..36 {
            for longitude in -35..36 {
                let point = Point::new(latitude, longitude);

                let found = node.find_nearest(point).unwrap();

                assert!(items.contains(&found));
                assert_eq!(found.point.square_distance(point), nearest_by_scan(&items, point));
            }
        }
    }
}

#[test]
fn find_nearest_of_upserted_tree_agrees_with_scan() {
    let items = grid(40);
    let mut node = Node::Empty;
    let mut stored: Vec<Item<usize>> = Vec::new();
    for item in items {
        node.upsert(item);
        stored.retain(|x| x.point != item.point);
        stored.push(item);
        for latitude in -32..33 {
            let point = Point::new(latitude, 3 - latitude);

            let found = node.find_nearest(point).unwrap();

            assert!(stored.contains(&found));
            assert_eq!(found.point.square_distance(point), nearest_by_scan(&stored, point));
        }
    }
}

#[test]
fn find_nearest_at_a_stored_place_returns_the_item_there() {
    let mut kept: Vec<Item<usize>> = Vec::new();
    for item in grid(30) {
        if kept.iter().all(|x| x.point != item.point) {
            kept.push(item);
        }
    }
    let expected = kept.clone();
    let node = Node::build(&mut kept);

    for item in expected {
        assert_eq!(node.find_nearest(item.point), Some(item));
    }
}

#[test]
fn find_nearest_handles_the_farthest_points() {
    let mut items = vec![
        Item::new(i32::MIN, i32::MIN, "low"),
        Item::new(i32::MAX, i32::MAX, "high"),
        Item::new(0, 0, "origin"),
    ];
    let node = Node::build(&mut items);

    assert_eq!(
        node.find_nearest(Point::new(i32::MAX, i32::MIN)),
        Some(Item::new(0, 0, "origin"))
    );
    assert_eq!(
        node.find_nearest(Point::new(i32::MIN, i32::MIN + 1)),
        Some(Item::new(i32::MIN, i32::MIN, "low"))
    );
}
