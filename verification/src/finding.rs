use vstd::prelude::*;
use crate::geo::{lemma_square_monotonic, lemma_zero_distance, spec_square, square, Point};
use crate::tree::{Item, Node};
use crate::types::{Axis, Nearest};

verus! {

/// The closer to `query` of an item and a rival. The rival wins only where it
/// is strictly closer.
pub open spec fn closer<T: Copy>(first: Item<T>, rival: Option<Item<T>>, query: Point) -> Item<T> {
    match rival {
        Some(second) if second.point.spec_square_distance(query)
            < first.point.spec_square_distance(query) => second,
        _ => first,
    }
}

impl<T: Copy> Node<T> {
    /// The item that a search without shortcuts answers with: the closest to
    /// `query` of all items of the tree and, among equally close ones, the
    /// first in the order root, side of the query, other side.
    pub open spec fn closest(self, axis: Axis, query: Point) -> Option<Item<T>>
        decreases self,
    {
        match self {
            Node::Empty => None,
            Node::Area { item, left, right } => {
                if query.coord(axis) >= item.point.coord(axis) {
                    Some(
                        closer(
                            closer(item, right.closest(axis.flip(), query), query),
                            left.closest(axis.flip(), query),
                            query,
                        ),
                    )
                } else {
                    Some(
                        closer(
                            closer(item, left.closest(axis.flip(), query), query),
                            right.closest(axis.flip(), query),
                            query,
                        ),
                    )
                }
            },
        }
    }

    /// `closest` answers from the tree's own items, and answers whenever the
    /// tree has one.
    pub proof fn lemma_closest_is_stored(self, axis: Axis, query: Point)
        ensures
            self.closest(axis, query) is None <==> self is Empty,
            self.closest(axis, query) matches Some(found) ==> self.items().contains(found),
        decreases self,
    {
        match self {
            Node::Empty => {},
            Node::Area { item, left, right } => {
                left.lemma_closest_is_stored(axis.flip(), query);
                right.lemma_closest_is_stored(axis.flip(), query);
            },
        }
    }

    /// No item of the tree is closer to `query` than the one that `closest`
    /// answers with, however the tree is ordered.
    pub proof fn lemma_closest_is_nearest(self, axis: Axis, query: Point, other: Item<T>)
        requires
            self.items().contains(other),
        ensures
            self.closest(axis, query) matches Some(found) && found.point.spec_square_distance(query)
                <= other.point.spec_square_distance(query),
        decreases self,
    {
        match self {
            Node::Empty => {},
            Node::Area { item, left, right } => {
                if left.items().contains(other) {
                    left.lemma_closest_is_nearest(axis.flip(), query, other);
                }
                if right.items().contains(other) {
                    right.lemma_closest_is_nearest(axis.flip(), query, other);
                }
            },
        }
    }

    /// The item that the search answers with, in any tree: the root where it
    /// lies at `query`; else the closer of the root and what the search
    /// finds on the side of `query`, unless the splitting line is closer
    /// than that and the other side holds something closer still.
    pub open spec fn searched(self, axis: Axis, query: Point) -> Option<Item<T>>
        decreases self,
    {
        match self {
            Node::Empty => None,
            Node::Area { item, left, right } => {
                let gap = query.coord(axis) - item.point.coord(axis);
                if item.point.spec_square_distance(query) == 0 {
                    Some(item)
                } else if gap >= 0 {
                    let best = closer(item, right.searched(axis.flip(), query), query);
                    if spec_square(gap) < best.point.spec_square_distance(query) {
                        Some(closer(best, left.searched(axis.flip(), query), query))
                    } else {
                        Some(best)
                    }
                } else {
                    let best = closer(item, left.searched(axis.flip(), query), query);
                    if spec_square(gap) < best.point.spec_square_distance(query) {
                        Some(closer(best, right.searched(axis.flip(), query), query))
                    } else {
                        Some(best)
                    }
                }
            },
        }
    }

    /// The search answers from the tree's own items, and answers whenever
    /// the tree has one.
    pub proof fn lemma_searched_is_stored(self, axis: Axis, query: Point)
        ensures
            self.searched(axis, query) is None <==> self is Empty,
            self.searched(axis, query) matches Some(found) ==> self.items().contains(found),
        decreases self,
    {
        match self {
            Node::Empty => {},
            Node::Area { item, left, right } => {
                left.lemma_searched_is_stored(axis.flip(), query);
                right.lemma_searched_is_stored(axis.flip(), query);
            },
        }
    }

    /// In a well-formed tree the search misses nothing by leaving sides out:
    /// it answers as a search of every item does.
    pub proof fn lemma_pruning_is_sound(self, axis: Axis, query: Point)
        requires
            self.well_formed(axis),
        ensures
            self.searched(axis, query) == self.closest(axis, query),
        decreases self,
    {
        match self {
            Node::Empty => {},
            Node::Area { item, left, right } => {
                left.lemma_pruning_is_sound(axis.flip(), query);
                right.lemma_pruning_is_sound(axis.flip(), query);
                left.lemma_closest_is_stored(axis.flip(), query);
                right.lemma_closest_is_stored(axis.flip(), query);
                let gap = query.coord(axis) - item.point.coord(axis);
                if item.point.spec_square_distance(query) == 0 {
                    assert forall|x: Item<T>| closer(item, Some(x), query) == item by {
                        lemma_distance_along_axis(x.point, query, axis);
                    }
                } else if gap >= 0 {
                    if let Some(beyond) = left.closest(axis.flip(), query) {
                        lemma_beyond_the_split(item.point, beyond.point, query, axis);
                    }
                } else {
                    if let Some(beyond) = right.closest(axis.flip(), query) {
                        lemma_beyond_the_split(item.point, beyond.point, query, axis);
                    }
                }
            },
        }
    }
}

/// A point is at least as far from `query` as it is along one axis alone.
pub proof fn lemma_distance_along_axis(place: Point, query: Point, axis: Axis)
    ensures
        place.spec_square_distance(query) >= spec_square(place.coord(axis) - query.coord(axis)),
        place.spec_square_distance(query) >= 0,
{
    let a = place.latitude - query.latitude;
    let b = place.longitude - query.longitude;
    assert(a * a >= 0 && b * b >= 0) by (nonlinear_arith);
}

/// What lies on the other side of a splitting line is at least as far from
/// `query` as the line itself.
pub proof fn lemma_beyond_the_split(split: Point, place: Point, query: Point, axis: Axis)
    requires
        place.coord(axis) <= split.coord(axis) <= query.coord(axis) || query.coord(axis)
            <= split.coord(axis) <= place.coord(axis),
    ensures
        place.spec_square_distance(query) >= spec_square(query.coord(axis) - split.coord(axis)),
{
    let gap = query.coord(axis) - split.coord(axis);
    let reach = query.coord(axis) - place.coord(axis);
    lemma_square_monotonic(gap, reach);
    lemma_distance_along_axis(place, query, axis);
    assert(spec_square(reach) == spec_square(-reach)) by (nonlinear_arith);
}

/// A search of a tree built of `items` answers with one of them that is as
/// close to `query` as any: squares of distances stand in the order of the
/// distances themselves. Where an item lies at `query` itself, the answer
/// lies there too, and it is that very item where no other shares its place.
pub proof fn lemma_search_of_built_tree<T: Copy>(
    tree: Node<T>,
    items: Seq<Item<T>>,
    query: Point,
)
    requires
        tree.well_formed(Axis::Latitude),
        tree.items() == items.to_multiset(),
        items.len() > 0,
    ensures
        tree.closest(Axis::Latitude, query) matches Some(found) && {
            &&& items.contains(found)
            &&& forall|i: int|
                0 <= i < items.len() ==> found.point.spec_square_distance(query)
                    <= (#[trigger] items[i]).point.spec_square_distance(query)
            &&& forall|i: int|
                0 <= i < items.len() && (#[trigger] items[i]).point == query ==> found.point
                    == query
            &&& forall|i: int|
                0 <= i < items.len() && (#[trigger] items[i]).point == query && (forall|j: int|
                    0 <= j < items.len() && (#[trigger] items[j]).point == query ==> j == i)
                    ==> found == items[i]
        },
{
    items.to_multiset_ensures();
    tree.lemma_closest_is_stored(Axis::Latitude, query);
    let found = tree.closest(Axis::Latitude, query).unwrap();
    assert forall|i: int| 0 <= i < items.len() implies found.point.spec_square_distance(query)
        <= (#[trigger] items[i]).point.spec_square_distance(query) by {
        tree.lemma_closest_is_nearest(Axis::Latitude, query, items[i]);
    }
    assert forall|i: int| 0 <= i < items.len() && (#[trigger] items[i]).point == query implies {
        &&& found.point == query
        &&& (forall|j: int|
            0 <= j < items.len() && (#[trigger] items[j]).point == query ==> j == i) ==> found
            == items[i]
    } by {
        lemma_zero_distance(found.point, query);
    }
}

/// The item that a candidate stands for.
pub open spec fn candidate<'a, T: Copy>(nearest: Option<Nearest<'a, T>>) -> Option<Item<T>> {
    match nearest {
        Some(found) => Some(*found.item),
        None => None,
    }
}

/// Searches the subtree `node`, whose root splits along `axis`, for the item
/// closest to `point`. It looks first on the side of the splitting line where
/// `point` lies, and on the other side only where the line is closer than the
/// best candidate so far. In a well-formed tree this finds what a search of
/// every item would find.
pub fn find_nearest_recursive<'a, T: Copy>(node: &'a Node<T>, axis: Axis, point: Point) -> (r:
    Option<Nearest<'a, T>>)
    ensures
        r is None <==> *node is Empty,
        candidate(r) == node.searched(axis, point),
        r matches Some(found) ==> node.items().contains(*found.item) && found.square_distance
            == found.item.point.spec_square_distance(point),
        node.well_formed(axis) ==> candidate(r) == node.closest(axis, point),
    decreases node,
{
    proof {
        if node.well_formed(axis) {
            node.lemma_pruning_is_sound(axis, point);
        }
    }
    match node {
        Node::Empty => None,
        Node::Area { item, left, right } => {
            let parent_distance: u128 = item.point.square_distance(point);
            if parent_distance == 0 {
                return Some(Nearest::new(0, item));
            }
            let parent_nearest = Nearest::new(parent_distance, item);
            let toward_right = point[axis] >= item.point[axis];
            let child: &Node<T> = if toward_right {
                right
            } else {
                left
            };
            let child_nearest = find_nearest_recursive(child, axis.next(), point);
            let mut nearest = parent_nearest.min(child_nearest);
            let gap: i64 = if toward_right {
                point[axis] as i64 - item.point[axis] as i64
            } else {
                item.point[axis] as i64 - point[axis] as i64
            };
            proof {
                assert(spec_square(gap as int) == spec_square(
                    point.coord(axis) - item.point.coord(axis),
                )) by (nonlinear_arith)
                    requires
                        gap == point.coord(axis) - item.point.coord(axis) || gap
                            == item.point.coord(axis) - point.coord(axis),
                ;
            }
            let need_check_other_child = square(gap) < nearest.square_distance;
            if need_check_other_child {
                let other: &Node<T> = if toward_right {
                    left
                } else {
                    right
                };
                let other_nearest = find_nearest_recursive(other, axis.next(), point);
                nearest = nearest.min(other_nearest);
            }
            Some(nearest)
        },
    }
}

} // verus!
