use std::cmp::Ordering;
use std::ops::Range;
use vstd::multiset::Multiset;
use vstd::prelude::*;
use vstd::seq_lib::lemma_multiset_commutative;
use crate::tree::{Item, Node};
use crate::types::Axis;

verus! {

/// How `x` stands to `y`.
pub open spec fn order_of(x: int, y: int) -> Ordering {
    if x < y {
        Ordering::Less
    } else if x == y {
        Ordering::Equal
    } else {
        Ordering::Greater
    }
}

/// Whether the items stand in ascending order of their coordinate along
/// `axis`.
pub open spec fn sorted_by_axis<T: Copy>(items: Seq<Item<T>>, axis: Axis) -> bool {
    forall|i: int, j: int|
        0 <= i <= j < items.len() ==> items[i].point.coord(axis) <= items[j].point.coord(axis)
}

/// The items whose coordinate along `axis` is `at`, in the order in which
/// they stand in `items`.
pub open spec fn items_at<T: Copy>(items: Seq<Item<T>>, axis: Axis, at: int) -> Seq<Item<T>> {
    items.filter(|item: Item<T>| item.point.coord(axis) == at)
}

/// Orders two items by latitude.
pub fn cmp_by_latitude<T: Copy>(a: &Item<T>, b: &Item<T>) -> (r: Ordering)
    ensures
        r == order_of(a.point.coord(Axis::Latitude), b.point.coord(Axis::Latitude)),
{
    if a.point.latitude < b.point.latitude {
        Ordering::Less
    } else if a.point.latitude == b.point.latitude {
        Ordering::Equal
    } else {
        Ordering::Greater
    }
}

/// Orders two items by longitude.
pub fn cmp_by_longitude<T: Copy>(a: &Item<T>, b: &Item<T>) -> (r: Ordering)
    ensures
        r == order_of(a.point.coord(Axis::Longitude), b.point.coord(Axis::Longitude)),
{
    if a.point.longitude < b.point.longitude {
        Ordering::Less
    } else if a.point.longitude == b.point.longitude {
        Ordering::Equal
    } else {
        Ordering::Greater
    }
}

/// Orders two items by their coordinate along `axis`.
pub fn cmp_by_axis<T: Copy>(axis: Axis, a: &Item<T>, b: &Item<T>) -> (r: Ordering)
    ensures
        r == order_of(a.point.coord(axis), b.point.coord(axis)),
{
    match axis {
        Axis::Latitude => cmp_by_latitude(a, b),
        Axis::Longitude => cmp_by_longitude(a, b),
    }
}

/// Calls `sort_by` of std's slices with `cmp_by_axis` as the order. Not
/// proved here, but taken from std's documentation: the slice holds the same
/// items afterwards, in ascending order of their coordinate along `axis`, and
/// items with the same coordinate keep their order (the sort is stable).
#[verifier::external_body]
fn stable_sort<T: Copy>(items: &mut [Item<T>], axis: Axis)
    ensures
        final(items)@.len() == old(items)@.len(),
        final(items)@.to_multiset() == old(items)@.to_multiset(),
        sorted_by_axis(final(items)@, axis),
        forall|at: int| #[trigger]
            items_at(final(items)@, axis, at) == items_at(old(items)@, axis, at),
{
    items.sort_by(|a, b| cmp_by_axis(axis, a, b));
}

/// Sorts the items in place by their coordinate along `axis`. Items with the
/// same coordinate keep their order.
pub fn sort_by_axis<T: Copy>(axis: Axis, items: &mut [Item<T>])
    ensures
        final(items)@.len() == old(items)@.len(),
        final(items)@.to_multiset() == old(items)@.to_multiset(),
        sorted_by_axis(final(items)@, axis),
        forall|at: int| #[trigger]
            items_at(final(items)@, axis, at) == items_at(old(items)@, axis, at),
{
    stable_sort(items, axis);
}

/// The median of a non-empty slice and the ranges on both sides of it. The
/// median stands at half the length, rounded down: of an even number of
/// items, the right side gets one fewer than the left.
pub fn split_in_halves<T: Copy>(items: &[Item<T>]) -> (r: (Item<T>, Range<usize>, Range<usize>))
    requires
        items@.len() > 0,
    ensures
        r.0 == items@[items@.len() as int / 2],
        r.1.start == 0,
        r.1.end == items@.len() / 2,
        r.2.start == items@.len() / 2 + 1,
        r.2.end == items@.len(),
{
    let median_index: usize = items.len() / 2;
    let median = items[median_index];
    let left_range = 0..median_index;
    let right_range = median_index + 1..items.len();

    (median, left_range, right_range)
}

/// An empty sequence holds nothing.
proof fn lemma_no_items<A>(s: Seq<A>)
    requires
        s.len() == 0,
    ensures
        s.to_multiset() =~= Multiset::empty(),
{
    s.to_multiset_ensures();
    vstd::multiset::lemma_multiset_empty_len(s.to_multiset());
}

/// A sequence is its median, what stands before it and what stands after it.
proof fn lemma_split_multiset<A>(s: Seq<A>, m: int)
    requires
        0 <= m < s.len(),
    ensures
        s.to_multiset() =~= s.subrange(0, m).to_multiset().add(
            s.subrange(m + 1, s.len() as int).to_multiset(),
        ).insert(s[m]),
{
    broadcast use vstd::seq_lib::group_to_multiset_ensures;

    let low = s.subrange(0, m);
    let high = s.subrange(m + 1, s.len() as int);
    assert(s =~= low.push(s[m]) + high);
    lemma_multiset_commutative(low.push(s[m]), high);
}

/// Builds the subtree of `items` whose root splits along `axis`: sorts them
/// along `axis`, makes the median the root, and builds the two sides in the
/// same way along the other axis. The items are left in another order.
pub fn build_recursive<T: Copy>(axis: Axis, items: &mut [Item<T>]) -> (node: Node<T>)
    ensures
        final(items)@.len() == old(items)@.len(),
        final(items)@.to_multiset() == old(items)@.to_multiset(),
        node.items() == old(items)@.to_multiset(),
        node.size() == old(items)@.len(),
        node.well_formed(axis),
        node.evenly_split(),
    decreases old(items)@.len(),
{
    if items.is_empty() {
        proof {
            lemma_no_items(items@);
        }
        Node::Empty
    } else if items.len() == 1 {
        proof {
            lemma_split_multiset(items@, 0);
            lemma_no_items(items@.subrange(0, 0));
            lemma_no_items(items@.subrange(1, 1));
        }
        let node = Node::new_area(items[0], Node::Empty, Node::Empty);
        proof {
            node.lemma_leaf(axis);
        }
        node
    } else {
        sort_by_axis(axis, items);

        let (median, left_range, right_range) = split_in_halves(items);
        let next_axis = axis.next();
        let ghost sorted = items@;
        let (low, rest) = items.split_at_mut(left_range.end);
        let (_, high) = rest.split_at_mut(right_range.start - left_range.end);
        let left = build_recursive(next_axis, low);
        let right = build_recursive(next_axis, high);

        proof {
            let m = left_range.end as int;
            let n = sorted.len() as int;
            let below = sorted.subrange(0, m);
            let above = sorted.subrange(m + 1, n);
            lemma_split_multiset(sorted, m);
            assert(sorted.subrange(m, n).subrange(1, n - m) =~= above);
            lemma_split_multiset(items@, m);
            assert(items@.subrange(0, m) =~= low@);
            assert(items@.subrange(m + 1, n) =~= high@);
            assert forall|x: Item<T>| #[trigger] left.items().contains(x) implies x.point.coord(
                axis,
            ) <= median.point.coord(axis) by {
                below.to_multiset_ensures();
            }
            assert forall|x: Item<T>| #[trigger] right.items().contains(x) implies x.point.coord(
                axis,
            ) >= median.point.coord(axis) by {
                above.to_multiset_ensures();
            }
        }
        Node::new_area(median, left, right)
    }
}

} // verus!
