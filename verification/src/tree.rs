use vstd::arithmetic::power2::{lemma2_to64, lemma_pow2_strictly_increases, lemma_pow2_unfold, pow2};
use vstd::multiset::Multiset;
use vstd::prelude::*;
use crate::building::build_recursive;
use crate::finding::find_nearest_recursive;
use crate::geo::Point;
use crate::types::Axis;
use crate::updating::upsert_recursive;

verus! {

/// A payload stored at a place.
#[derive(Copy, Debug, PartialEq)]
pub struct Item<T: Copy> {
    pub point: Point,
    pub value: T,
}

impl<T: Copy> Clone for Item<T> {
    fn clone(&self) -> (r: Self)
        ensures
            r == *self,
    {
        *self
    }
}

impl<T: Copy> Item<T> {
    pub fn new(latitude: i32, longitude: i32, value: T) -> (item: Item<T>)
        ensures
            item.point.latitude == latitude,
            item.point.longitude == longitude,
            item.value == value,
    {
        Item { point: Point::new(latitude, longitude), value }
    }

    /// The same place with another payload.
    pub open spec fn with_value(self, value: T) -> Item<T> {
        Item { point: self.point, value }
    }
}

/// A two-dimensional k-d tree: each `Area` holds one item and splits the rest
/// of its items between `left` and `right` by one coordinate, the latitude at
/// the root and the other coordinate one level further down.
#[derive(Debug, PartialEq)]
pub enum Node<T: Copy> {
    Empty,
    Area { item: Item<T>, left: Box<Node<T>>, right: Box<Node<T>> },
}

impl<T: Copy> Node<T> {
    /// The number of items in the tree.
    pub open spec fn size(self) -> nat
        decreases self,
    {
        match self {
            Node::Empty => 0,
            Node::Area { item, left, right } => 1 + left.size() + right.size(),
        }
    }

    /// The number of nodes on the longest way from the root down: the depth
    /// to which an upsert or a search can descend.
    pub open spec fn height(self) -> nat
        decreases self,
    {
        match self {
            Node::Empty => 0,
            Node::Area { item, left, right } => 1 + if left.height() >= right.height() {
                left.height()
            } else {
                right.height()
            },
        }
    }

    /// The items of the tree, each as often as it is stored.
    pub open spec fn items(self) -> Multiset<Item<T>>
        decreases self,
    {
        match self {
            Node::Empty => Multiset::empty(),
            Node::Area { item, left, right } => left.items().add(right.items()).insert(item),
        }
    }

    /// The ordering that the search relies on, for a tree whose root splits
    /// along `axis`: nothing on the left lies beyond the node's own
    /// coordinate, nothing on the right lies before it, and both subtrees are
    /// ordered in the same way along the other axis.
    pub open spec fn well_formed(self, axis: Axis) -> bool
        decreases self,
    {
        match self {
            Node::Empty => true,
            Node::Area { item, left, right } => {
                &&& forall|x: Item<T>| #[trigger]
                    left.items().contains(x) ==> x.point.coord(axis) <= item.point.coord(axis)
                &&& forall|x: Item<T>| #[trigger]
                    right.items().contains(x) ==> x.point.coord(axis) >= item.point.coord(axis)
                &&& left.well_formed(axis.flip())
                &&& right.well_formed(axis.flip())
            },
        }
    }

    /// The stricter ordering that a descent by coordinate relies on: what is
    /// on the left lies strictly before the node, and ties are on the right.
    pub open spec fn strictly_split(self, axis: Axis) -> bool
        decreases self,
    {
        match self {
            Node::Empty => true,
            Node::Area { item, left, right } => {
                &&& forall|x: Item<T>| #[trigger]
                    left.items().contains(x) ==> x.point.coord(axis) < item.point.coord(axis)
                &&& forall|x: Item<T>| #[trigger]
                    right.items().contains(x) ==> x.point.coord(axis) >= item.point.coord(axis)
                &&& left.strictly_split(axis.flip())
                &&& right.strictly_split(axis.flip())
            },
        }
    }

    /// The shape that a median split gives: of the `n` items of every
    /// subtree, `n / 2` are on the left of its root and the others, one fewer
    /// when `n` is even, on the right.
    pub open spec fn evenly_split(self) -> bool
        decreases self,
    {
        match self {
            Node::Empty => true,
            Node::Area { item, left, right } => {
                &&& left.size() == self.size() / 2
                &&& right.size() == self.size() - 1 - self.size() / 2
                &&& left.evenly_split()
                &&& right.evenly_split()
            },
        }
    }

    /// Whether two trees have the same shape and hold the same places at the
    /// same positions; the payloads may differ.
    pub open spec fn same_places(self, other: Node<T>) -> bool
        decreases self,
    {
        match (self, other) {
            (Node::Empty, Node::Empty) => true,
            (
                Node::Area { item, left, right },
                Node::Area { item: other_item, left: other_left, right: other_right },
            ) => {
                &&& item.point == other_item.point
                &&& left.same_places(*other_left)
                &&& right.same_places(*other_right)
            },
            _ => false,
        }
    }

    /// A tree of a given height holds fewer than two to the power of that
    /// height items.
    pub proof fn lemma_size_below_pow2(self)
        ensures
            self.size() < pow2(self.height()),
        decreases self,
    {
        match self {
            Node::Empty => {
                lemma2_to64();
            },
            Node::Area { item, left, right } => {
                left.lemma_size_below_pow2();
                right.lemma_size_below_pow2();
                lemma_pow2_unfold(self.height());
                if left.height() < right.height() {
                    lemma_pow2_strictly_increases(left.height(), right.height());
                } else if right.height() < left.height() {
                    lemma_pow2_strictly_increases(right.height(), left.height());
                }
            },
        }
    }

    /// A tree split at the median of every subtree is as flat as a tree of
    /// its size can be: its height is the least that holds so many items.
    pub proof fn lemma_evenly_split_is_flat(self)
        requires
            self.evenly_split(),
            self.size() > 0,
        ensures
            pow2((self.height() - 1) as nat) <= self.size() < pow2(self.height()),
        decreases self,
    {
        self.lemma_size_below_pow2();
        match self {
            Node::Empty => {},
            Node::Area { item, left, right } => {
                lemma2_to64();
                if left.height() >= right.height() {
                    if left.size() > 0 {
                        left.lemma_evenly_split_is_flat();
                        lemma_pow2_unfold(left.height());
                    }
                } else {
                    right.lemma_evenly_split_is_flat();
                    lemma_pow2_unfold(right.height());
                }
            },
        }
    }

    /// A tree that keeps ties on the right is well-formed.
    pub proof fn lemma_strict_is_well_formed(self, axis: Axis)
        requires
            self.strictly_split(axis),
        ensures
            self.well_formed(axis),
        decreases self,
    {
        match self {
            Node::Empty => {},
            Node::Area { item, left, right } => {
                left.lemma_strict_is_well_formed(axis.flip());
                right.lemma_strict_is_well_formed(axis.flip());
            },
        }
    }

    /// Whether no item is stored twice and no two items share a latitude or
    /// a longitude.
    pub open spec fn coordinates_distinct(self) -> bool {
        &&& forall|x: Item<T>| #[trigger] self.items().count(x) <= 1
        &&& forall|x: Item<T>, y: Item<T>|
            #![trigger self.items().contains(x), self.items().contains(y)]
            self.items().contains(x) && self.items().contains(y) && x != y ==> x.point.latitude
                != y.point.latitude && x.point.longitude != y.point.longitude
    }

    /// A well-formed tree without shared coordinates has no ties, so it
    /// keeps them on the right: a tree built of such items can be descended
    /// by coordinate.
    pub proof fn lemma_distinct_coordinates_strict(self, axis: Axis)
        requires
            self.well_formed(axis),
            self.coordinates_distinct(),
        ensures
            self.strictly_split(axis),
        decreases self,
    {
        match self {
            Node::Empty => {},
            Node::Area { item, left, right } => {
                assert(self.items().contains(item));
                assert forall|x: Item<T>| #[trigger] left.items().contains(x) implies x.point.coord(
                    axis,
                ) < item.point.coord(axis) by {
                    assert(self.items().contains(x));
                }
                assert(left.coordinates_distinct()) by {
                    assert forall|x: Item<T>| #[trigger] left.items().count(x) <= 1 by {
                        assert(self.items().count(x) <= 1);
                    }
                    assert forall|x: Item<T>, y: Item<T>|
                        left.items().contains(x) && left.items().contains(y) && x
                            != y implies x.point.latitude != y.point.latitude
                        && x.point.longitude != y.point.longitude by {
                        assert(self.items().contains(x) && self.items().contains(y));
                    }
                }
                assert(right.coordinates_distinct()) by {
                    assert forall|x: Item<T>| #[trigger] right.items().count(x) <= 1 by {
                        assert(self.items().count(x) <= 1);
                    }
                    assert forall|x: Item<T>, y: Item<T>|
                        right.items().contains(x) && right.items().contains(y) && x
                            != y implies x.point.latitude != y.point.latitude
                        && x.point.longitude != y.point.longitude by {
                        assert(self.items().contains(x) && self.items().contains(y));
                    }
                }
                left.lemma_distinct_coordinates_strict(axis.flip());
                right.lemma_distinct_coordinates_strict(axis.flip());
            },
        }
    }

    /// Every tree holds the places that it holds.
    pub proof fn lemma_same_places_reflexive(self)
        ensures
            self.same_places(self),
        decreases self,
    {
        match self {
            Node::Empty => {},
            Node::Area { item, left, right } => {
                left.lemma_same_places_reflexive();
                right.lemma_same_places_reflexive();
            },
        }
    }

    /// A node without children is a well-formed tree of one item.
    pub proof fn lemma_leaf(self, axis: Axis)
        requires
            self matches Node::Area { left, right, .. } && *left is Empty && *right is Empty,
        ensures
            self.size() == 1,
            self.items() =~= Multiset::empty().insert(self->item),
            self.well_formed(axis),
            self.strictly_split(axis),
            self.evenly_split(),
    {
        reveal_with_fuel(Node::size, 2);
        reveal_with_fuel(Node::items, 2);
        reveal_with_fuel(Node::well_formed, 2);
        reveal_with_fuel(Node::strictly_split, 2);
        reveal_with_fuel(Node::evenly_split, 2);
    }

    /// Builds a tree of the given items, which it leaves in another order.
    /// Every subtree has the median of its items along its axis at its root:
    /// the tree is well-formed and as flat as the number of items allows.
    /// Items at the same place are all kept.
    pub fn build(items: &mut [Item<T>]) -> (node: Node<T>)
        ensures
            final(items)@.len() == old(items)@.len(),
            final(items)@.to_multiset() == old(items)@.to_multiset(),
            node.items() == old(items)@.to_multiset(),
            node.size() == old(items)@.len(),
            node.well_formed(Axis::Latitude),
            node.evenly_split(),
    {
        build_recursive(Axis::Latitude, items)
    }

    /// Puts `item` into the tree: at a node that the descent meets at the
    /// very place of `item`, whose payload it replaces, or else as a new
    /// leaf. The tree is not rebalanced.
    pub fn upsert(&mut self, item: Item<T>)
        ensures
            *final(self) == old(self).upserted(Axis::Latitude, item),
            final(self).items().contains(item),
            old(self).well_formed(Axis::Latitude) ==> final(self).well_formed(Axis::Latitude),
            old(self).strictly_split(Axis::Latitude) ==> final(self).strictly_split(
                Axis::Latitude,
            ),
            match old(self).met_at(Axis::Latitude, item.point) {
                Some(met) => {
                    &&& final(self).items() == old(self).items().remove(met).insert(item)
                    &&& final(self).size() == old(self).size()
                    &&& final(self).same_places(*old(self))
                },
                None => {
                    &&& final(self).items() == old(self).items().insert(item)
                    &&& final(self).size() == old(self).size() + 1
                },
            },
    {
        proof {
            self.lemma_upserted_items(Axis::Latitude, item);
            if self.well_formed(Axis::Latitude) {
                self.lemma_upserted_well_formed(Axis::Latitude, item);
            }
            if self.strictly_split(Axis::Latitude) {
                self.lemma_upserted_strictly_split(Axis::Latitude, item);
            }
        }
        upsert_recursive(Axis::Latitude, self, item);
    }

    /// The item of the tree that is closest to `point`, and `None` for an
    /// empty tree. Of several items at the same distance, the answer is the
    /// one that `closest` names.
    pub fn find_nearest(&self, point: Point) -> (r: Option<Item<T>>)
        ensures
            r is None <==> *self is Empty,
            r == self.searched(Axis::Latitude, point),
            r matches Some(found) ==> self.items().contains(found),
            self.well_formed(Axis::Latitude) ==> r == self.closest(Axis::Latitude, point),
            self.well_formed(Axis::Latitude) ==> forall|other: Item<T>| #[trigger]
                self.items().contains(other) ==> r.unwrap().point.spec_square_distance(point)
                    <= other.point.spec_square_distance(point),
    {
        proof {
            assert forall|other: Item<T>| #[trigger] self.items().contains(other) implies (
            self.closest(Axis::Latitude, point) matches Some(found)
                && found.point.spec_square_distance(point) <= other.point.spec_square_distance(
                point,
            )) by {
                self.lemma_closest_is_nearest(Axis::Latitude, point, other);
            }
        }
        match find_nearest_recursive(self, Axis::Latitude, point) {
            None => None,
            Some(nearest) => Some(*nearest.item),
        }
    }

    pub fn new_area(item: Item<T>, left: Node<T>, right: Node<T>) -> (node: Node<T>)
        ensures
            node == (Node::Area { item, left: Box::new(left), right: Box::new(right) }),
    {
        Node::Area { item, left: Box::new(left), right: Box::new(right) }
    }

    /// The payload at the root, if there is a root.
    pub fn value(&self) -> (r: Option<T>)
        ensures
            r == match *self {
                Node::Empty => None,
                Node::Area { item, .. } => Some(item.value),
            },
    {
        match self {
            Node::Empty => None,
            Node::Area { item, .. } => Some(item.value),
        }
    }

    /// The left subtree, unless it is empty.
    pub fn left(&self) -> (r: Option<&Node<T>>)
        ensures
            r == match *self {
                Node::Area { left, .. } if !(*left is Empty) => Some(&*left),
                _ => None,
            },
    {
        match self {
            Node::Empty => None,
            Node::Area { left, .. } => {
                match **left {
                    Node::Empty => None,
                    _ => Some(&**left),
                }
            },
        }
    }

    /// The right subtree, unless it is empty.
    pub fn right(&self) -> (r: Option<&Node<T>>)
        ensures
            r == match *self {
                Node::Area { right, .. } if !(*right is Empty) => Some(&*right),
                _ => None,
            },
    {
        match self {
            Node::Empty => None,
            Node::Area { right, .. } => {
                match **right {
                    Node::Empty => None,
                    _ => Some(&**right),
                }
            },
        }
    }
}

} // verus!
