use vstd::prelude::*;
use crate::geo::Point;
use crate::tree::{Item, Node};
use crate::types::Axis;

verus! {

impl<T: Copy> Node<T> {
    /// The tree after `new_item` was put into it, for a tree whose root
    /// splits along `axis`. The descent goes right where the new place is not
    /// before the node along the node's axis, and left where it is. A node at
    /// the very place of `new_item` on that way takes its payload; if there
    /// is none, the item becomes a new leaf where the way ends.
    pub open spec fn upserted(self, axis: Axis, new_item: Item<T>) -> Node<T>
        decreases self,
    {
        match self {
            Node::Empty => Node::Area {
                item: new_item,
                left: Box::new(Node::Empty),
                right: Box::new(Node::Empty),
            },
            Node::Area { item, left, right } => {
                if item.point == new_item.point {
                    Node::Area { item: item.with_value(new_item.value), left, right }
                } else if new_item.point.coord(axis) >= item.point.coord(axis) {
                    Node::Area {
                        item,
                        left,
                        right: Box::new(right.upserted(axis.flip(), new_item)),
                    }
                } else {
                    Node::Area {
                        item,
                        left: Box::new(left.upserted(axis.flip(), new_item)),
                        right,
                    }
                }
            },
        }
    }

    /// The item that the descent toward `place` meets at `place`, if it
    /// meets one: the item whose payload an upsert at `place` replaces.
    pub open spec fn met_at(self, axis: Axis, place: Point) -> Option<Item<T>>
        decreases self,
    {
        match self {
            Node::Empty => None,
            Node::Area { item, left, right } => {
                if item.point == place {
                    Some(item)
                } else if place.coord(axis) >= item.point.coord(axis) {
                    right.met_at(axis.flip(), place)
                } else {
                    left.met_at(axis.flip(), place)
                }
            },
        }
    }

    /// What the descent meets is an item of the tree, at the place asked for.
    pub proof fn lemma_met_is_stored(self, axis: Axis, place: Point)
        ensures
            self.met_at(axis, place) matches Some(met) ==> met.point == place
                && self.items().contains(met),
        decreases self,
    {
        match self {
            Node::Empty => {},
            Node::Area { item, left, right } => {
                left.lemma_met_is_stored(axis.flip(), place);
                right.lemma_met_is_stored(axis.flip(), place);
            },
        }
    }

    /// In a tree that keeps ties on the right, the descent meets every place
    /// at which the tree holds an item.
    pub proof fn lemma_descent_meets_stored(self, axis: Axis, stored: Item<T>)
        requires
            self.strictly_split(axis),
            self.items().contains(stored),
        ensures
            self.met_at(axis, stored.point) is Some,
        decreases self,
    {
        match self {
            Node::Empty => {},
            Node::Area { item, left, right } => {
                if item.point != stored.point {
                    if left.items().contains(stored) {
                        left.lemma_descent_meets_stored(axis.flip(), stored);
                    } else {
                        assert(right.items().contains(stored));
                        right.lemma_descent_meets_stored(axis.flip(), stored);
                    }
                }
            },
        }
    }

    /// What an upsert does to the items of a tree. Where the descent meets
    /// an item at the place of `new_item`, that item is replaced and every
    /// node stays where it is, with its place. Where it meets none, the tree
    /// gains `new_item` and loses nothing.
    pub proof fn lemma_upserted_items(self, axis: Axis, new_item: Item<T>)
        ensures
            match self.met_at(axis, new_item.point) {
                Some(met) => {
                    &&& self.upserted(axis, new_item).items() =~= self.items().remove(met).insert(
                        new_item,
                    )
                    &&& self.upserted(axis, new_item).size() == self.size()
                    &&& self.upserted(axis, new_item).same_places(self)
                },
                None => {
                    &&& self.upserted(axis, new_item).items() =~= self.items().insert(new_item)
                    &&& self.upserted(axis, new_item).size() == self.size() + 1
                },
            },
            self.upserted(axis, new_item).items().contains(new_item),
            forall|x: Item<T>| #[trigger]
                self.upserted(axis, new_item).items().contains(x) ==> x == new_item
                    || self.items().contains(x),
        decreases self,
    {
        match self {
            Node::Empty => {},
            Node::Area { item, left, right } => {
                left.lemma_upserted_items(axis.flip(), new_item);
                right.lemma_upserted_items(axis.flip(), new_item);
                left.lemma_met_is_stored(axis.flip(), new_item.point);
                right.lemma_met_is_stored(axis.flip(), new_item.point);
                left.lemma_same_places_reflexive();
                right.lemma_same_places_reflexive();
            },
        }
    }

    /// An upsert keeps a well-formed tree well-formed.
    pub proof fn lemma_upserted_well_formed(self, axis: Axis, new_item: Item<T>)
        requires
            self.well_formed(axis),
        ensures
            self.upserted(axis, new_item).well_formed(axis),
        decreases self,
    {
        match self {
            Node::Empty => {
                self.upserted(axis, new_item).lemma_leaf(axis);
            },
            Node::Area { item, left, right } => {
                left.lemma_upserted_items(axis.flip(), new_item);
                right.lemma_upserted_items(axis.flip(), new_item);
                if item.point != new_item.point {
                    if new_item.point.coord(axis) >= item.point.coord(axis) {
                        right.lemma_upserted_well_formed(axis.flip(), new_item);
                    } else {
                        left.lemma_upserted_well_formed(axis.flip(), new_item);
                    }
                }
            },
        }
    }

    /// An upsert keeps ties on the right in a tree that kept them there.
    pub proof fn lemma_upserted_strictly_split(self, axis: Axis, new_item: Item<T>)
        requires
            self.strictly_split(axis),
        ensures
            self.upserted(axis, new_item).strictly_split(axis),
        decreases self,
    {
        match self {
            Node::Empty => {
                self.upserted(axis, new_item).lemma_leaf(axis);
            },
            Node::Area { item, left, right } => {
                left.lemma_upserted_items(axis.flip(), new_item);
                right.lemma_upserted_items(axis.flip(), new_item);
                if item.point != new_item.point {
                    if new_item.point.coord(axis) >= item.point.coord(axis) {
                        right.lemma_upserted_strictly_split(axis.flip(), new_item);
                    } else {
                        left.lemma_upserted_strictly_split(axis.flip(), new_item);
                    }
                }
            },
        }
    }
}

/// An upsert at a place where the tree holds an item, and where the descent
/// meets it, changes a payload and nothing else: every node stays where it
/// is, with its place and its children, and the items are those of before
/// but for the one that was met, in whose stead `new_item` stands.
pub proof fn lemma_upsert_at_met_place<T: Copy>(tree: Node<T>, new_item: Item<T>)
    requires
        tree.met_at(Axis::Latitude, new_item.point) is Some,
    ensures
        tree.upserted(Axis::Latitude, new_item).same_places(tree),
        tree.upserted(Axis::Latitude, new_item).size() == tree.size(),
        tree.upserted(Axis::Latitude, new_item).items() == tree.items().remove(
            tree.met_at(Axis::Latitude, new_item.point).unwrap(),
        ).insert(new_item),
        tree.met_at(Axis::Latitude, new_item.point).unwrap().point == new_item.point,
        tree.items().contains(tree.met_at(Axis::Latitude, new_item.point).unwrap()),
{
    tree.lemma_upserted_items(Axis::Latitude, new_item);
    tree.lemma_met_is_stored(Axis::Latitude, new_item.point);
}

/// In a tree that keeps ties on the right, an upsert at the place of any
/// stored item changes a payload and nothing else.
pub proof fn lemma_upsert_at_stored_place<T: Copy>(
    tree: Node<T>,
    stored: Item<T>,
    new_item: Item<T>,
)
    requires
        tree.strictly_split(Axis::Latitude),
        tree.items().contains(stored),
        stored.point == new_item.point,
    ensures
        tree.met_at(Axis::Latitude, new_item.point) is Some,
        tree.upserted(Axis::Latitude, new_item).same_places(tree),
        tree.upserted(Axis::Latitude, new_item).size() == tree.size(),
        tree.upserted(Axis::Latitude, new_item).items() == tree.items().remove(
            tree.met_at(Axis::Latitude, new_item.point).unwrap(),
        ).insert(new_item),
{
    tree.lemma_descent_meets_stored(Axis::Latitude, stored);
    lemma_upsert_at_met_place(tree, new_item);
}

/// A second upsert of the same item changes nothing.
pub proof fn lemma_upsert_twice<T: Copy>(tree: Node<T>, axis: Axis, new_item: Item<T>)
    ensures
        tree.upserted(axis, new_item).upserted(axis, new_item) == tree.upserted(axis, new_item),
        tree.upserted(axis, new_item).met_at(axis, new_item.point) == Some(new_item),
    decreases tree,
{
    match tree {
        Node::Empty => {},
        Node::Area { item, left, right } => {
            lemma_upsert_twice(*left, axis.flip(), new_item);
            lemma_upsert_twice(*right, axis.flip(), new_item);
        },
    }
}

/// Where an upsert puts a new item. In an empty tree it becomes the only
/// node. Under a root at another place it goes into the right subtree where
/// its latitude is not below the root's, and into the left one where it is;
/// the root and the other subtree stay as they are.
pub proof fn lemma_upsert_routes_by_latitude<T: Copy>(tree: Node<T>, new_item: Item<T>)
    ensures
        tree is Empty ==> tree.upserted(Axis::Latitude, new_item) == (Node::Area {
            item: new_item,
            left: Box::new(Node::Empty),
            right: Box::new(Node::Empty),
        }),
        tree matches Node::Area { item, left, right } ==> {
            &&& item.point != new_item.point && new_item.point.latitude >= item.point.latitude
                ==> tree.upserted(Axis::Latitude, new_item) == (Node::Area {
                item,
                left,
                right: Box::new(right.upserted(Axis::Longitude, new_item)),
            }) && right.upserted(Axis::Longitude, new_item).items().contains(new_item)
            &&& item.point != new_item.point && new_item.point.latitude < item.point.latitude
                ==> tree.upserted(Axis::Latitude, new_item) == (Node::Area {
                item,
                left: Box::new(left.upserted(Axis::Longitude, new_item)),
                right,
            }) && left.upserted(Axis::Longitude, new_item).items().contains(new_item)
        },
{
    match tree {
        Node::Empty => {},
        Node::Area { item, left, right } => {
            left.lemma_upserted_items(Axis::Longitude, new_item);
            right.lemma_upserted_items(Axis::Longitude, new_item);
        },
    }
}

/// Puts `new_item` into the subtree `node`, whose root splits along `axis`:
/// it replaces the payload of the node that the descent finds at the same
/// place, or becomes a new leaf. Nothing else in the tree changes.
pub fn upsert_recursive<T: Copy>(axis: Axis, node: &mut Node<T>, new_item: Item<T>)
    ensures
        *final(node) == old(node).upserted(axis, new_item),
    decreases *old(node),
{
    match node {
        Node::Empty => {
            *node = Node::new_area(new_item, Node::Empty, Node::Empty);
        },
        Node::Area { item, left, right } => {
            if item.point == new_item.point {
                item.value = new_item.value;
            } else if new_item.point[axis] >= item.point[axis] {
                upsert_recursive(axis.next(), right, new_item);
            } else {
                upsert_recursive(axis.next(), left, new_item);
            }
        },
    }
}

} // verus!
