use vstd::prelude::*;
use crate::tree::Item;

verus! {

/// The coordinate along which a level of the tree splits the plane.
#[derive(Copy, Clone, Debug, PartialEq, Eq, Structural)]
pub enum Axis {
    Latitude,
    Longitude,
}

impl Axis {
    /// The other axis.
    pub open spec fn flip(self) -> Axis {
        match self {
            Axis::Latitude => Axis::Longitude,
            Axis::Longitude => Axis::Latitude,
        }
    }

    /// Two steps lead back to the same axis.
    pub proof fn lemma_flip_twice(self)
        ensures
            self.flip().flip() == self,
            self.flip() != self,
    {
    }

    /// Alternates the axis: the tree compares latitudes at even depths and
    /// longitudes at odd ones.
    pub fn next(&self) -> (r: Axis)
        ensures
            r == self.flip(),
    {
        match self {
            Axis::Latitude => Axis::Longitude,
            Axis::Longitude => Axis::Latitude,
        }
    }
}

/// A candidate answer of a search: a stored item and the square of its
/// distance to the place asked for.
#[derive(Copy, Debug, PartialEq)]
pub struct Nearest<'a, T: Copy> {
    pub square_distance: u128,
    pub item: &'a Item<T>,
}

impl<'a, T: Copy> Clone for Nearest<'a, T> {
    fn clone(&self) -> (r: Self)
        ensures
            r == *self,
    {
        *self
    }
}

impl<'a, T: Copy> Nearest<'a, T> {
    pub fn new(square_distance: u128, item: &'a Item<T>) -> (nearest: Nearest<'a, T>)
        ensures
            nearest.square_distance == square_distance,
            nearest.item == item,
    {
        Nearest { square_distance, item }
    }

    /// The closer of two candidates. The second one wins only where it is
    /// strictly closer: on equal distances, and where there is no second
    /// one, the first stays.
    pub fn min(&self, other: Option<Nearest<'a, T>>) -> (r: Nearest<'a, T>)
        ensures
            other is None ==> r == *self,
            other matches Some(second) ==> r == if second.square_distance
                < self.square_distance {
                second
            } else {
                *self
            },
    {
        match other {
            Some(second) if second.square_distance < self.square_distance => second,
            _ => *self,
        }
    }
}

} // verus!
