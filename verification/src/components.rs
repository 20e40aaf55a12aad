//! The two records that make up a hierarchy.
use shipyard::Component;
use vstd::prelude::*;

verus! {

/// Held by an entity that has at least one child.
#[derive(Clone, Copy, PartialEq, Eq, Structural, Debug)]
pub struct Parent {
    /// How many children the entity has.
    pub num_children: usize,
    /// The head of the circular list of its children.
    pub first_child: u64,
}

impl Component for Parent {
    type Tracking = shipyard::track::All;
}

impl Parent {
    pub fn new(num_children: usize, first_child: u64) -> (r: Self)
        ensures
            r == (Parent { num_children, first_child }),
    {
        Parent { num_children, first_child }
    }
}

/// Held by an entity that has a parent.
#[derive(Clone, Copy, PartialEq, Eq, Structural, Debug)]
pub struct Child {
    /// The entity's parent.
    pub parent: u64,
    /// The sibling before it in the parent's circular list.
    pub prev: u64,
    /// The sibling after it in the parent's circular list.
    pub next: u64,
}

impl Component for Child {
    type Tracking = shipyard::track::All;
}

impl Child {
    pub fn new(parent: u64, prev: u64, next: u64) -> (r: Self)
        ensures
            r == (Child { parent, prev, next }),
    {
        Child { parent, prev, next }
    }
}

} // verus!
