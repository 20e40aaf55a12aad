//! Parent/child relations between the entities of a `shipyard` world.
//!
//! A parent's children form a circular doubly-linked list that runs through
//! the [`Child`] records of the children themselves; the parent's [`Parent`]
//! record holds the head of that list and its length. The records live in two
//! `shipyard` storages, one per record type, which a [`Hierarchy`] borrows
//! together with the entities of the world.
//!
//! Handles are carried as `u64`: the inner representation of a
//! `shipyard::EntityId` (`EntityId::inner`, `EntityId::from_inner`).
//!
//! # What the contracts speak of
//!
//! The view of a [`Hierarchy`] is a [`Links`]: the two storages as maps from
//! handle to record. `Links::children_of` reads the list of a parent's
//! children off the records; `Links::wf` says that counts and lists agree
//! and that in each storage no two handles are generations of one index;
//! `Links::acyclic` says that no entity is its own ancestor. Each operation
//! states the records it leaves, as a function of the records it found, and
//! what that means for the lists of children.
//!
//! The operations take for granted that the hierarchy is well formed and
//! that the handles they are given are valid ([`is_valid_handle`]). A handle
//! that is to get a record must be accepted by the storage of that record
//! (`Links::accepts_child`, `Links::accepts_parent`): a handle that has the
//! record is, and so is one whose index no handle with such a record
//! shares. An empty hierarchy ([`Hierarchy::is_empty`]) is well formed, and
//! every operation keeps a well-formed hierarchy well formed.
//!
//! # Modules
//!
//! - [`handle`], [`components`]: handles and the two records.
//! - [`tables`]: the calls into `shipyard`, with what is taken on trust of
//!   them.
//! - [`links`], [`order`], [`below`]: the model of a hierarchy, the orders
//!   in which it is walked, and which entity hangs below which.
//! - [`detach`], [`attach`], [`remove`], [`relink`], [`sort`], [`mutate`]:
//!   the operations that change a hierarchy.
//! - [`iter`], [`debug`]: cursors over a hierarchy, and a hierarchy as text.
//! - [`laws`], [`reach`]: what holds of the operations, one with another.
pub mod attach;
pub mod below;
pub mod components;
pub mod debug;
pub mod detach;
pub mod handle;
pub mod hierarchy;
pub mod iter;
pub mod laws;
pub mod links;
pub mod mutate;
pub mod order;
pub mod reach;
pub mod relink;
pub mod remove;
pub mod sort;
pub mod tables;

pub use components::{Child, Parent};
pub use debug::{outline, DebugHierarchyTree, HierarchyIterDebug};
pub use detach::detach;
pub use handle::is_valid_handle;
pub use hierarchy::Hierarchy;
pub use iter::{
    AncestorIter, ChildrenIter, DescendantsBreadthFirstIter, DescendantsDepthFirstIter,
    HierarchyIter,
};
pub use links::Links;
pub use mutate::HierarchyMut;
pub use relink::relink;
pub use sort::sorted_by;
pub use tables::{ChildTable, ParentTable};
