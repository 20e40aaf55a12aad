//! The hierarchy of a world: its entities and the two record storages.
use crate::components::{Child, Parent};
use crate::handle::{lookup, slot, valid_handle};
use crate::links::Links;
use crate::order::ranked;
use crate::tables::{
    add_entity, borrow_tables, child_get, child_records, child_table_is_empty, living_entities,
    parent_get, parent_records, parent_table_is_empty, ChildTable, ParentTable,
};
use shipyard::{EntitiesViewMut, World};
use vstd::prelude::*;

verus! {

/// Exclusive access to the entities of a world and to its two record
/// storages.
pub struct Hierarchy<'a> {
    pub entities: EntitiesViewMut<'a>,
    pub parents: ParentTable<'a>,
    pub children: ChildTable<'a>,
}

impl View for Hierarchy<'_> {
    type V = Links;

    open spec fn view(&self) -> Links {
        Links { parents: parent_records(self.parents), children: child_records(self.children) }
    }
}

impl<'a> Hierarchy<'a> {
    /// Borrows the entities and the two record storages of `world`; `None`
    /// where one of them is borrowed already.
    pub fn borrow(world: &'a World) -> (r: Option<Hierarchy<'a>>) {
        // Whether the world lends them, and what they then hold, is the
        // world's to say; what is made of its answer, `of_borrowed` says.
        let lent = borrow_tables(world);
        Hierarchy::of_borrowed(lent)
    }

    /// The hierarchy of the entities and the two storages that a world has
    /// lent, and none where it has lent none.
    pub fn of_borrowed(
        lent: Option<(EntitiesViewMut<'a>, ParentTable<'a>, ChildTable<'a>)>,
    ) -> (r: Option<Hierarchy<'a>>)
        ensures
            r == match lent {
                Some(parts) => Some(
                    (Hierarchy { entities: parts.0, parents: parts.1, children: parts.2 }),
                ),
                None => None,
            },
    {
        match lent {
            Some((entities, parents, children)) => Some(Hierarchy { entities, parents, children }),
            None => None,
        }
    }

    /// Creates an entity. The records stay as they are; the new handle was
    /// no living entity's, and its index is one that no living entity had.
    pub fn add_entity(&mut self) -> (id: u64)
        ensures
            valid_handle(id),
            final(self)@ == old(self)@,
            !living_entities(old(self).entities).contains(id),
            forall|k: u64| living_entities(old(self).entities).contains(k) ==> slot(k) != slot(id),
            living_entities(final(self).entities) == living_entities(old(self).entities).insert(id),
    {
        add_entity(&mut self.entities)
    }

    /// Whether no entity has a parent or a child. A hierarchy without
    /// records is well formed and has no cycle.
    pub fn is_empty(&self) -> (r: bool)
        ensures
            r == (self@ == Links::empty()),
            r ==> self@.wf() && self@.acyclic(),
    {
        let no_parents = parent_table_is_empty(&self.parents);
        let no_children = child_table_is_empty(&self.children);
        proof {
            if no_parents && no_children {
                assert(ranked(self@.children, |x: u64| 0nat, 0nat));
                assert(self@.parents =~= Map::empty());
                assert(self@.children =~= Map::empty());
            }
        }
        no_parents && no_children
    }

    /// The `Parent` record of `id`, if it has one.
    pub fn parent_record(&self, id: u64) -> (r: Option<Parent>)
        requires
            valid_handle(id),
        ensures
            r == lookup(self@.parents, id),
    {
        parent_get(&self.parents, id)
    }

    /// The `Child` record of `id`, if it has one.
    pub fn child_record(&self, id: u64) -> (r: Option<Child>)
        requires
            valid_handle(id),
        ensures
            r == lookup(self@.children, id),
    {
        child_get(&self.children, id)
    }
}

} // verus!
