//! The two record storages of a `shipyard` world, and the calls that the
//! hierarchy makes into them.
//!
//! Nothing in this file is proved: each function states what the `shipyard`
//! call in its body does, as `shipyard`'s source shows it. What a storage
//! holds is named by [`parent_records`] and [`child_records`]: the map from
//! each handle that the storage can be asked about with success to the record
//! it then gives.
use crate::components::{Child, Parent};
use crate::handle::{accepts, lookup, slot, valid_handle};
use shipyard::{AddComponent, EntitiesViewMut, EntityId, Get, Remove, ViewMut, World};
use vstd::prelude::*;

verus! {

/// `shipyard::track::All`, the tracking that the two record types ask of
/// their storages.
#[verifier::external_type_specification]
#[verifier::external_body]
pub struct ExAll(shipyard::track::All);

/// `shipyard::World`, which owns the entities and the storages.
#[verifier::external_type_specification]
#[verifier::external_body]
pub struct ExWorld(World);

/// `shipyard::EntitiesViewMut`, exclusive access to the entities of a world.
#[verifier::external_type_specification]
#[verifier::external_body]
pub struct ExEntitiesViewMut<'a>(EntitiesViewMut<'a>);

/// Exclusive access to the storage of [`Parent`] records: a
/// `shipyard::ViewMut`.
#[verifier::external_body]
pub struct ParentTable<'a> {
    view: ViewMut<'a, Parent>,
}

/// Exclusive access to the storage of [`Child`] records: a
/// `shipyard::ViewMut`.
#[verifier::external_body]
pub struct ChildTable<'a> {
    view: ViewMut<'a, Child>,
}

/// The records of a [`ParentTable`], by handle.
pub uninterp spec fn parent_records(table: ParentTable<'_>) -> Map<u64, Parent>;

/// The records of a [`ChildTable`], by handle.
pub uninterp spec fn child_records(table: ChildTable<'_>) -> Map<u64, Child>;

/// The handles of the living entities of a world.
pub uninterp spec fn living_entities(entities: EntitiesViewMut<'_>) -> Set<u64>;

/// `World::borrow` for the entities and the two storages at once. `None`
/// where `shipyard` refuses the borrow. Nothing is claimed of what the
/// storages hold.
#[verifier::external_body]
pub(crate) fn borrow_tables<'a>(world: &'a World) -> (r: Option<
    (EntitiesViewMut<'a>, ParentTable<'a>, ChildTable<'a>),
>) {
    match world.borrow::<(EntitiesViewMut<'a>, ViewMut<'a, Parent>, ViewMut<'a, Child>)>() {
        Ok((entities, parents, children)) => {
            Some((entities, ParentTable { view: parents }, ChildTable { view: children }))
        },
        Err(_) => None,
    }
}

/// `Entities::add_entity` without components. The handle of a new entity has
/// an index part of at least one and a generation below the two that
/// `shipyard` keeps for dead entities and empty cells. Its index is one that
/// no living entity had, and it joins the living entities.
#[verifier::external_body]
pub(crate) fn add_entity(entities: &mut EntitiesViewMut<'_>) -> (id: u64)
    ensures
        valid_handle(id),
        forall|k: u64| living_entities(*old(entities)).contains(k) ==> slot(k) != slot(id),
        living_entities(*final(entities)) == living_entities(*old(entities)).insert(id),
{
    entities.add_entity((), ()).inner()
}

/// `SparseSet::is_empty` on the storage of the view: whether it holds no
/// record at all.
#[verifier::external_body]
pub(crate) fn parent_table_is_empty(table: &ParentTable<'_>) -> (r: bool)
    ensures
        r == (forall|k: u64| !parent_records(*table).contains_key(k)),
{
    table.view.is_empty()
}

/// `SparseSet::is_empty` on the storage of the view: whether it holds no
/// record at all.
#[verifier::external_body]
pub(crate) fn child_table_is_empty(table: &ChildTable<'_>) -> (r: bool)
    ensures
        r == (forall|k: u64| !child_records(*table).contains_key(k)),
{
    table.view.is_empty()
}

/// `Get::get` on the view: the record of `id`, if the storage has one.
#[verifier::external_body]
pub(crate) fn parent_get(table: &ParentTable<'_>, id: u64) -> (r: Option<Parent>)
    requires
        valid_handle(id),
    ensures
        r == lookup(parent_records(*table), id),
{
    (&table.view).get(EntityId::from_inner(id).unwrap()).ok().copied()
}

/// `AddComponent::add_component_unchecked` on the view. Where `id` has a
/// record it is replaced; where the cell of `id` is empty the record is added.
/// (Where a handle of another generation holds the cell, nothing is claimed.)
#[verifier::external_body]
pub(crate) fn parent_insert(table: &mut ParentTable<'_>, id: u64, record: Parent)
    requires
        valid_handle(id),
    ensures
        accepts(parent_records(*old(table)), id) ==> parent_records(*final(table))
            == parent_records(*old(table)).insert(id, record),
{
    table.view.add_component_unchecked(EntityId::from_inner(id).unwrap(), record);
}

/// `IndexMut::index_mut` on the view, which panics where `id` has no record,
/// then a store through the reference it gives.
#[verifier::external_body]
pub(crate) fn parent_update(table: &mut ParentTable<'_>, id: u64, record: Parent)
    requires
        valid_handle(id),
        parent_records(*old(table)).contains_key(id),
    ensures
        parent_records(*final(table)) == parent_records(*old(table)).insert(id, record),
{
    table.view[EntityId::from_inner(id).unwrap()] = record;
}

/// `Remove::remove` on the view: gives the record of `id`, if there was one.
/// Where `id` had a record, or its cell was empty, the storage then holds what
/// it held but for `id`. (Where a handle of another generation holds the
/// cell, nothing is claimed of the storage.)
#[verifier::external_body]
pub(crate) fn parent_remove(table: &mut ParentTable<'_>, id: u64) -> (r: Option<Parent>)
    requires
        valid_handle(id),
    ensures
        r == lookup(parent_records(*old(table)), id),
        accepts(parent_records(*old(table)), id) ==> parent_records(*final(table))
            == parent_records(*old(table)).remove(id),
{
    table.view.remove(EntityId::from_inner(id).unwrap())
}

/// `Get::get` on the view: the record of `id`, if the storage has one.
#[verifier::external_body]
pub(crate) fn child_get(table: &ChildTable<'_>, id: u64) -> (r: Option<Child>)
    requires
        valid_handle(id),
    ensures
        r == lookup(child_records(*table), id),
{
    (&table.view).get(EntityId::from_inner(id).unwrap()).ok().copied()
}

/// `AddComponent::add_component_unchecked` on the view. Where `id` has a
/// record it is replaced; where the cell of `id` is empty the record is added.
/// (Where a handle of another generation holds the cell, nothing is claimed.)
#[verifier::external_body]
pub(crate) fn child_insert(table: &mut ChildTable<'_>, id: u64, record: Child)
    requires
        valid_handle(id),
    ensures
        accepts(child_records(*old(table)), id) ==> child_records(*final(table)) == child_records(
            *old(table),
        ).insert(id, record),
{
    table.view.add_component_unchecked(EntityId::from_inner(id).unwrap(), record);
}

/// `IndexMut::index_mut` on the view, which panics where `id` has no record,
/// then a store through the reference it gives.
#[verifier::external_body]
pub(crate) fn child_update(table: &mut ChildTable<'_>, id: u64, record: Child)
    requires
        valid_handle(id),
        child_records(*old(table)).contains_key(id),
    ensures
        child_records(*final(table)) == child_records(*old(table)).insert(id, record),
{
    table.view[EntityId::from_inner(id).unwrap()] = record;
}

/// `Remove::remove` on the view: gives the record of `id`, if there was one.
/// Where `id` had a record, or its cell was empty, the storage then holds what
/// it held but for `id`. (Where a handle of another generation holds the
/// cell, nothing is claimed of the storage.)
#[verifier::external_body]
pub(crate) fn child_remove(table: &mut ChildTable<'_>, id: u64) -> (r: Option<Child>)
    requires
        valid_handle(id),
    ensures
        r == lookup(child_records(*old(table)), id),
        accepts(child_records(*old(table)), id) ==> child_records(*final(table)) == child_records(
            *old(table),
        ).remove(id),
{
    table.view.remove(EntityId::from_inner(id).unwrap())
}

} // verus!
