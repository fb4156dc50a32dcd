//! Entities: an id, the components stored under the keys of their types, the
//! removals that wait for the next reconciliation, and two flags.

use crate::sets::members;
use std::collections::HashMap;
use std::collections::HashSet;
use vstd::prelude::*;

verus! {

/// The key of a component type. An entity holds at most one component under
/// each key.
pub type TypeKey = u64;

/// Misuse of an entity that the checked operations report instead of
/// carrying out.
#[derive(Clone, Copy, Debug, PartialEq, Eq, Structural)]
pub enum EcsError {
    /// The slot holds no component: a guard for it is outstanding, or none
    /// was ever stored.
    BorrowConflict,
    /// The component is already marked for removal.
    DoubleRemoval,
}

/// What an entity is, as a mathematical value.
pub struct EntityView<C> {
    pub id: i32,
    /// The live components, by the key of their type.
    pub components: Map<TypeKey, C>,
    /// The keys marked for removal and not purged yet.
    pub removed: Set<TypeKey>,
    /// Whether the entity has been reconciled since it was last refreshed.
    pub fresh: bool,
    pub deleted: bool,
}

impl<C> EntityView<C> {
    /// A new entity: no component, nothing to remove, not fresh, not deleted.
    pub open spec fn created(id: i32) -> Self {
        EntityView {
            id,
            components: Map::empty(),
            removed: Set::empty(),
            fresh: false,
            deleted: false,
        }
    }

    /// The keys of the live components.
    pub open spec fn types(self) -> Set<TypeKey> {
        self.components.dom()
    }

    pub open spec fn has(self, key: TypeKey) -> bool {
        self.components.dom().contains(key)
    }

    /// An entity that no system has to look at again: reconciled and not
    /// deleted.
    pub open spec fn settled(self) -> bool {
        self.fresh && !self.deleted
    }

    pub open spec fn with_id(self, id: i32) -> Self {
        EntityView { id, ..self }
    }

    pub open spec fn with_fresh(self, fresh: bool) -> Self {
        EntityView { fresh, ..self }
    }

    pub open spec fn with_deleted(self) -> Self {
        EntityView { deleted: true, ..self }
    }

    /// Stores `component` under `key`, in place of what was there.
    pub open spec fn with_component(self, key: TypeKey, component: C) -> Self {
        EntityView { components: self.components.insert(key, component), ..self }
    }

    /// Empties the slot of `key`: what a guard does while it holds the
    /// component.
    pub open spec fn without_component(self, key: TypeKey) -> Self {
        EntityView { components: self.components.remove(key), ..self }
    }

    /// Marks `key` for removal. The component stays where it is.
    pub open spec fn mark_removed(self, key: TypeKey) -> Self {
        EntityView { removed: self.removed.insert(key), ..self }
    }

    /// Carries out the removals that were marked.
    pub open spec fn purged(self) -> Self {
        EntityView {
            components: self.components.remove_keys(self.removed),
            removed: Set::empty(),
            ..self
        }
    }
}

/// A set of components under an id.
pub struct Entity<C> {
    id: i32,
    components: HashMap<TypeKey, C>,
    removed_components: HashSet<TypeKey>,
    fresh: bool,
    deleted: bool,
}

/// Exclusive access to one component of an entity.
///
/// The guard holds the component itself: `Entity::get_component` moves it
/// out of the entity and `Entity::release` moves it back. Until then the
/// entity has no component under that key, so nobody else can reach it.
pub struct ComponentGuard<C> {
    key: TypeKey,
    component: C,
}

impl<C> ComponentGuard<C> {
    /// The key under which the component goes back.
    pub closed spec fn key(&self) -> TypeKey {
        self.key
    }

    /// The component as it is now.
    pub closed spec fn value(&self) -> C {
        self.component
    }

    pub fn type_key(&self) -> (key: TypeKey)
        ensures
            key == self.key(),
    {
        self.key
    }

    /// Reads the component.
    pub fn deref(&self) -> (component: &C)
        ensures
            *component == self.value(),
    {
        &self.component
    }

    /// Writes the component. The key stays.
    pub fn deref_mut(&mut self) -> (component: &mut C)
        ensures
            *component == old(self).value(),
            final(self).value() == *final(component),
            final(self).key() == old(self).key(),
    {
        &mut self.component
    }
}

impl<C> View for Entity<C> {
    type V = EntityView<C>;

    closed spec fn view(&self) -> EntityView<C> {
        EntityView {
            id: self.id,
            components: self.components@,
            removed: self.removed_components@,
            fresh: self.fresh,
            deleted: self.deleted,
        }
    }
}

impl<C> Entity<C> {
    pub fn new(id: i32) -> (entity: Entity<C>)
        ensures
            entity@ == EntityView::<C>::created(id),
    {
        Entity {
            id,
            components: HashMap::new(),
            removed_components: HashSet::new(),
            fresh: false,
            deleted: false,
        }
    }

    pub fn id(&self) -> (id: i32)
        ensures
            id == self@.id,
    {
        self.id
    }

    /// Gives the entity another id and leaves the rest.
    pub fn set_id(&mut self, id: i32)
        ensures
            final(self)@ == old(self)@.with_id(id),
    {
        self.id = id;
    }

    /// Mark this entity as not refreshed.
    /// At the beginning of the next frame its components are held against
    /// the aspect of every system again.
    pub fn refresh(&mut self)
        ensures
            final(self)@ == old(self)@.with_fresh(false),
    {
        self.fresh = false;
    }

    /// Mark this entity as deleted.
    /// At the beginning of the next frame it leaves every system and the
    /// world.
    pub fn delete(&mut self)
        ensures
            final(self)@ == old(self)@.with_deleted(),
    {
        self.deleted = true;
    }

    pub fn set_fresh(&mut self)
        ensures
            final(self)@ == old(self)@.with_fresh(true),
    {
        self.fresh = true;
    }

    pub fn is_fresh(&self) -> (fresh: bool)
        ensures
            fresh == self@.fresh,
    {
        self.fresh
    }

    pub fn is_deleted(&self) -> (deleted: bool)
        ensures
            deleted == self@.deleted,
    {
        self.deleted
    }

    /// Stores `component` under `key`. A component that was there is
    /// dropped. Systems see the change after the next `refresh`.
    pub fn add_component(&mut self, key: TypeKey, component: C)
        ensures
            final(self)@ == old(self)@.with_component(key, component),
    {
        broadcast use vstd::std_specs::hash::group_hash_axioms;

        self.components.insert(key, component);
    }

    /// Marks the component under `key` for removal. It stays in place, and
    /// can still be borrowed, until `purge_removed` runs.
    pub fn remove_component(&mut self, key: TypeKey)
        requires
            !old(self)@.removed.contains(key),
        ensures
            final(self)@ == old(self)@.mark_removed(key),
    {
        broadcast use vstd::std_specs::hash::group_hash_axioms;

        self.removed_components.insert(key);
    }

    /// `remove_component` for a caller that does not know whether the key
    /// is marked already: the second mark is refused.
    pub fn try_remove_component(&mut self, key: TypeKey) -> (result: Result<(), EcsError>)
        ensures
            old(self)@.removed.contains(key) ==> result == Err::<(), EcsError>(
                EcsError::DoubleRemoval,
            ) && final(self)@ == old(self)@,
            !old(self)@.removed.contains(key) ==> result.is_ok() && final(self)@ == old(
                self,
            )@.mark_removed(key),
    {
        broadcast use vstd::std_specs::hash::group_hash_axioms;

        if self.removed_components.contains(&key) {
            Err(EcsError::DoubleRemoval)
        } else {
            self.removed_components.insert(key);
            Ok(())
        }
    }

    /// Whether a component is stored under `key`. One that is marked for
    /// removal still counts; one that a guard holds does not.
    pub fn has_component(&self, key: TypeKey) -> (present: bool)
        ensures
            present == self@.has(key),
    {
        broadcast use vstd::std_specs::hash::group_hash_axioms;

        self.components.contains_key(&key)
    }

    /// Whether `key` is marked for removal.
    pub fn is_removed(&self, key: TypeKey) -> (marked: bool)
        ensures
            marked == self@.removed.contains(key),
    {
        broadcast use vstd::std_specs::hash::group_hash_axioms;

        self.removed_components.contains(&key)
    }

    /// Moves the component under `key` out of the entity and into a guard.
    /// While the guard is outstanding the entity has no such component: a
    /// second borrow of the same key cannot be asked for.
    pub fn get_component(&mut self, key: TypeKey) -> (guard: ComponentGuard<C>)
        requires
            old(self)@.has(key),
        ensures
            guard.key() == key,
            guard.value() == old(self)@.components[key],
            final(self)@ == old(self)@.without_component(key),
    {
        broadcast use vstd::std_specs::hash::group_hash_axioms;

        let taken = self.components.remove(&key);
        ComponentGuard { key, component: taken.unwrap() }
    }

    /// `get_component` for a caller that does not know whether the
    /// component is there: an empty slot is a borrow conflict.
    pub fn try_get_component(&mut self, key: TypeKey) -> (result: Result<
        ComponentGuard<C>,
        EcsError,
    >)
        ensures
            final(self)@ == old(self)@.without_component(key),
            old(self)@.has(key) ==> result.is_ok() && result.unwrap().key() == key
                && result.unwrap().value() == old(self)@.components[key],
            !old(self)@.has(key) ==> result == Err::<ComponentGuard<C>, EcsError>(
                EcsError::BorrowConflict,
            ),
    {
        broadcast use vstd::std_specs::hash::group_hash_axioms;

        match self.components.remove(&key) {
            Some(component) => Ok(ComponentGuard { key, component }),
            None => {
                assert(self@.components =~= old(self)@.components);
                Err(EcsError::BorrowConflict)
            },
        }
    }

    /// Borrows two components at once.
    pub fn get_components(&mut self, key: TypeKey, key1: TypeKey) -> (guards: (
        ComponentGuard<C>,
        ComponentGuard<C>,
    ))
        requires
            old(self)@.has(key),
            old(self)@.has(key1),
            key != key1,
        ensures
            guards.0.key() == key,
            guards.0.value() == old(self)@.components[key],
            guards.1.key() == key1,
            guards.1.value() == old(self)@.components[key1],
            final(self)@ == old(self)@.without_component(key).without_component(key1),
    {
        let first = self.get_component(key);
        let second = self.get_component(key1);
        (first, second)
    }

    /// Borrows three components at once.
    pub fn get_components3(&mut self, key: TypeKey, key1: TypeKey, key2: TypeKey) -> (guards: (
        ComponentGuard<C>,
        ComponentGuard<C>,
        ComponentGuard<C>,
    ))
        requires
            old(self)@.has(key),
            old(self)@.has(key1),
            old(self)@.has(key2),
            key != key1,
            key != key2,
            key1 != key2,
        ensures
            guards.0.key() == key,
            guards.0.value() == old(self)@.components[key],
            guards.1.key() == key1,
            guards.1.value() == old(self)@.components[key1],
            guards.2.key() == key2,
            guards.2.value() == old(self)@.components[key2],
            final(self)@ == old(self)@.without_component(key).without_component(
                key1,
            ).without_component(key2),
    {
        let first = self.get_component(key);
        let second = self.get_component(key1);
        let third = self.get_component(key2);
        (first, second, third)
    }

    /// Ends a borrow: the component goes back under the key it was taken
    /// from, as the guard's holder left it.
    pub fn release(&mut self, guard: ComponentGuard<C>)
        ensures
            final(self)@ == old(self)@.with_component(guard.key(), guard.value()),
    {
        broadcast use vstd::std_specs::hash::group_hash_axioms;

        self.components.insert(guard.key, guard.component);
    }

    /// Carries out the removals that were marked: each marked key loses its
    /// component, and no key stays marked.
    pub fn purge_removed(&mut self)
        ensures
            final(self)@ == old(self)@.purged(),
    {
        broadcast use vstd::std_specs::hash::group_hash_axioms;

        let marked = members(&self.removed_components);
        let mut i: usize = 0;
        while i < marked.len()
            invariant
                i <= marked@.len(),
                self.id == old(self).id,
                self.fresh == old(self).fresh,
                self.deleted == old(self).deleted,
                self.removed_components@ == old(self)@.removed,
                marked@.to_set() == old(self)@.removed,
                self.components@ == old(self)@.components.remove_keys(marked@.take(i as int).to_set()),
            decreases marked@.len() - i,
        {
            let key = marked[i];
            self.components.remove(&key);
            assert(marked@.take(i + 1) =~= marked@.take(i as int).push(key));
            proof {
                marked@.take(i as int).lemma_push_to_set_commute(key);
            }
            assert(self.components@ =~= old(self)@.components.remove_keys(
                marked@.take(i + 1).to_set(),
            ));
            i = i + 1;
        }
        assert(marked@.take(i as int) =~= marked@);
        self.removed_components.clear();
    }
}

/// Removing a component is deferred: the mark leaves the component where it
/// is, so it can still be borrowed, and only the purge takes it away.
pub proof fn lemma_removal_is_deferred<C>(entity: EntityView<C>, key: TypeKey)
    ensures
        entity.mark_removed(key).has(key) == entity.has(key),
        entity.mark_removed(key).components == entity.components,
        !entity.mark_removed(key).purged().has(key),
        entity.mark_removed(key).purged().removed.is_empty(),
{
}

/// One borrow at a time: while a guard holds the component of `key`, the
/// entity has none under that key, whatever else is done to other keys, and
/// the release brings back what the guard holds.
pub proof fn lemma_single_borrow<C>(entity: EntityView<C>, key: TypeKey, returned: C)
    ensures
        !entity.without_component(key).has(key),
        forall|other: TypeKey|
            other != key ==> entity.without_component(key).has(other) == entity.has(other),
        entity.without_component(key).with_component(key, returned).has(key),
        entity.without_component(key).with_component(key, returned).components[key] == returned,
        entity.has(key) ==> entity.without_component(key).with_component(
            key,
            entity.components[key],
        ) == entity,
{
    if entity.has(key) {
        assert(entity.without_component(key).with_component(
            key,
            entity.components[key],
        ).components =~= entity.components);
    }
}

} // verus!
