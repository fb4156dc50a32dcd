//! The world: the entities, the systems, and the rule that keeps each
//! system's set of entities in step with what the entities are made of.

use crate::aspect::Aspect;
use crate::clock::elapsed_since;
use crate::entity::Entity;
use crate::entity::EntityView;
use crate::entity::TypeKey;
use crate::manager::at_hand_of;
use crate::manager::EntityManager;
use crate::manager::ManagerView;
use crate::system::all_at_hand;
use crate::system::DataList;
use crate::system::System;
use std::collections::HashSet;
use time::PreciseTime;
use vstd::prelude::*;

verus! {

/// What reconciling one entity with one system did to the system's set.
#[derive(Clone, Copy, Debug, PartialEq, Eq, Structural)]
pub enum Membership {
    /// The entity entered the set: `on_added` is due.
    Added,
    /// The entity left the set: `on_removed` is due.
    Removed,
    /// The entity stayed in, or stayed out.
    Unchanged,
}

/// What a frame does with one system.
#[derive(Clone, Copy, Debug, PartialEq, Eq, Structural)]
pub enum FrameAction {
    /// The system has no entities: nothing is called.
    Idle,
    /// The system has entities, but a data aspect that it cannot do
    /// without selects none: the frame begins and ends, and nothing is
    /// processed.
    Skip,
    /// The system processes its entities.
    Process,
}

/// The set `set` after `id` was made a member of it, or taken from it.
pub open spec fn with_member(set: Set<i32>, id: i32, member: bool) -> Set<i32> {
    if member {
        set.insert(id)
    } else {
        set.remove(id)
    }
}

/// Whether an entity with components of the types `types` belongs to the
/// set of `aspect`: a deleted entity belongs to none.
pub open spec fn belongs(aspect: Aspect, types: Set<TypeKey>, deleted: bool) -> bool {
    !deleted && aspect.accepts(types)
}

/// The entities that a system is matched with, as a mathematical value.
pub struct SelectionView {
    /// The ids of the entities that satisfy the system's aspect.
    pub entities: Set<i32>,
    /// For each data aspect, the ids of the entities that satisfy it.
    pub data: Seq<Set<i32>>,
}

impl SelectionView {
    /// The `j`th data set, or no ids where there is no such set.
    pub open spec fn data_or_empty(self, j: int) -> Set<i32> {
        if 0 <= j < self.data.len() {
            self.data[j]
        } else {
            Set::empty()
        }
    }

    /// The selection after the entity `id`, with components of the types
    /// `types`, was held against the aspects: it is in each set exactly if
    /// it belongs there, and every other id is where it was.
    pub open spec fn reconciled(
        self,
        aspect: Aspect,
        data_aspects: Seq<Aspect>,
        id: i32,
        types: Set<TypeKey>,
        deleted: bool,
    ) -> SelectionView {
        SelectionView {
            entities: with_member(self.entities, id, belongs(aspect, types, deleted)),
            data: Seq::new(
                data_aspects.len(),
                |j: int|
                    with_member(self.data_or_empty(j), id, belongs(data_aspects[j], types, deleted)),
            ),
        }
    }

    /// What reconciling does to the system's own set.
    pub open spec fn change(self, aspect: Aspect, id: i32, types: Set<TypeKey>, deleted: bool) -> Membership {
        if belongs(aspect, types, deleted) && !self.entities.contains(id) {
            Membership::Added
        } else if !belongs(aspect, types, deleted) && self.entities.contains(id) {
            Membership::Removed
        } else {
            Membership::Unchanged
        }
    }

    /// No set of the selection holds `id`.
    pub open spec fn misses(self, id: i32) -> bool {
        &&& !self.entities.contains(id)
        &&& forall|j: int| 0 <= j < self.data.len() ==> !(#[trigger] self.data[j]).contains(id)
    }

    /// A data aspect that the system cannot do without selects nothing.
    pub open spec fn lacks_data(self, data_aspects: Seq<Aspect>) -> bool {
        exists|j: int|
            0 <= j < data_aspects.len() && !(#[trigger] data_aspects[j]).optional
                && self.data_or_empty(j).is_empty()
    }

    /// What a frame does with the system.
    pub open spec fn action(self, data_aspects: Seq<Aspect>) -> FrameAction {
        if self.entities.is_empty() {
            FrameAction::Idle
        } else if self.lacks_data(data_aspects) {
            FrameAction::Skip
        } else {
            FrameAction::Process
        }
    }
}

/// A system with the aspects it was registered under.
#[verifier::reject_recursive_types(C)]
pub struct SystemData<C> {
    pub system: Box<dyn System<C>>,
    pub aspect: Aspect,
    pub data_aspects: Vec<Aspect>,
}

impl<C> SystemData<C> {
    pub fn new(system: Box<dyn System<C>>, aspect: Aspect, data_aspects: Vec<Aspect>) -> (data:
        SystemData<C>)
        ensures
            data == (SystemData { system, aspect, data_aspects }),
    {
        SystemData { system, aspect, data_aspects }
    }
}

/// The ids of the entities that a system is matched with.
pub struct SelectedEntities {
    pub entity_set: HashSet<i32>,
    pub data_set: Vec<HashSet<i32>>,
}

impl View for SelectedEntities {
    type V = SelectionView;

    open spec fn view(&self) -> SelectionView {
        SelectionView {
            entities: self.entity_set@,
            data: self.data_set@.map_values(|set: HashSet<i32>| set@),
        }
    }
}

impl SelectedEntities {
    /// A selection without entities, with `data_count` data sets.
    pub fn new(data_count: usize) -> (selected: SelectedEntities)
        ensures
            selected@.entities == Set::<i32>::empty(),
            selected@.data == Seq::new(data_count as nat, |j: int| Set::<i32>::empty()),
    {
        let mut data_set: Vec<HashSet<i32>> = Vec::new();
        let mut j: usize = 0;
        while j < data_count
            invariant
                j <= data_count,
                data_set@.len() == j,
                forall|k: int| 0 <= k < j ==> (#[trigger] data_set@[k])@ == Set::<i32>::empty(),
            decreases data_count - j,
        {
            data_set.push(HashSet::new());
            j = j + 1;
        }
        let selected = SelectedEntities { entity_set: HashSet::new(), data_set };
        assert(selected@.data =~= Seq::new(data_count as nat, |j: int| Set::<i32>::empty()));
        selected
    }

    /// Holds `entity`, under the id `id`, against the system's aspect and
    /// against each of its data aspects, and puts the id into each set, or
    /// takes it out. There is one data set for each data aspect afterwards.
    pub fn reconcile<C>(
        &mut self,
        aspect: &Aspect,
        data_aspects: &Vec<Aspect>,
        entity: &Entity<C>,
        id: i32,
        deleted: bool,
    ) -> (change: Membership)
        ensures
            final(self)@ == old(self)@.reconciled(
                *aspect,
                data_aspects@,
                id,
                entity@.types(),
                deleted,
            ),
            change == old(self)@.change(*aspect, id, entity@.types(), deleted),
    {
        broadcast use vstd::std_specs::hash::group_hash_axioms;

        let ghost goal = old(self)@.reconciled(
            *aspect,
            data_aspects@,
            id,
            entity@.types(),
            deleted,
        );
        let member = !deleted && aspect.check(entity);
        let change = if member {
            if self.entity_set.insert(id) {
                Membership::Added
            } else {
                Membership::Unchanged
            }
        } else {
            if self.entity_set.remove(&id) {
                Membership::Removed
            } else {
                Membership::Unchanged
            }
        };
        assert(self@.entities =~= goal.entities);
        let count = data_aspects.len();
        self.data_set.truncate(count);
        while self.data_set.len() < count
            invariant
                count == data_aspects@.len(),
                self.entity_set@ == goal.entities,
                self.data_set@.len() <= count,
                old(self)@.data.len() <= self.data_set@.len() || self.data_set@.len() == count,
                forall|k: int|
                    0 <= k < self.data_set@.len() ==> (#[trigger] self.data_set@[k])@ == old(self)@.data_or_empty(k),
            decreases count - self.data_set@.len(),
        {
            self.data_set.push(HashSet::new());
        }
        let mut j: usize = 0;
        while j < count
            invariant
                j <= count,
                count == data_aspects@.len(),
                self.entity_set@ == goal.entities,
                self.data_set@.len() == count,
                goal == old(self)@.reconciled(
                    *aspect,
                    data_aspects@,
                    id,
                    entity@.types(),
                    deleted,
                ),
                forall|k: int| 0 <= k < j ==> (#[trigger] self.data_set@[k])@ == goal.data[k],
                forall|k: int|
                    j <= k < count ==> (#[trigger] self.data_set@[k])@ == old(self)@.data_or_empty(
                        k,
                    ),
            decreases count - j,
        {
            let wanted = !deleted && data_aspects[j].check(entity);
            if wanted {
                self.data_set[j].insert(id);
            } else {
                self.data_set[j].remove(&id);
            }
            assert(self.data_set@[j as int]@ =~= goal.data[j as int]);
            j = j + 1;
        }
        assert(self@.data =~= goal.data);
        change
    }

    /// What a frame does with the system of this selection.
    pub fn frame_action(&self, data_aspects: &Vec<Aspect>) -> (action: FrameAction)
        ensures
            action == self@.action(data_aspects@),
    {
        broadcast use vstd::std_specs::hash::group_hash_axioms;

        if self.entity_set.is_empty() {
            return FrameAction::Idle;
        }
        let mut j: usize = 0;
        while j < data_aspects.len()
            invariant
                j <= data_aspects@.len(),
                !self@.entities.is_empty(),
                forall|k: int|
                    0 <= k < j ==> (#[trigger] data_aspects@[k]).optional || !self@.data_or_empty(
                        k,
                    ).is_empty(),
            decreases data_aspects@.len() - j,
        {
            if !data_aspects[j].optional {
                let empty = if j < self.data_set.len() {
                    self.data_set[j].is_empty()
                } else {
                    true
                };
                if empty {
                    assert(!data_aspects@[j as int].optional && self@.data_or_empty(
                        j as int,
                    ).is_empty());
                    return FrameAction::Skip;
                }
            }
            j = j + 1;
        }
        FrameAction::Process
    }
}

/// One system of a world with what it is matched with, as a mathematical
/// value.
pub struct RegistrationView {
    pub aspect: Aspect,
    pub data_aspects: Seq<Aspect>,
    pub selection: SelectionView,
}

impl RegistrationView {
    pub open spec fn of<C>(record: (SystemData<C>, SelectedEntities)) -> RegistrationView {
        RegistrationView {
            aspect: record.0.aspect,
            data_aspects: record.0.data_aspects@,
            selection: record.1@,
        }
    }

    /// The registration after the entity `id` was reconciled with it.
    pub open spec fn reconciled(self, id: i32, types: Set<TypeKey>, deleted: bool) -> RegistrationView {
        RegistrationView {
            selection: self.selection.reconciled(self.aspect, self.data_aspects, id, types, deleted),
            ..self
        }
    }

    /// `after` is what reconciling the entity `id` makes of the
    /// registration, whatever the entity's components were.
    pub open spec fn reconciles_to(self, after: RegistrationView, id: i32, deleted: bool) -> bool {
        exists|types: Set<TypeKey>| after == #[trigger] self.reconciled(id, types, deleted)
    }

    /// The entity `id` is in the same sets here as in `before`.
    pub open spec fn same_place(self, before: RegistrationView, id: i32) -> bool {
        &&& self.selection.entities.contains(id) == before.selection.entities.contains(id)
        &&& forall|j: int|
            0 <= j < before.data_aspects.len() ==> (#[trigger] self.selection.data_or_empty(
                j,
            )).contains(id) == before.selection.data_or_empty(j).contains(id)
    }

    /// The entity `id`, with components of the types `types`, is in each
    /// set here exactly if it belongs there by the aspects of `before`.
    pub open spec fn in_place(
        self,
        before: RegistrationView,
        id: i32,
        types: Set<TypeKey>,
        deleted: bool,
    ) -> bool {
        &&& self.selection.entities.contains(id) == belongs(before.aspect, types, deleted)
        &&& forall|j: int|
            0 <= j < before.data_aspects.len() ==> (#[trigger] self.selection.data_or_empty(
                j,
            )).contains(id) == belongs(before.data_aspects[j], types, deleted)
    }

    /// Reconciling the entity `id` calls for no hook: it is in the system's
    /// set exactly if it belongs there.
    pub open spec fn quiet(self, id: i32, types: Set<TypeKey>, deleted: bool) -> bool {
        self.selection.entities.contains(id) == belongs(self.aspect, types, deleted)
    }

    pub open spec fn action(self) -> FrameAction {
        self.selection.action(self.data_aspects)
    }
}

/// The registrations of a list of systems.
pub open spec fn registrations<C>(systems: Seq<(SystemData<C>, SelectedEntities)>) -> Seq<
    RegistrationView,
> {
    systems.map_values(|record: (SystemData<C>, SelectedEntities)| RegistrationView::of(record))
}

/// Reconciling the entity `id` calls for no hook of the first `n` systems.
pub open spec fn quiet_until(
    systems: Seq<RegistrationView>,
    n: int,
    id: i32,
    types: Set<TypeKey>,
    deleted: bool,
) -> bool {
    forall|j: int| 0 <= j < n && j < systems.len() ==> (#[trigger] systems[j]).quiet(id, types, deleted)
}

/// Reconciling one entity puts it where it belongs and moves no other: an
/// id that the sets did not hold is not in them afterwards, unless it is
/// the id reconciled, and a deleted entity is in no set afterwards.
pub proof fn lemma_reconciled_touches_one(
    registration: RegistrationView,
    id: i32,
    types: Set<TypeKey>,
    deleted: bool,
)
    ensures
        registration.reconciled(id, types, deleted).in_place(registration, id, types, deleted),
        forall|other: i32|
            other != id ==> #[trigger] registration.reconciled(id, types, deleted).same_place(
                registration,
                other,
            ),
        forall|other: i32|
            other != id && registration.selection.misses(other) ==> #[trigger] registration.reconciled(
                id,
                types,
                deleted,
            ).selection.misses(other),
        deleted ==> registration.reconciled(id, types, deleted).selection.misses(id),
{
}

/// Reconciling is idempotent: an entity that was reconciled and has not
/// changed since is where it belongs, so a second reconciliation calls for
/// no hook and moves nothing.
pub proof fn lemma_reconcile_twice(
    registration: RegistrationView,
    id: i32,
    types: Set<TypeKey>,
    deleted: bool,
)
    ensures
        registration.reconciled(id, types, deleted).quiet(id, types, deleted),
        registration.reconciled(id, types, deleted).selection.change(
            registration.aspect,
            id,
            types,
            deleted,
        ) == Membership::Unchanged,
        registration.reconciled(id, types, deleted).reconciled(id, types, deleted)
            == registration.reconciled(id, types, deleted),
{
    let once = registration.reconciled(id, types, deleted);
    let twice = once.reconciled(id, types, deleted);
    assert(twice.selection.entities =~= once.selection.entities);
    assert(twice.selection.data =~~= once.selection.data);
}

/// An entity that has a component of every type that a system requires,
/// none of a type that it excludes, and is not deleted, is in the system's
/// set after reconciliation, once: `on_added` is due exactly if it was not
/// there before, and a second reconciliation calls for no hook. Removals
/// that are marked count as carried out, which is what the pass does
/// first.
pub proof fn lemma_add_then_match<C>(registration: RegistrationView, entity: EntityView<C>, id: i32)
    requires
        forall|key: TypeKey|
            registration.aspect.required().contains(key) ==> entity.has(key)
                && !entity.removed.contains(key),
        forall|key: TypeKey| registration.aspect.excluded().contains(key) ==> !entity.has(key),
    ensures
        registration.reconciled(id, entity.purged().types(), false).selection.entities.contains(id),
        registration.selection.change(registration.aspect, id, entity.purged().types(), false) == (
        if registration.selection.entities.contains(id) {
            Membership::Unchanged
        } else {
            Membership::Added
        }),
        registration.reconciled(id, entity.purged().types(), false).quiet(
            id,
            entity.purged().types(),
            false,
        ),
{
    let types = entity.purged().types();
    assert forall|key: TypeKey| #[trigger]
        registration.aspect.required().contains(key) implies types.contains(key) by {
        assert(entity.has(key) && !entity.removed.contains(key));
    }
    assert forall|key: TypeKey| #[trigger]
        registration.aspect.excluded().contains(key) implies !types.contains(key) by {
        assert(!entity.has(key));
    }
    assert(registration.aspect.accepts(types));
}

/// A system is not processed while a data aspect that it cannot do without
/// selects nothing, and is processed again as soon as every such aspect
/// selects an entity and the system has entities of its own.
pub proof fn lemma_data_gates_processing(selection: SelectionView, data_aspects: Seq<Aspect>)
    ensures
        (exists|j: int|
            0 <= j < data_aspects.len() && !(#[trigger] data_aspects[j]).optional
                && selection.data_or_empty(j).is_empty()) ==> selection.action(data_aspects)
            != FrameAction::Process,
        !selection.entities.is_empty() && (forall|j: int|
            0 <= j < data_aspects.len() ==> (#[trigger] data_aspects[j]).optional
                || !selection.data_or_empty(j).is_empty()) ==> selection.action(data_aspects)
            == FrameAction::Process,
{
}

/// An entity that satisfies a data aspect is in the aspect's set after
/// reconciliation, so the set is not empty and no longer keeps the system
/// from processing.
pub proof fn lemma_data_arrives(
    registration: RegistrationView,
    id: i32,
    types: Set<TypeKey>,
    j: int,
)
    requires
        0 <= j < registration.data_aspects.len(),
        registration.data_aspects[j].accepts(types),
    ensures
        registration.reconciled(id, types, false).selection.data_or_empty(j).contains(id),
        !registration.reconciled(id, types, false).selection.data_or_empty(j).is_empty(),
{
    let set = registration.reconciled(id, types, false).selection.data_or_empty(j);
    assert(set.contains(id));
    if set.is_empty() {
        assert(!Set::<i32>::empty().contains(id));
    }
}

/// An entity that is in the same sets of `now` as of `earlier`, and of
/// `earlier` as of `before`, is in the same sets of `now` as of `before`,
/// where `earlier` and `before` have the same data aspects.
pub proof fn lemma_same_place_twice(
    now: RegistrationView,
    earlier: RegistrationView,
    before: RegistrationView,
    id: i32,
)
    requires
        now.same_place(earlier, id),
        earlier.same_place(before, id),
        earlier.data_aspects == before.data_aspects,
    ensures
        now.same_place(before, id),
{
    assert forall|j: int| 0 <= j < before.data_aspects.len() implies (
    #[trigger] now.selection.data_or_empty(j)).contains(id) == before.selection.data_or_empty(
        j,
    ).contains(id) by {
        assert(earlier.selection.data_or_empty(j).contains(id) == before.selection.data_or_empty(
            j,
        ).contains(id));
    }
}

/// An entity that is in place in `earlier`, and in the same sets of `now`
/// as of `earlier`, is in place in `now`.
pub proof fn lemma_in_place_stays(
    now: RegistrationView,
    earlier: RegistrationView,
    before: RegistrationView,
    id: i32,
    types: Set<TypeKey>,
    deleted: bool,
)
    requires
        now.same_place(earlier, id),
        earlier.in_place(before, id, types, deleted),
        earlier.data_aspects == before.data_aspects,
    ensures
        now.in_place(before, id, types, deleted),
{
    assert forall|j: int| 0 <= j < before.data_aspects.len() implies (
    #[trigger] now.selection.data_or_empty(j)).contains(id) == belongs(
        before.data_aspects[j],
        types,
        deleted,
    ) by {
        assert(earlier.selection.data_or_empty(j).contains(id) == belongs(
            before.data_aspects[j],
            types,
            deleted,
        ));
    }
}

/// To be in place is a matter of the aspects alone: registrations with the
/// same aspects put an entity in the same place.
pub proof fn lemma_in_place_by_aspects(
    now: RegistrationView,
    earlier: RegistrationView,
    before: RegistrationView,
    id: i32,
    types: Set<TypeKey>,
    deleted: bool,
)
    requires
        now.in_place(earlier, id, types, deleted),
        earlier.aspect == before.aspect,
        earlier.data_aspects == before.data_aspects,
    ensures
        now.in_place(before, id, types, deleted),
{
}

/// The reconciliation pass has to look at the entity `id`: it is at hand,
/// and not fresh or deleted.
pub open spec fn due<C>(manager: ManagerView<C>, id: i32) -> bool {
    manager.available(id) && !manager.entity(id).settled()
}

/// The entity `id` is where the reconciliation pass puts it in the sets of
/// the `m`th system. One that was not due is where it was. One that was
/// due is in each set exactly if it belongs there, as it stood in `before`
/// with its removals carried out, provided that it called no hook of an
/// earlier system: a hook may change it, and the systems after it see what
/// it left.
pub open spec fn placed<C>(
    before: WorldView<C>,
    after: Seq<RegistrationView>,
    m: int,
    id: i32,
) -> bool {
    if due(before.manager, id) {
        let entity = before.manager.entity(id);
        quiet_until(before.systems, m, id, entity.purged().types(), entity.deleted)
            ==> after[m].in_place(before.systems[m], id, entity.purged().types(), entity.deleted)
    } else {
        after[m].same_place(before.systems[m], id)
    }
}

/// `after` is what the reconciliation pass makes of the systems of
/// `before`: every entity is placed in the sets of every system.
pub open spec fn reconciled_from<C>(before: WorldView<C>, after: Seq<RegistrationView>) -> bool {
    forall|id: i32, m: int|
        0 <= m < before.systems.len() ==> #[trigger] placed(before, after, m, id)
}

/// What the reconciliation pass leaves of the entity `id`. One that was not
/// due is as it was. One that was due and not deleted carries its id, has
/// its removals carried out and is fresh, and is otherwise as it was,
/// provided that it called no hook of any system: a hook may change it.
pub open spec fn left<C>(before: WorldView<C>, after: ManagerView<C>, id: i32) -> bool {
    if !before.manager.holds(id) {
        true
    } else if !due(before.manager, id) {
        after.holds(id) && after.entities[id] == before.manager.entities[id]
    } else {
        let entity = before.manager.entity(id);
        !entity.deleted && quiet_until(
            before.systems,
            before.systems.len() as int,
            id,
            entity.purged().types(),
            false,
        ) ==> after.available(id) && after.entity(id) == entity.with_id(id).purged().with_fresh(
            true,
        )
    }
}

/// `after` holds what the reconciliation pass leaves of the entities of
/// `before`.
pub open spec fn entities_left<C>(before: WorldView<C>, after: ManagerView<C>) -> bool {
    forall|id: i32| #[trigger] left(before, after, id)
}

/// No system of `systems` processes in a frame: each has no entities, or
/// lacks data that it cannot do without.
pub open spec fn idle(systems: Seq<RegistrationView>) -> bool {
    forall|i: int| 0 <= i < systems.len() ==> (#[trigger] systems[i]).action() != FrameAction::Process
}

/// After the reconciliation pass, an entity that was due, is not deleted,
/// has a component of every type that a system requires, none of a type
/// that it excludes, and no required one marked for removal, is in the
/// system's own set, provided that it called no hook of an earlier system.
pub proof fn lemma_pass_matches<C>(
    before: WorldView<C>,
    after: Seq<RegistrationView>,
    m: int,
    id: i32,
)
    requires
        reconciled_from(before, after),
        0 <= m < before.systems.len(),
        due(before.manager, id),
        !before.manager.entity(id).deleted,
        quiet_until(before.systems, m, id, before.manager.entity(id).purged().types(), false),
        forall|key: TypeKey|
            before.systems[m].aspect.required().contains(key) ==> before.manager.entity(id).has(
                key,
            ) && !before.manager.entity(id).removed.contains(key),
        forall|key: TypeKey|
            before.systems[m].aspect.excluded().contains(key) ==> !before.manager.entity(id).has(
                key,
            ),
    ensures
        after[m].selection.entities.contains(id),
{
    assert(placed(before, after, m, id));
    lemma_add_then_match(before.systems[m], before.manager.entity(id), id);
}

/// After the reconciliation pass, an entity that was due, is not deleted,
/// called no hook of an earlier system and satisfies a data aspect of a
/// system, with its removals carried out, is in the set of that aspect:
/// the set is not empty, and no longer keeps the system from processing.
pub proof fn lemma_pass_brings_data<C>(
    before: WorldView<C>,
    after: Seq<RegistrationView>,
    m: int,
    j: int,
    id: i32,
)
    requires
        reconciled_from(before, after),
        0 <= m < before.systems.len(),
        0 <= j < before.systems[m].data_aspects.len(),
        due(before.manager, id),
        !before.manager.entity(id).deleted,
        quiet_until(before.systems, m, id, before.manager.entity(id).purged().types(), false),
        before.systems[m].data_aspects[j].accepts(before.manager.entity(id).purged().types()),
    ensures
        after[m].selection.data_or_empty(j).contains(id),
        !after[m].selection.data_or_empty(j).is_empty(),
{
    assert(placed(before, after, m, id));
    let set = after[m].selection.data_or_empty(j);
    assert(set.contains(id));
    if set.is_empty() {
        assert(!Set::<i32>::empty().contains(id));
    }
}

/// After the reconciliation pass, an entity that was due, is not deleted
/// and called no hook has lost every component that was marked for
/// removal, has nothing marked, and has every other component as before.
pub proof fn lemma_pass_carries_out_removals<C>(
    before: WorldView<C>,
    after: ManagerView<C>,
    id: i32,
    key: TypeKey,
)
    requires
        entities_left(before, after),
        due(before.manager, id),
        !before.manager.entity(id).deleted,
        quiet_until(
            before.systems,
            before.systems.len() as int,
            id,
            before.manager.entity(id).purged().types(),
            false,
        ),
    ensures
        after.available(id),
        after.entity(id).removed == Set::<TypeKey>::empty(),
        before.manager.entity(id).removed.contains(key) ==> !after.entity(id).has(key),
        !before.manager.entity(id).removed.contains(key) ==> after.entity(id).has(key)
            == before.manager.entity(id).has(key),
        !before.manager.entity(id).removed.contains(key) && before.manager.entity(id).has(key)
            ==> after.entity(id).components[key] == before.manager.entity(id).components[key],
{
    assert(left(before, after, id));
}

/// World handle, that will be accessible in system's process.
pub struct WorldHandle<C> {
    /// Whole seconds from the last world tick to this one.
    pub delta_seconds: i64,
    /// Whole milliseconds from the last world tick to this one.
    pub delta_milliseconds: i64,
    /// Entity manager with access to all world's entities.
    pub entity_manager: EntityManager<C>,
}

/// What a world is, as a mathematical value.
pub struct WorldView<C> {
    pub manager: ManagerView<C>,
    pub systems: Seq<RegistrationView>,
    /// Whole seconds from the tick before the last to the last one: what
    /// the world handle shows to the systems.
    pub delta_seconds: i64,
    /// The same span in whole milliseconds.
    pub delta_milliseconds: i64,
}

/// The entities and the systems that work on them.
#[verifier::reject_recursive_types(C)]
pub struct World<C> {
    handle: WorldHandle<C>,
    systems: Vec<(SystemData<C>, SelectedEntities)>,
    update_time: PreciseTime,
}

impl<C> View for World<C> {
    type V = WorldView<C>;

    closed spec fn view(&self) -> WorldView<C> {
        WorldView {
            manager: self.handle.entity_manager@,
            systems: registrations(self.systems@),
            delta_seconds: self.handle.delta_seconds,
            delta_milliseconds: self.handle.delta_milliseconds,
        }
    }
}

impl<C> World<C> {
    pub fn new() -> (world: World<C>)
        ensures
            world@.manager == ManagerView::<C>::empty(),
            world@.systems == Seq::<RegistrationView>::empty(),
            world@.delta_seconds == 0,
            world@.delta_milliseconds == 0,
    {
        let world = World {
            handle: WorldHandle {
                delta_seconds: 0,
                delta_milliseconds: 0,
                entity_manager: EntityManager::with_capacity(3000),
            },
            systems: Vec::new(),
            update_time: PreciseTime::now(),
        };
        assert(world@.systems =~= Seq::<RegistrationView>::empty());
        world
    }

    /// Get entity manager for manipulating with entities. The entities
    /// that were created through an earlier manager are in the store by
    /// now.
    pub fn entity_manager(&mut self) -> (manager: &mut EntityManager<C>)
        ensures
            (*manager)@ == old(self)@.manager.let_in(),
            final(self)@ == (WorldView { manager: (*final(manager))@, ..old(self)@ }),
    {
        self.handle.entity_manager.apply_creation();
        &mut self.handle.entity_manager
    }

    /// Reconciles one entity with every system, in the order of their
    /// registration: the removals that were marked are carried out, then
    /// each system in turn holds the entity against its aspects, takes it
    /// into its sets or out of them, and hears of it with `on_added` or
    /// `on_removed` where its own set changed.
    ///
    /// A hook may change the entity, and the systems after it see what it
    /// left. So what is said of a system is exact as long as no hook was
    /// called before its turn, and for a deleted entity, which belongs
    /// nowhere whatever it holds.
    pub fn refresh_entity(
        e: &mut Entity<C>,
        id: i32,
        systems: &mut Vec<(SystemData<C>, SelectedEntities)>,
        deleted: bool,
    )
        ensures
            final(systems)@.len() == old(systems)@.len(),
            forall|i: int|
                0 <= i < old(systems)@.len() ==> {
                    &&& (#[trigger] registrations(old(systems)@)[i]).reconciles_to(
                        registrations(final(systems)@)[i],
                        id,
                        deleted,
                    )
                    &&& quiet_until(
                        registrations(old(systems)@),
                        i,
                        id,
                        old(e)@.purged().types(),
                        deleted,
                    ) ==> registrations(final(systems)@)[i] == registrations(
                        old(systems)@,
                    )[i].reconciled(id, old(e)@.purged().types(), deleted)
                },
            quiet_until(
                registrations(old(systems)@),
                old(systems)@.len() as int,
                id,
                old(e)@.purged().types(),
                deleted,
            ) ==> final(e)@ == old(e)@.purged(),
    {
        e.purge_removed();
        let ghost types = old(e)@.purged().types();
        let ghost before = registrations(old(systems)@);
        let n = systems.len();
        let mut i: usize = 0;
        while i < n
            invariant
                i <= n,
                n == systems@.len(),
                n == old(systems)@.len(),
                before == registrations(old(systems)@),
                types == old(e)@.purged().types(),
                forall|k: int| i <= k < n ==> systems@[k] == old(systems)@[k],
                forall|k: int|
                    0 <= k < i ==> {
                        &&& (#[trigger] before[k]).reconciles_to(
                            registrations(systems@)[k],
                            id,
                            deleted,
                        )
                        &&& quiet_until(before, k, id, types, deleted) ==> registrations(
                            systems@,
                        )[k] == before[k].reconciled(id, types, deleted)
                    },
                quiet_until(before, i as int, id, types, deleted) ==> e@ == old(e)@.purged(),
            decreases n - i,
        {
            let ghost seen = e@.types();
            let ghost earlier = systems@;
            let record = &mut systems[i];
            let change = record.1.reconcile(&record.0.aspect, &record.0.data_aspects, e, id, deleted);
            match change {
                Membership::Added => {
                    record.0.system.on_added(e);
                },
                Membership::Removed => {
                    record.0.system.on_removed(e);
                },
                Membership::Unchanged => {},
            }
            proof {
                let now = registrations(systems@);
                assert(now[i as int] == before[i as int].reconciled(id, seen, deleted));
                assert forall|k: int| i < k < n implies systems@[k] == old(systems)@[k] by {
                    assert(systems@[k] == earlier[k]);
                }
                assert forall|k: int| 0 <= k < i implies registrations(systems@)[k]
                    == registrations(earlier)[k] by {
                    assert(systems@[k] == earlier[k]);
                }
                if quiet_until(before, i as int, id, types, deleted) {
                    assert(seen == types);
                    if before[i as int].quiet(id, types, deleted) {
                        assert(change == Membership::Unchanged);
                    }
                }
                if quiet_until(before, i + 1, id, types, deleted) {
                    assert(quiet_until(before, i as int, id, types, deleted));
                    assert(before[i as int].quiet(id, types, deleted));
                }
            }
            i = i + 1;
        }
    }

    /// The reconciliation pass: every entity at hand that is not fresh, or
    /// is deleted, is reconciled with every system and then marked fresh,
    /// in the order of the ids; a deleted one leaves the store afterwards.
    ///
    /// Where no entity asks for it, nothing changes. Otherwise the systems
    /// stay registered as they are, no entity comes, every entity that
    /// stays at hand is fresh, and every entity that was deleted is gone:
    /// from the store and from the sets of every system. An entity that
    /// was not due is where it was in every system's sets and is itself as
    /// it was; one that was due is in each set of a system exactly if it
    /// belongs there, as it stood before the pass with its removals carried
    /// out, for every system up to the first whose hook it called, and is
    /// left so, and fresh, where it called no hook.
    pub fn refresh_entities(&mut self)
        ensures
            final(self)@.systems.len() == old(self)@.systems.len(),
            forall|i: int|
                0 <= i < old(self)@.systems.len() ==> {
                    &&& (#[trigger] final(self)@.systems[i]).aspect == old(self)@.systems[i].aspect
                    &&& final(self)@.systems[i].data_aspects == old(self)@.systems[i].data_aspects
                },
            final(self)@.manager.pending == old(self)@.manager.pending,
            final(self)@.manager.last_id == old(self)@.manager.last_id,
            old(self)@.manager.settled() ==> final(self)@ == old(self)@,
            forall|id: i32| #[trigger]
                final(self)@.manager.holds(id) ==> old(self)@.manager.holds(id),
            forall|id: i32| #[trigger]
                final(self)@.manager.available(id) ==> final(self)@.manager.entity(id).fresh,
            forall|id: i32|
                old(self)@.manager.available(id) && old(self)@.manager.entity(id).deleted
                    ==> !(#[trigger] final(self)@.manager.holds(id)),
            forall|id: i32, i: int|
                old(self)@.manager.available(id) && old(self)@.manager.entity(id).deleted && 0 <= i
                    < old(self)@.systems.len() ==> #[trigger] final(self)@.systems[i].selection.misses(
                    id,
                ),
            reconciled_from(old(self)@, final(self)@.systems),
            entities_left(old(self)@, final(self)@.manager),
            final(self)@.delta_seconds == old(self)@.delta_seconds,
            final(self)@.delta_milliseconds == old(self)@.delta_milliseconds,
    {
        let ids = self.handle.entity_manager.entity_ids();
        let mut i: usize = 0;
        let ghost mut done: Set<i32> = Set::empty();
        proof {
            assert forall|k: int| 0 <= k < ids@.len() implies self@.manager.holds(
                #[trigger] ids@[k],
            ) by {
                assert(ids@.contains(ids@[k]));
            }
        }
        while i < ids.len()
            invariant
                i <= ids@.len(),
                forall|a: int, b: int| 0 <= a < b < ids@.len() ==> ids@[a] < ids@[b],
                forall|id: i32| ids@.contains(id) <==> old(self)@.manager.holds(id),
                self.systems@.len() == old(self).systems@.len(),
                forall|k: int|
                    0 <= k < old(self)@.systems.len() ==> {
                        &&& (#[trigger] self@.systems[k]).aspect == old(self)@.systems[k].aspect
                        &&& self@.systems[k].data_aspects == old(self)@.systems[k].data_aspects
                    },
                self@.manager.pending == old(self)@.manager.pending,
                self@.manager.last_id == old(self)@.manager.last_id,
                old(self)@.manager.settled() ==> self@ == old(self)@,
                forall|id: i32| #[trigger] self@.manager.holds(id) ==> old(self)@.manager.holds(id),
                forall|k: int|
                    i <= k < ids@.len() ==> self@.manager.holds(#[trigger] ids@[k])
                        && self@.manager.entities[ids@[k]] == old(self)@.manager.entities[ids@[k]],
                forall|k: int|
                    0 <= k < i && self@.manager.available(#[trigger] ids@[k])
                        ==> self@.manager.entity(ids@[k]).fresh,
                forall|k: int|
                    0 <= k < i && old(self)@.manager.available(#[trigger] ids@[k]) && old(self)@.manager.entity(ids@[k]).deleted ==> !self@.manager.holds(ids@[k]),
                forall|k: int, m: int|
                    0 <= k < i && old(self)@.manager.available(ids@[k]) && old(self)@.manager.entity(ids@[k]).deleted && 0 <= m < old(self)@.systems.len()
                        ==> #[trigger] self@.systems[m].selection.misses(ids@[k]),
                forall|k: int| 0 <= k < i ==> done.contains(#[trigger] ids@[k]),
                forall|k: int| i <= k < ids@.len() ==> !done.contains(#[trigger] ids@[k]),
                forall|x: i32, m: int|
                    !done.contains(x) && 0 <= m < old(self)@.systems.len()
                        ==> #[trigger] self@.systems[m].same_place(old(self)@.systems[m], x),
                forall|x: i32, m: int|
                    done.contains(x) && 0 <= m < old(self)@.systems.len() ==> #[trigger] placed(
                        old(self)@,
                        self@.systems,
                        m,
                        x,
                    ),
                forall|x: i32| done.contains(x) ==> #[trigger] left(old(self)@, self@.manager, x),
                self@.delta_seconds == old(self)@.delta_seconds,
                self@.delta_milliseconds == old(self)@.delta_milliseconds,
            decreases ids@.len() - i,
        {
            let id = ids[i];
            let ghost earlier = self@;
            assert(ids@.contains(id));
            proof {
                assert forall|k: int| 0 <= k < ids@.len() && k != i implies ids@[k] != id by {
                    if k < i {
                        assert(ids@[k] < ids@[i as int]);
                    } else {
                        assert(ids@[i as int] < ids@[k]);
                    }
                }
                assert(!done.contains(id));
                assert(earlier.manager.entities[id] == old(self)@.manager.entities[id]);
            }
            let (dirty, deleted) = match self.handle.entity_manager.entity_ref(id) {
                Some(entity) => (!entity.is_fresh() || entity.is_deleted(), entity.is_deleted()),
                None => (false, false),
            };
            assert(dirty == due(old(self)@.manager, id));
            let ghost types = old(self)@.manager.entity(id).purged().types();
            if dirty {
                match self.handle.entity_manager.entity_mut(id) {
                    Some(entity) => {
                        Self::refresh_entity(entity, id, &mut self.systems, deleted);
                        entity.set_fresh();
                    },
                    None => {},
                }
                let ghost mid = self@;
                proof {
                    assert(mid.manager.available(id) && mid.manager.entity(id).fresh);
                    if !deleted && quiet_until(
                        old(self)@.systems,
                        old(self)@.systems.len() as int,
                        id,
                        types,
                        deleted,
                    ) {
                        assert forall|j: int|
                            0 <= j < earlier.systems.len() implies (
                        #[trigger] earlier.systems[j]).quiet(id, types, deleted) by {
                            assert(old(self)@.systems[j].quiet(id, types, deleted));
                            assert(earlier.systems[j].same_place(old(self)@.systems[j], id));
                        }
                        assert(quiet_until(
                            earlier.systems,
                            earlier.systems.len() as int,
                            id,
                            types,
                            deleted,
                        ));
                        assert(mid.manager.entity(id) == old(self)@.manager.entity(
                            id,
                        ).with_id(id).purged().with_fresh(true));
                    }
                    assert forall|x: i32| x != id implies mid.manager.holds(x)
                        == earlier.manager.holds(x) && mid.manager.entities[x]
                        == earlier.manager.entities[x] by {}
                }
                if deleted {
                    self.handle.entity_manager.purge(id);
                }
                proof {
                    assert forall|k: int| 0 <= k < old(self)@.systems.len() implies {
                        &&& (#[trigger] self@.systems[k]).aspect == old(self)@.systems[k].aspect
                        &&& self@.systems[k].data_aspects == old(self)@.systems[k].data_aspects
                        &&& forall|other: i32|
                            other != id && earlier.systems[k].selection.misses(other)
                                ==> self@.systems[k].selection.misses(other)
                        &&& forall|other: i32|
                            other != id ==> #[trigger] self@.systems[k].same_place(
                                earlier.systems[k],
                                other,
                            )
                        &&& quiet_until(old(self)@.systems, k, id, types, deleted)
                            ==> self@.systems[k].in_place(earlier.systems[k], id, types, deleted)
                        &&& deleted ==> self@.systems[k].selection.misses(id)
                    } by {
                        assert(earlier.systems[k].reconciles_to(self@.systems[k], id, deleted));
                        let seen = choose|seen: Set<TypeKey>|
                            self@.systems[k] == #[trigger] earlier.systems[k].reconciled(
                                id,
                                seen,
                                deleted,
                            );
                        lemma_reconciled_touches_one(earlier.systems[k], id, seen, deleted);
                        if quiet_until(old(self)@.systems, k, id, types, deleted) {
                            assert forall|j: int|
                                0 <= j < k && j < earlier.systems.len() implies (
                            #[trigger] earlier.systems[j]).quiet(id, types, deleted) by {
                                assert(old(self)@.systems[j].quiet(id, types, deleted));
                                assert(earlier.systems[j].same_place(old(self)@.systems[j], id));
                            }
                            assert(quiet_until(earlier.systems, k, id, types, deleted));
                            assert(self@.systems[k] == earlier.systems[k].reconciled(
                                id,
                                types,
                                deleted,
                            ));
                            lemma_reconciled_touches_one(earlier.systems[k], id, types, deleted);
                        }
                    }
                }
            }
            proof {
                let now = self@;
                assert forall|x: i32| x != id implies now.manager.holds(x)
                    == earlier.manager.holds(x) && now.manager.entities[x]
                    == earlier.manager.entities[x] by {}
                assert(now.manager.holds(id) ==> earlier.manager.holds(id));
                assert(now.manager.available(id) ==> now.manager.entity(id).fresh);
                assert forall|x: i32| #[trigger] now.manager.holds(x) implies old(self)@.manager.holds(x) by {
                    if x != id {
                        assert(earlier.manager.holds(x));
                    }
                }
                assert forall|k: int, m: int|
                    0 <= k < i + 1 && old(self)@.manager.available(ids@[k]) && old(self)@.manager.entity(ids@[k]).deleted && 0 <= m < old(self)@.systems.len() implies #[trigger] now.systems[m].selection.misses(
                    ids@[k],
                ) by {
                    if k < i {
                        assert(earlier.systems[m].selection.misses(ids@[k]));
                        assert(ids@[k] != id);
                        if dirty {
                            assert(now.systems[m].aspect == old(self)@.systems[m].aspect);
                        }
                    } else {
                        assert(dirty && deleted);
                        assert(now.systems[m].aspect == old(self)@.systems[m].aspect);
                    }
                }
                assert forall|x: i32, m: int|
                    x != id && 0 <= m < old(self)@.systems.len() implies #[trigger] now.systems[m].same_place(
                    earlier.systems[m],
                    x,
                ) by {
                    if dirty {
                        assert(now.systems[m].aspect == old(self)@.systems[m].aspect);
                    }
                }
                assert forall|x: i32, m: int|
                    !done.insert(id).contains(x) && 0 <= m < old(self)@.systems.len() implies #[trigger] now.systems[m].same_place(
                    old(self)@.systems[m],
                    x,
                ) by {
                    assert(earlier.systems[m].same_place(old(self)@.systems[m], x));
                    assert(now.systems[m].same_place(earlier.systems[m], x));
                    assert(earlier.systems[m].data_aspects == old(self)@.systems[m].data_aspects);
                    lemma_same_place_twice(
                        now.systems[m],
                        earlier.systems[m],
                        old(self)@.systems[m],
                        x,
                    );
                }
                assert forall|x: i32, m: int|
                    done.insert(id).contains(x) && 0 <= m < old(self)@.systems.len() implies #[trigger] placed(
                    old(self)@,
                    now.systems,
                    m,
                    x,
                ) by {
                    assert(earlier.systems[m].aspect == old(self)@.systems[m].aspect);
                    assert(earlier.systems[m].data_aspects == old(self)@.systems[m].data_aspects);
                    if x == id {
                        assert(earlier.systems[m].same_place(old(self)@.systems[m], x));
                        if dirty && quiet_until(old(self)@.systems, m, id, types, deleted) {
                            assert(now.systems[m].aspect == old(self)@.systems[m].aspect);
                            assert(now.systems[m].in_place(earlier.systems[m], id, types, deleted));
                            lemma_in_place_by_aspects(
                                now.systems[m],
                                earlier.systems[m],
                                old(self)@.systems[m],
                                id,
                                types,
                                deleted,
                            );
                        }
                    } else {
                        assert(placed(old(self)@, earlier.systems, m, x));
                        assert(now.systems[m].same_place(earlier.systems[m], x));
                        if due(old(self)@.manager, x) {
                            let entity = old(self)@.manager.entity(x);
                            if quiet_until(
                                old(self)@.systems,
                                m,
                                x,
                                entity.purged().types(),
                                entity.deleted,
                            ) {
                                lemma_in_place_stays(
                                    now.systems[m],
                                    earlier.systems[m],
                                    old(self)@.systems[m],
                                    x,
                                    entity.purged().types(),
                                    entity.deleted,
                                );
                            }
                        } else {
                            lemma_same_place_twice(
                                now.systems[m],
                                earlier.systems[m],
                                old(self)@.systems[m],
                                x,
                            );
                        }
                    }
                }
                assert forall|x: i32| done.insert(id).contains(x) implies #[trigger] left(
                    old(self)@,
                    now.manager,
                    x,
                ) by {
                    if x != id {
                        assert(left(old(self)@, earlier.manager, x));
                        assert(now.manager.holds(x) == earlier.manager.holds(x));
                        assert(now.manager.entities[x] == earlier.manager.entities[x]);
                    }
                }
                done = done.insert(id);
            }
            i = i + 1;
        }
        proof {
            assert forall|id: i32| #[trigger] self@.manager.available(id) implies self@.manager.entity(
                id,
            ).fresh by {
                assert(self@.manager.holds(id));
                assert(ids@.contains(id));
                let k = choose|k: int| 0 <= k < ids@.len() && ids@[k] == id;
                assert(self@.manager.available(ids@[k]));
            }
            assert forall|id: i32|
                old(self)@.manager.available(id) && old(self)@.manager.entity(
                    id,
                ).deleted implies !(#[trigger] self@.manager.holds(id)) by {
                assert(ids@.contains(id));
                let k = choose|k: int| 0 <= k < ids@.len() && ids@[k] == id;
                assert(!self@.manager.holds(ids@[k]));
            }
            assert forall|id: i32, m: int|
                old(self)@.manager.available(id) && old(self)@.manager.entity(id).deleted && 0 <= m
                    < old(self)@.systems.len() implies #[trigger] self@.systems[m].selection.misses(
                id,
            ) by {
                assert(ids@.contains(id));
                let k = choose|k: int| 0 <= k < ids@.len() && ids@[k] == id;
                assert(self@.systems[m].selection.misses(ids@[k]));
            }
            assert forall|x: i32| #[trigger] left(old(self)@, self@.manager, x) by {
                if old(self)@.manager.holds(x) {
                    assert(ids@.contains(x));
                    let k = choose|k: int| 0 <= k < ids@.len() && ids@[k] == x;
                    assert(done.contains(ids@[k]));
                }
            }
            assert forall|x: i32, m: int| 0 <= m < old(self)@.systems.len() implies #[trigger] placed(
                old(self)@,
                self@.systems,
                m,
                x,
            ) by {
                if !done.contains(x) {
                    assert(self@.systems[m].same_place(old(self)@.systems[m], x));
                    if due(old(self)@.manager, x) {
                        assert(old(self)@.manager.holds(x));
                        assert(ids@.contains(x));
                        let k = choose|k: int| 0 <= k < ids@.len() && ids@[k] == x;
                        assert(done.contains(ids@[k]));
                    }
                }
            }
        }
    }

    /// Tells every system that has entities that a frame begins.
    fn begin_frames(&mut self)
        ensures
            final(self)@ == old(self)@,
    {
        let n = self.systems.len();
        let mut i: usize = 0;
        while i < n
            invariant
                n == self.systems@.len(),
                self@ == old(self)@,
            decreases n - i,
        {
            let ghost earlier = self.systems@;
            let record = &mut self.systems[i];
            match record.1.frame_action(&record.0.data_aspects) {
                FrameAction::Idle => {},
                _ => {
                    record.0.system.on_begin_frame();
                },
            }
            proof {
                assert(registrations(self.systems@) =~= registrations(earlier));
            }
            i = i + 1;
        }
    }

    /// Tells every system that has entities that the frame ends.
    fn end_frames(&mut self)
        ensures
            final(self)@ == old(self)@,
    {
        let n = self.systems.len();
        let mut i: usize = 0;
        while i < n
            invariant
                n == self.systems@.len(),
                self@ == old(self)@,
            decreases n - i,
        {
            let ghost earlier = self.systems@;
            let record = &mut self.systems[i];
            match record.1.frame_action(&record.0.data_aspects) {
                FrameAction::Idle => {},
                _ => {
                    record.0.system.on_end_frame();
                },
            }
            proof {
                assert(registrations(self.systems@) =~= registrations(earlier));
            }
            i = i + 1;
        }
    }

    /// For each data set of a system, the ids whose entities are at hand:
    /// those that a data list can borrow. An entity that is lent out, as
    /// the system's own entities are while it processes, is in no data
    /// pack.
    fn data_at_hand(manager: &EntityManager<C>, sets: &Vec<HashSet<i32>>) -> (wanted: Vec<
        HashSet<i32>,
    >)
        ensures
            wanted@.len() == sets@.len(),
            forall|n: int|
                0 <= n < sets@.len() ==> (#[trigger] wanted@[n])@ == at_hand_of(
                    manager@,
                    sets@[n]@,
                ),
            all_at_hand(manager@, wanted@),
    {
        let mut wanted: Vec<HashSet<i32>> = Vec::new();
        let mut n: usize = 0;
        while n < sets.len()
            invariant
                n <= sets@.len(),
                wanted@.len() == n,
                forall|m: int|
                    0 <= m < n ==> (#[trigger] wanted@[m])@ == at_hand_of(manager@, sets@[m]@),
            decreases sets@.len() - n,
        {
            wanted.push(manager.at_hand(&sets[n]));
            n = n + 1;
        }
        wanted
    }

    /// Lets every system that has entities, and every pack of data it
    /// cannot do without, process its entities, in the order of
    /// registration. The entities and the packs are lent to the system for
    /// the call and taken back after it: first the system's own entities,
    /// then, of each data set, those that are still at hand. What the
    /// systems are matched with does not change.
    fn process_systems(&mut self)
        ensures
            final(self)@.systems == old(self)@.systems,
            idle(old(self)@.systems) ==> final(self)@ == old(self)@,
    {
        let n = self.systems.len();
        let mut i: usize = 0;
        while i < n
            invariant
                n == self.systems@.len(),
                self@.systems == old(self)@.systems,
                idle(old(self)@.systems) ==> self@ == old(self)@,
            decreases n - i,
        {
            let ghost earlier = self.systems@;
            let action = self.systems[i].1.frame_action(&self.systems[i].0.data_aspects);
            assert(action == self@.systems[i as int].action());
            match action {
                FrameAction::Process => {
                    let mut batch = self.handle.entity_manager.get_entities_by_ids(
                        &self.systems[i].1.entity_set,
                    );
                    let wanted = Self::data_at_hand(
                        &self.handle.entity_manager,
                        &self.systems[i].1.data_set,
                    );
                    let mut data = DataList::new(&mut self.handle.entity_manager, &wanted);
                    self.systems[i].0.system.process_all(&mut batch, &mut self.handle, &mut data);
                    self.handle.entity_manager.return_entities(batch);
                    data.give_back(&mut self.handle.entity_manager);
                },
                _ => {},
            }
            proof {
                assert(registrations(self.systems@) =~= registrations(earlier));
            }
            i = i + 1;
        }
    }

    /// Add new active system under the aspects given. The entities that
    /// wait enter the store, the system's `on_created` is called once with
    /// the manager, what it created enters the store too, and every entity
    /// is marked so that it is held against the new system at the next
    /// update.
    ///
    /// The system that the record keeps is the one given, as `on_created`
    /// left it. The views do not show the system objects, so this last
    /// point is in no clause.
    pub fn set_system_with_data<S: System<C> + 'static>(
        &mut self,
        system: S,
        aspect: Aspect,
        data_aspects: Vec<Aspect>,
    )
        ensures
            final(self)@.systems == old(self)@.systems.push(
                RegistrationView {
                    aspect,
                    data_aspects: data_aspects@,
                    selection: SelectionView {
                        entities: Set::empty(),
                        data: Seq::new(data_aspects@.len(), |j: int| Set::<i32>::empty()),
                    },
                },
            ),
            exists|s: &mut S, manager: &mut EntityManager<C>|
                {
                    &&& *s == system
                    &&& (*manager)@ == old(self)@.manager.let_in()
                    &&& #[trigger] call_ensures(S::on_created, (s, manager), ())
                    &&& final(self)@.manager == (*final(manager))@.let_in().all_refreshed()
                },
            final(self)@.manager.pending.len() == 0,
            forall|id: i32| #[trigger]
                final(self)@.manager.available(id) ==> !final(self)@.manager.entity(id).fresh,
    {
        let mut system = system;
        self.handle.entity_manager.apply_creation();
        system.on_created(&mut self.handle.entity_manager);
        self.handle.entity_manager.apply_creation();
        let count = data_aspects.len();
        let ghost listed = data_aspects@;
        let record = (
            SystemData::new(Box::new(system), aspect, data_aspects),
            SelectedEntities::new(count),
        );
        self.systems.push(record);
        self.handle.entity_manager.refresh_all();
        proof {
            assert(self@.systems =~= old(self)@.systems.push(
                RegistrationView {
                    aspect,
                    data_aspects: listed,
                    selection: SelectionView {
                        entities: Set::empty(),
                        data: Seq::new(listed.len(), |j: int| Set::<i32>::empty()),
                    },
                },
            ));
        }
    }

    /// Add new active system, under the aspects that it names itself.
    pub fn set_system<S: System<C> + 'static>(&mut self, system: S)
        ensures
            final(self)@.systems.len() == old(self)@.systems.len() + 1,
            final(self)@.systems.drop_last() == old(self)@.systems,
            call_ensures(S::aspect, (&system,), final(self)@.systems.last().aspect),
            exists|listed: Vec<Aspect>|
                #[trigger] call_ensures(S::data_aspects, (&system,), listed) && final(self)@.systems.last().data_aspects == listed@,
            final(self)@.systems.last().selection.entities == Set::<i32>::empty(),
            final(self)@.systems.last().selection.data == Seq::new(
                final(self)@.systems.last().data_aspects.len(),
                |j: int| Set::<i32>::empty(),
            ),
            exists|s: &mut S, manager: &mut EntityManager<C>|
                {
                    &&& *s == system
                    &&& (*manager)@ == old(self)@.manager.let_in()
                    &&& #[trigger] call_ensures(S::on_created, (s, manager), ())
                    &&& final(self)@.manager == (*final(manager))@.let_in().all_refreshed()
                },
            final(self)@.manager.pending.len() == 0,
            forall|id: i32| #[trigger]
                final(self)@.manager.available(id) ==> !final(self)@.manager.entity(id).fresh,
    {
        let aspect = system.aspect();
        let data_aspects = system.data_aspects();
        self.set_system_with_data(system, aspect, data_aspects);
        proof {
            assert(self@.systems.drop_last() =~= old(self)@.systems);
        }
    }

    /// One frame, `seconds` whole seconds and `milliseconds` whole
    /// milliseconds after the frame before: the entities that wait enter the
    /// store, the reconciliation pass runs, and every system that has
    /// entities begins its frame, processes, and ends its frame. All
    /// `on_added` and `on_removed` are called inside this method.
    ///
    /// The systems stay registered as they are, and only the reconciliation
    /// changes what they are matched with: where nothing waits and every
    /// entity is settled, every system is matched with what it was matched
    /// with before. Otherwise every entity is placed as the reconciliation
    /// pass places it, and an entity that was deleted is in no set. What
    /// the hooks of the systems do to the entities is theirs to say: where
    /// no system processes, the handle shows the delta given, and the
    /// entities are as the reconciliation pass leaves them.
    pub fn update_with_delta(&mut self, seconds: i64, milliseconds: i64)
        ensures
            final(self)@.systems.len() == old(self)@.systems.len(),
            forall|i: int|
                0 <= i < old(self)@.systems.len() ==> {
                    &&& (#[trigger] final(self)@.systems[i]).aspect == old(self)@.systems[i].aspect
                    &&& final(self)@.systems[i].data_aspects == old(self)@.systems[i].data_aspects
                },
            old(self)@.manager.pending.len() == 0 && old(self)@.manager.settled() ==> final(self)@.systems == old(self)@.systems,
            reconciled_from(
                WorldView { manager: old(self)@.manager.let_in(), ..old(self)@ },
                final(self)@.systems,
            ),
            forall|id: i32, i: int|
                old(self)@.manager.let_in().available(id) && old(self)@.manager.let_in().entity(
                    id,
                ).deleted && 0 <= i < old(self)@.systems.len() ==> #[trigger] final(self)@.systems[i].selection.misses(id),
            final(self)@.manager.pending.len() == 0,
            idle(final(self)@.systems) ==> {
                &&& final(self)@.delta_seconds == seconds
                &&& final(self)@.delta_milliseconds == milliseconds
                &&& entities_left(
                    WorldView { manager: old(self)@.manager.let_in(), ..old(self)@ },
                    final(self)@.manager,
                )
            },
    {
        self.handle.delta_seconds = seconds;
        self.handle.delta_milliseconds = milliseconds;
        self.handle.entity_manager.apply_creation();
        let ghost entered = self@;
        self.refresh_entities();
        let ghost reconciled = self@;
        self.begin_frames();
        self.process_systems();
        self.end_frames();
        let ghost processed = self@;
        self.handle.entity_manager.apply_creation();
        proof {
            let before = WorldView { manager: old(self)@.manager.let_in(), ..old(self)@ };
            assert(entered.manager == before.manager && entered.systems == before.systems);
            assert forall|id: i32, m: int| 0 <= m < before.systems.len() implies #[trigger] placed(
                before,
                self@.systems,
                m,
                id,
            ) by {
                assert(placed(entered, reconciled.systems, m, id));
            }
            if idle(self@.systems) {
                assert(processed == reconciled);
                crate::manager::lemma_let_in(processed.manager);
                assert forall|id: i32| #[trigger] left(before, self@.manager, id) by {
                    assert(left(entered, reconciled.manager, id));
                }
            }
        }
    }

    /// Tick all systems in world, with the time that has passed since the
    /// last tick as the frame's delta.
    pub fn update(&mut self)
        ensures
            final(self)@.systems.len() == old(self)@.systems.len(),
            forall|i: int|
                0 <= i < old(self)@.systems.len() ==> {
                    &&& (#[trigger] final(self)@.systems[i]).aspect == old(self)@.systems[i].aspect
                    &&& final(self)@.systems[i].data_aspects == old(self)@.systems[i].data_aspects
                },
            old(self)@.manager.pending.len() == 0 && old(self)@.manager.settled() ==> final(self)@.systems == old(self)@.systems,
            reconciled_from(
                WorldView { manager: old(self)@.manager.let_in(), ..old(self)@ },
                final(self)@.systems,
            ),
            forall|id: i32, i: int|
                old(self)@.manager.let_in().available(id) && old(self)@.manager.let_in().entity(
                    id,
                ).deleted && 0 <= i < old(self)@.systems.len() ==> #[trigger] final(self)@.systems[i].selection.misses(id),
            final(self)@.manager.pending.len() == 0,
            idle(final(self)@.systems) ==> {
                &&& final(self)@.delta_seconds >= 0 ==> final(self)@.delta_milliseconds / 1000
                    == final(self)@.delta_seconds
                &&& entities_left(
                    WorldView { manager: old(self)@.manager.let_in(), ..old(self)@ },
                    final(self)@.manager,
                )
            },
    {
        let delta = elapsed_since(&self.update_time);
        let seconds = delta.0;
        let milliseconds = delta.1;
        self.update_time = PreciseTime::now();
        self.update_with_delta(seconds, milliseconds);
    }
}

} // verus!
