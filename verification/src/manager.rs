//! The entity manager: the part of a world that creates, keeps, lends and
//! destroys entities.
//!
//! The entities stand close together in a vector of slots, and an index
//! leads from an id to the slot that holds it. An entity that is handed to
//! a system leaves its slot empty until it is given back: nothing can reach
//! it through the manager in between.

use crate::aspect::Aspect;
use crate::entity::Entity;
use crate::entity::EntityView;
use crate::index::index_entries;
use crate::index::index_get;
use crate::index::index_insert;
use crate::index::index_keys;
use crate::index::index_remove;
use crate::index::index_with_capacity;
use crate::index::key_fits;
use crate::sets::members;
use std::collections::HashSet;
use vec_map::VecMap;
use vstd::prelude::*;

verus! {

/// What an entity manager is, as a mathematical value.
pub struct ManagerView<C> {
    /// The entities of the store, by id. `None` stands for one that is
    /// lent out: its id is taken, the entity itself is elsewhere.
    pub entities: Map<i32, Option<EntityView<C>>>,
    /// The entities that were created and wait to enter the store, each
    /// with the id it will have there, in the order of their creation.
    pub pending: Seq<(i32, EntityView<C>)>,
    /// The largest id given out so far.
    pub last_id: i32,
}

impl<C> ManagerView<C> {
    pub open spec fn empty() -> Self {
        ManagerView { entities: Map::empty(), pending: Seq::empty(), last_id: 0 }
    }

    /// The store has an entity under `id`, lent out or not.
    pub open spec fn holds(self, id: i32) -> bool {
        self.entities.dom().contains(id)
    }

    /// The store has the entity of `id` at hand.
    pub open spec fn available(self, id: i32) -> bool {
        self.entities.dom().contains(id) && self.entities[id] is Some
    }

    /// The entity of `id` is lent out.
    pub open spec fn lent(self, id: i32) -> bool {
        self.entities.dom().contains(id) && self.entities[id] is None
    }

    /// An entity with `id` waits to enter the store.
    pub open spec fn awaits(self, id: i32) -> bool {
        exists|j: int| 0 <= j < self.pending.len() && (#[trigger] self.pending[j]).0 == id
    }

    /// `id` is in use.
    pub open spec fn knows(self, id: i32) -> bool {
        self.holds(id) || self.awaits(id)
    }

    pub open spec fn entity(self, id: i32) -> EntityView<C>
        recommends
            self.available(id),
    {
        self.entities[id].unwrap()
    }

    /// A lookup finds the entity of `id`: it is at hand and not deleted.
    pub open spec fn visible(self, id: i32) -> bool {
        self.available(id) && !self.entity(id).deleted
    }

    /// Every entity at hand is reconciled and none is deleted: the next
    /// reconciliation has nothing to do.
    pub open spec fn settled(self) -> bool {
        forall|id: i32| #[trigger] self.available(id) ==> self.entity(id).settled()
    }

    pub open spec fn with_entity(self, id: i32, entity: EntityView<C>) -> Self {
        ManagerView { entities: self.entities.insert(id, Some(entity)), ..self }
    }

    pub open spec fn with_pending(self, id: i32, entity: EntityView<C>) -> Self {
        ManagerView {
            pending: self.pending.push((id, entity)),
            last_id: if id > self.last_id {
                id
            } else {
                self.last_id
            },
            ..self
        }
    }

    /// The entity of `id` leaves the store for good.
    pub open spec fn without(self, id: i32) -> Self {
        ManagerView { entities: self.entities.remove(id), ..self }
    }

    /// The entity of `id` is handed out, if the store has that id.
    pub open spec fn lend(self, id: i32) -> Self {
        if self.holds(id) {
            ManagerView { entities: self.entities.insert(id, None), ..self }
        } else {
            self
        }
    }

    /// Every entity whose id is in `ids` is handed out.
    pub open spec fn lend_all(self, ids: Set<i32>) -> Self {
        ManagerView {
            entities: Map::new(
                |id: i32| self.entities.dom().contains(id),
                |id: i32|
                    if ids.contains(id) {
                        None
                    } else {
                        self.entities[id]
                    },
            ),
            ..self
        }
    }

    /// `entity` comes back. It is taken where its id is lent out, and
    /// refused otherwise.
    pub open spec fn give_back(self, entity: EntityView<C>) -> Self {
        if self.lent(entity.id) {
            self.with_entity(entity.id, entity)
        } else {
            self
        }
    }

    /// The entities of `batch` come back, from the last to the first.
    pub open spec fn give_back_all(self, batch: Seq<EntityView<C>>) -> Self
        decreases batch.len(),
    {
        if batch.len() == 0 {
            self
        } else {
            self.give_back(batch.last()).give_back_all(batch.drop_last())
        }
    }

    /// Every entity at hand is marked as not refreshed, and carries the id
    /// it is stored under.
    pub open spec fn all_refreshed(self) -> Self {
        ManagerView {
            entities: Map::new(
                |id: i32| self.entities.dom().contains(id),
                |id: i32|
                    match self.entities[id] {
                        Some(entity) => Some(entity.with_id(id).with_fresh(false)),
                        None => None,
                    },
            ),
            ..self
        }
    }

    /// The entities that wait enter the store, each under the id it was
    /// created with, from the last to the first.
    pub open spec fn let_in(self) -> Self
        decreases self.pending.len(),
    {
        if self.pending.len() == 0 {
            self
        } else {
            let (id, entity) = self.pending.last();
            ManagerView {
                entities: self.entities.insert(id, Some(entity.with_id(id))),
                pending: self.pending.drop_last(),
                ..self
            }.let_in()
        }
    }
}

/// When the entities that wait have entered the store, none waits, every
/// id that was in the store is still there, every id that waited is at
/// hand, and no other id has come.
pub proof fn lemma_let_in<C>(manager: ManagerView<C>)
    ensures
        manager.let_in().pending.len() == 0,
        manager.let_in().last_id == manager.last_id,
        manager.pending.len() == 0 ==> manager.let_in() == manager,
        forall|id: i32| #[trigger] manager.let_in().holds(id) <==> manager.knows(id),
        forall|id: i32| manager.awaits(id) ==> #[trigger] manager.let_in().available(id),
        forall|id: i32|
            manager.holds(id) && !manager.awaits(id) ==> #[trigger] manager.let_in().entities[id]
                == manager.entities[id],
    decreases manager.pending.len(),
{
    if manager.pending.len() > 0 {
        let (id, entity) = manager.pending.last();
        let next = ManagerView {
            entities: manager.entities.insert(id, Some(entity.with_id(id))),
            pending: manager.pending.drop_last(),
            ..manager
        };
        lemma_let_in(next);
        assert forall|other: i32| #[trigger]
            manager.let_in().holds(other) <==> manager.knows(other) by {
            if next.awaits(other) {
                let j = choose|j: int|
                    0 <= j < next.pending.len() && (#[trigger] next.pending[j]).0 == other;
                assert(manager.pending[j].0 == other);
            }
            if manager.awaits(other) {
                let j = choose|j: int|
                    0 <= j < manager.pending.len() && (#[trigger] manager.pending[j]).0 == other;
                if j < next.pending.len() {
                    assert(next.pending[j].0 == other);
                }
            }
        }
        assert forall|other: i32| manager.awaits(other) implies #[trigger] manager.let_in().available(
            other,
        ) by {
            let j = choose|j: int|
                0 <= j < manager.pending.len() && (#[trigger] manager.pending[j]).0 == other;
            if j < next.pending.len() {
                assert(next.pending[j].0 == other);
            } else {
                assert(other == id);
                assert(next.holds(id));
                if !next.awaits(id) {
                    assert(next.let_in().entities[id] == next.entities[id]);
                    assert(next.let_in().holds(id));
                }
            }
        }
        assert forall|other: i32|
            manager.holds(other) && !manager.awaits(other) implies #[trigger] manager.let_in().entities[other]
            == manager.entities[other] by {
            assert(manager.pending[manager.pending.len() - 1].0 == id);
            assert(other != id);
            if next.awaits(other) {
                let j = choose|j: int|
                    0 <= j < next.pending.len() && (#[trigger] next.pending[j]).0 == other;
                assert(manager.pending[j].0 == other);
            }
        }
    }
}

/// Where no two of the entities that wait have one id, each of them is in
/// the store afterwards as it waited, under the id it was created with.
pub proof fn lemma_let_in_places<C>(manager: ManagerView<C>)
    requires
        forall|i: int, j: int|
            0 <= i < j < manager.pending.len() ==> (#[trigger] manager.pending[i]).0 != (
            #[trigger] manager.pending[j]).0,
    ensures
        forall|j: int|
            0 <= j < manager.pending.len() ==> manager.let_in().entities[(
            #[trigger] manager.pending[j]).0] == Some(
                manager.pending[j].1.with_id(manager.pending[j].0),
            ),
    decreases manager.pending.len(),
{
    if manager.pending.len() > 0 {
        let (id, entity) = manager.pending.last();
        let next = ManagerView {
            entities: manager.entities.insert(id, Some(entity.with_id(id))),
            pending: manager.pending.drop_last(),
            ..manager
        };
        assert forall|i: int, j: int| 0 <= i < j < next.pending.len() implies (
        #[trigger] next.pending[i]).0 != (#[trigger] next.pending[j]).0 by {
            assert(next.pending[i] == manager.pending[i]);
            assert(next.pending[j] == manager.pending[j]);
        }
        lemma_let_in_places(next);
        lemma_let_in(next);
        assert forall|j: int| 0 <= j < manager.pending.len() implies manager.let_in().entities[(
        #[trigger] manager.pending[j]).0] == Some(
            manager.pending[j].1.with_id(manager.pending[j].0),
        ) by {
            if j < next.pending.len() {
                assert(next.pending[j] == manager.pending[j]);
            } else {
                assert(manager.pending[j] == manager.pending.last());
                if next.awaits(id) {
                    let k = choose|k: int|
                        0 <= k < next.pending.len() && (#[trigger] next.pending[k]).0 == id;
                    assert(manager.pending[k].0 == id);
                }
                assert(next.holds(id) && !next.awaits(id));
                assert(next.let_in().entities[id] == next.entities[id]);
            }
        }
    }
}

/// The ids of the entities at hand in `manager` that satisfy `aspect`.
pub open spec fn selected_by<C>(manager: ManagerView<C>, aspect: Aspect) -> Set<i32> {
    Set::new(|id: i32| manager.available(id) && aspect.accepts(manager.entity(id).types()))
}

/// The ids of `ids` whose entities are at hand in `manager`.
pub open spec fn at_hand_of<C>(manager: ManagerView<C>, ids: Set<i32>) -> Set<i32> {
    Set::new(|id: i32| ids.contains(id) && manager.available(id))
}

/// The views of the entities of a batch.
pub open spec fn views<C>(batch: Seq<Entity<C>>) -> Seq<EntityView<C>> {
    batch.map_values(|entity: Entity<C>| entity@)
}

/// What was lent from `before` for the ids in `ids`: each entity that was
/// at hand under one of the ids, once, as it was in the store.
pub open spec fn handed_out<C>(
    before: ManagerView<C>,
    ids: Set<i32>,
    batch: Seq<EntityView<C>>,
) -> bool {
    &&& forall|k: int|
        0 <= k < batch.len() ==> {
            &&& ids.contains((#[trigger] batch[k]).id)
            &&& before.available(batch[k].id)
            &&& batch[k] == before.entity(batch[k].id).with_id(batch[k].id)
        }
    &&& forall|k: int, l: int|
        0 <= k < l < batch.len() ==> (#[trigger] batch[k]).id != (#[trigger] batch[l]).id
    &&& forall|id: i32|
        ids.contains(id) && #[trigger] before.available(id) ==> exists|k: int|
            0 <= k < batch.len() && (#[trigger] batch[k]).id == id
}

/// A batch that holds what was lent for the ids of `done` holds what was
/// lent for one id more, once the entity of that id is put at its end.
pub proof fn lemma_one_more_handed_out<C>(
    before: ManagerView<C>,
    done: Set<i32>,
    earlier: Seq<EntityView<C>>,
    id: i32,
    entity: EntityView<C>,
)
    requires
        handed_out(before, done, earlier),
        !done.contains(id),
        before.available(id),
        entity == before.entity(id).with_id(id),
    ensures
        handed_out(before, done.insert(id), earlier.push(entity)),
{
    let now = earlier.push(entity);
    assert forall|k: int| 0 <= k < now.len() implies {
        &&& done.insert(id).contains((#[trigger] now[k]).id)
        &&& before.available(now[k].id)
        &&& now[k] == before.entity(now[k].id).with_id(now[k].id)
    } by {
        if k < earlier.len() {
            assert(now[k] == earlier[k]);
        }
    }
    assert forall|k: int, l: int| 0 <= k < l < now.len() implies (#[trigger] now[k]).id != (
    #[trigger] now[l]).id by {
        assert(now[k] == earlier[k]);
        if l < earlier.len() {
            assert(now[l] == earlier[l]);
        }
    }
    assert forall|other: i32|
        done.insert(id).contains(other) && #[trigger] before.available(other) implies exists|k: int|
        0 <= k < now.len() && (#[trigger] now[k]).id == other by {
        if other == id {
            assert(now[now.len() - 1].id == id);
        } else {
            let k = choose|k: int| 0 <= k < earlier.len() && (#[trigger] earlier[k]).id == other;
            assert(now[k] == earlier[k]);
        }
    }
}

/// The state of a manager, without the promise that it is well formed.
///
/// The slots are kept as two vectors of one length: the id of each slot,
/// and the entity in it, which is `None` while the entity is lent out.
/// The entities that wait are kept the same way.
struct Store<C> {
    index: VecMap<usize>,
    ids: Vec<i32>,
    entities: Vec<Option<Entity<C>>>,
    new_ids: Vec<i32>,
    new_entities: Vec<Entity<C>>,
    last_id: i32,
}

impl<C> Store<C> {
    /// The index and the slots fit together: the index leads from each id
    /// to the slot that carries it, and every slot is reached so.
    spec fn linked(self) -> bool {
        let entries = index_entries(self.index);
        &&& self.entities@.len() == self.ids@.len()
        &&& forall|key: usize| #[trigger]
            entries.dom().contains(key) ==> entries[key] < self.ids@.len()
                && self.ids@[entries[key] as int] == key
        &&& forall|p: int|
            0 <= p < self.ids@.len() ==> (#[trigger] self.ids@[p]) >= 0
                && entries.dom().contains(self.ids@[p] as usize)
                && entries[self.ids@[p] as usize] == p
    }

    spec fn wf(self) -> bool {
        &&& self.last_id >= 0
        &&& self.linked()
        &&& self.new_entities@.len() == self.new_ids@.len()
        &&& forall|p: int|
            0 <= p < self.ids@.len() ==> (#[trigger] self.ids@[p]) <= self.last_id && key_fits(
                self.ids@[p] as int,
            )
        &&& forall|j: int|
            0 <= j < self.new_ids@.len() ==> {
                &&& 0 <= (#[trigger] self.new_ids@[j]) <= self.last_id
                &&& key_fits(self.new_ids@[j] as int)
                &&& !index_entries(self.index).dom().contains(self.new_ids@[j] as usize)
            }
        &&& forall|i: int, j: int|
            0 <= i < j < self.new_ids@.len() ==> (#[trigger] self.new_ids@[i]) != (
            #[trigger] self.new_ids@[j])
    }

    spec fn view(self) -> ManagerView<C> {
        let entries = index_entries(self.index);
        ManagerView {
            entities: Map::new(
                |id: i32| id >= 0 && entries.dom().contains(id as usize),
                |id: i32|
                    match self.entities@[entries[id as usize] as int] {
                        Some(entity) => Some(entity@),
                        None => None,
                    },
            ),
            pending: Seq::new(
                self.new_ids@.len(),
                |j: int| (self.new_ids@[j], self.new_entities@[j]@),
            ),
            last_id: self.last_id,
        }
    }

    /// Ids are never negative nor above the last one given out, and no id
    /// is both in the store and waiting.
    proof fn lemma_ids_in_range(self)
        requires
            self.wf(),
        ensures
            forall|id: i32| #[trigger] self.view().knows(id) ==> 0 <= id <= self.last_id,
            forall|id: i32| #[trigger] self.view().awaits(id) ==> !self.view().holds(id),
    {
        assert forall|id: i32| #[trigger] self.view().knows(id) implies 0 <= id <= self.last_id by {
            if self.view().holds(id) {
                let p = index_entries(self.index)[id as usize];
                assert(self.ids@[p as int] == id);
            } else {
                let j = choose|j: int|
                    0 <= j < self.view().pending.len() && (#[trigger] self.view().pending[j]).0
                        == id;
                assert(self.new_ids@[j] == id);
            }
        }
        assert forall|id: i32| #[trigger] self.view().awaits(id) implies !self.view().holds(
            id,
        ) by {
            let j = choose|j: int|
                0 <= j < self.view().pending.len() && (#[trigger] self.view().pending[j]).0 == id;
            assert(self.new_ids@[j] == id);
        }
    }

    fn with_capacity(capacity: usize) -> (store: Self)
        requires
            capacity * 32 <= isize::MAX,
        ensures
            store.wf(),
            store.view() == ManagerView::<C>::empty(),
    {
        let store = Store {
            index: index_with_capacity(capacity),
            ids: Vec::new(),
            entities: Vec::new(),
            new_ids: Vec::new(),
            new_entities: Vec::new(),
            last_id: 0,
        };
        assert(store.view().entities =~= Map::empty());
        assert(store.view().pending =~= Seq::empty());
        store
    }

    fn contains(&self, id: i32) -> (known: bool)
        requires
            self.wf(),
        ensures
            known == self.view().knows(id),
    {
        if id < 0 {
            proof {
                self.lemma_ids_in_range();
            }
            return false;
        }
        if index_get(&self.index, id as usize).is_some() {
            return true;
        }
        let mut j: usize = 0;
        while j < self.new_ids.len()
            invariant
                j <= self.new_ids@.len(),
                forall|k: int| 0 <= k < j ==> (#[trigger] self.new_ids@[k]) != id,
            decreases self.new_ids@.len() - j,
        {
            if self.new_ids[j] == id {
                assert(self.view().pending[j as int].0 == id);
                return true;
            }
            j = j + 1;
        }
        assert(!self.view().awaits(id)) by {
            if self.view().awaits(id) {
                let k = choose|k: int|
                    0 <= k < self.view().pending.len() && (#[trigger] self.view().pending[k]).0
                        == id;
                assert(self.new_ids@[k] == id);
            }
        }
        false
    }

    fn create(&mut self, id: i32)
        requires
            old(self).wf(),
            key_fits(id as int),
            !old(self).view().knows(id),
        ensures
            final(self).wf(),
            final(self).view() == old(self).view().with_pending(id, EntityView::<C>::created(id)),
            final(self).new_entities@.len() == old(self).new_entities@.len() + 1,
    {
        proof {
            assert forall|j: int| 0 <= j < self.new_ids@.len() implies (
            #[trigger] self.new_ids@[j]) != id by {
                assert(self.view().pending[j].0 == self.new_ids@[j]);
            }
        }
        if id > self.last_id {
            self.last_id = id;
        }
        self.new_ids.push(id);
        self.new_entities.push(Entity::new(id));
        assert(self.view().pending =~= old(self).view().pending.push(
            (id, EntityView::<C>::created(id)),
        ));
        assert(self.view().entities =~= old(self).view().entities);
    }

    fn lend(&mut self, id: i32) -> (lent: Option<Entity<C>>)
        requires
            old(self).wf(),
        ensures
            final(self).wf(),
            lent.is_some() == old(self).view().available(id),
            lent.is_some() ==> lent.unwrap()@ == old(self).view().entity(id).with_id(id),
            lent.is_some() ==> final(self).view() == old(self).view().lend(id),
            lent.is_none() ==> final(self).view() == old(self).view(),
    {
        if id < 0 {
            return None;
        }
        match index_get(&self.index, id as usize) {
            None => None,
            Some(p) => {
                let taken = self.entities[p].take();
                assert(self.linked());
                match taken {
                    Some(mut entity) => {
                        entity.set_id(id);
                        assert(self.view().entities =~= old(self).view().entities.insert(
                            id,
                            None,
                        ));
                        Some(entity)
                    },
                    None => {
                        assert(self.view().entities =~= old(self).view().entities);
                        None
                    },
                }
            },
        }
    }

    fn give_back(&mut self, entity: Entity<C>)
        requires
            old(self).wf(),
        ensures
            final(self).wf(),
            final(self).view() == old(self).view().give_back(entity@),
    {
        let id = entity.id();
        if id < 0 {
            return ;
        }
        match index_get(&self.index, id as usize) {
            None => {},
            Some(p) => {
                if self.entities[p].is_none() {
                    self.entities[p] = Some(entity);
                    assert(self.linked());
                    assert(self.view().entities =~= old(self).view().entities.insert(
                        id,
                        Some(entity@),
                    ));
                }
            },
        }
    }

    fn mark_deleted(&mut self, id: i32)
        requires
            old(self).wf(),
            old(self).view().available(id),
        ensures
            final(self).wf(),
            final(self).view() == old(self).view().with_entity(
                id,
                old(self).view().entity(id).with_deleted(),
            ),
    {
        let p = index_get(&self.index, id as usize).unwrap();
        let mut entity = self.entities[p].take().unwrap();
        entity.delete();
        self.entities[p] = Some(entity);
        assert(self.linked());
        assert(self.view().entities =~= old(self).view().entities.insert(
            id,
            Some(old(self).view().entity(id).with_deleted()),
        ));
    }

    fn remove(&mut self, id: i32)
        requires
            old(self).wf(),
        ensures
            final(self).wf(),
            final(self).view() == old(self).view().without(id),
    {
        if id < 0 {
            assert(self.view().entities =~= old(self).view().entities.remove(id));
            return ;
        }
        match index_remove(&mut self.index, id as usize) {
            None => {
                assert(index_entries(self.index) =~= index_entries(old(self).index));
                assert(self.view().entities =~= old(self).view().entities.remove(id));
            },
            Some(p) => {
                let last = self.ids.len() - 1;
                self.ids.swap_remove(p);
                self.entities.swap_remove(p);
                if p < last {
                    let moved = self.ids[p];
                    assert(moved == old(self).ids@[last as int]);
                    index_insert(&mut self.index, moved as usize, p);
                }
                assert(self.linked());
                assert(self.view().entities =~= old(self).view().entities.remove(id));
            },
        }
    }

    fn let_in(&mut self)
        requires
            old(self).wf(),
        ensures
            final(self).wf(),
            final(self).view() == old(self).view().let_in(),
    {
        while self.new_ids.len() > 0
            invariant
                self.wf(),
                self.view().let_in() == old(self).view().let_in(),
            decreases self.new_ids@.len(),
        {
            let ghost before = self.view();
            let id = self.new_ids.pop().unwrap();
            let mut entity = self.new_entities.pop().unwrap();
            entity.set_id(id);
            let position = self.ids.len();
            self.ids.push(id);
            self.entities.push(Some(entity));
            index_insert(&mut self.index, id as usize, position);
            assert(self.linked());
            assert(self.view().pending =~= before.pending.drop_last());
            assert(self.view().entities =~= before.entities.insert(
                id,
                Some(before.pending.last().1.with_id(id)),
            ));
        }
    }

    fn ids(&self) -> (ids: Vec<i32>)
        requires
            self.wf(),
        ensures
            forall|i: int, j: int| 0 <= i < j < ids@.len() ==> ids@[i] < ids@[j],
            forall|id: i32| ids@.contains(id) <==> self.view().holds(id),
    {
        let keys = index_keys(&self.index);
        let mut ids: Vec<i32> = Vec::new();
        let mut i: usize = 0;
        while i < keys.len()
            invariant
                self.wf(),
                i <= keys@.len(),
                ids@.len() == i,
                forall|a: int, b: int| 0 <= a < b < keys@.len() ==> keys@[a] < keys@[b],
                forall|key: usize|
                    keys@.contains(key) <==> index_entries(self.index).dom().contains(key),
                forall|k: int| 0 <= k < i ==> (#[trigger] ids@[k]) >= 0 && ids@[k] as usize == keys@[k],
            decreases keys@.len() - i,
        {
            let key = keys[i];
            assert(keys@.contains(key));
            assert(self.ids@[index_entries(self.index)[key] as int] == key);
            ids.push(key as i32);
            i = i + 1;
        }
        assert forall|id: i32| ids@.contains(id) <==> self.view().holds(id) by {
            if ids@.contains(id) {
                let k = choose|k: int| 0 <= k < ids@.len() && ids@[k] == id;
                assert(keys@.contains(keys@[k]));
            }
            if self.view().holds(id) {
                assert(keys@.contains(id as usize));
                let k = choose|k: int| 0 <= k < keys@.len() && keys@[k] == id as usize;
                assert(ids@[k] == id);
            }
        }
        ids
    }
}

/// Part of the world, manipulating entities.
pub struct EntityManager<C> {
    store: Store<C>,
}

impl<C> View for EntityManager<C> {
    type V = ManagerView<C>;

    closed spec fn view(&self) -> ManagerView<C> {
        self.store.view()
    }
}

impl<C> EntityManager<C> {
    #[verifier::type_invariant]
    spec fn well_formed(self) -> bool {
        self.store.wf()
    }

    /// A manager without entities, with room for `capacity` ids.
    pub fn with_capacity(capacity: usize) -> (manager: Self)
        requires
            capacity * 32 <= isize::MAX,
        ensures
            manager@ == ManagerView::<C>::empty(),
    {
        EntityManager { store: Store::with_capacity(capacity) }
    }

    /// Whether `id` can be the id of an entity: it is not negative, and an
    /// index up to it fits into the memory that the machine can address.
    pub fn id_fits(id: i32) -> (fits: bool)
        ensures
            fits == key_fits(id as int),
    {
        id >= 0 && (id as i128 + 1) * 32 <= isize::MAX as i128
    }

    /// The largest id given out so far.
    pub fn last_id(&self) -> (id: i32)
        ensures
            id == self@.last_id,
            id >= 0,
    {
        proof {
            use_type_invariant(self);
        }
        self.store.last_id
    }

    /// Whether `id` is in use: by an entity of the store, lent out or not,
    /// or by one that waits to enter it.
    pub fn contains_entity(&self, id: i32) -> (known: bool)
        ensures
            known == self@.knows(id),
    {
        proof {
            use_type_invariant(self);
        }
        self.store.contains(id)
    }

    /// Creates an entity with the id that the caller chose. It waits
    /// outside the store until `apply_creation` runs.
    pub fn create_entity_with_id(&mut self, id: i32) -> (entity: &mut Entity<C>)
        requires
            key_fits(id as int),
            !old(self)@.knows(id),
        ensures
            (*entity)@ == EntityView::<C>::created(id),
            final(self)@ == old(self)@.with_pending(id, (*final(entity))@),
    {
        proof {
            use_type_invariant(&*self);
        }
        let mut store = Store::with_capacity(0);
        std::mem::swap(&mut self.store, &mut store);
        store.create(id);
        std::mem::swap(&mut self.store, &mut store);
        let n = self.store.new_entities.len();
        let ghost before = old(self)@;
        assert(self.store.view().pending[n - 1] == (id, EntityView::<C>::created(id)));
        let ghost mid = self.store;
        let entity = &mut self.store.new_entities[n - 1];
        proof {
            let after = after_borrow(*self).store;
            assert(after.new_ids@ == mid.new_ids@);
            assert(after.new_entities@ == mid.new_entities@.update(n - 1, *final(entity)));
            assert(mid.view().pending.len() == before.pending.len() + 1);
            assert forall|j: int| 0 <= j < n - 1 implies after.view().pending[j]
                == before.pending[j] by {
                assert(mid.view().pending[j] == before.pending.push(
                    (id, EntityView::<C>::created(id)),
                )[j]);
            }
            assert(after_borrow(*self)@.pending =~= before.pending.push((id, (*final(entity))@)));
            assert(after_borrow(*self)@.entities =~= before.entities);
        }
        entity
    }

    /// Creates an entity with the next id.
    pub fn create_entity(&mut self) -> (entity: &mut Entity<C>)
        requires
            old(self)@.last_id < i32::MAX,
            key_fits(old(self)@.last_id + 1),
        ensures
            (*entity)@ == EntityView::<C>::created((old(self)@.last_id + 1) as i32),
            final(self)@ == old(self)@.with_pending(
                (old(self)@.last_id + 1) as i32,
                (*final(entity))@,
            ),
    {
        proof {
            use_type_invariant(&*self);
            self.store.lemma_ids_in_range();
        }
        let id = self.store.last_id + 1;
        self.create_entity_with_id(id)
    }

    /// The entity of `id`, unless the store has none at hand or it is
    /// deleted. The entity found carries `id` as its id.
    pub fn try_get_entity(&mut self, id: i32) -> (found: Option<&mut Entity<C>>)
        ensures
            found.is_some() == old(self)@.visible(id),
            found.is_some() ==> (*found.unwrap())@ == old(self)@.entity(id).with_id(id),
            found.is_some() ==> final(self)@ == old(self)@.with_entity(
                id,
                (*final(found.unwrap()))@,
            ),
            found.is_none() ==> final(self)@ == old(self)@,
    {
        let visible = match self.entity_ref(id) {
            Some(entity) => !entity.is_deleted(),
            None => false,
        };
        if visible {
            self.entity_mut(id)
        } else {
            None
        }
    }

    /// The entity of `id`, deleted or not, unless the store has none at
    /// hand. The entity found carries `id` as its id.
    pub fn entity_mut(&mut self, id: i32) -> (found: Option<&mut Entity<C>>)
        ensures
            found.is_some() == old(self)@.available(id),
            found.is_some() ==> (*found.unwrap())@ == old(self)@.entity(id).with_id(id),
            found.is_some() ==> final(self)@ == old(self)@.with_entity(
                id,
                (*final(found.unwrap()))@,
            ),
            found.is_none() ==> final(self)@ == old(self)@,
    {
        proof {
            use_type_invariant(&*self);
        }
        if id < 0 {
            return None;
        }
        match index_get(&self.store.index, id as usize) {
            None => None,
            Some(p) => {
                let ghost before = old(self)@;
                if self.store.entities[p].is_none() {
                    return None;
                }
                match &mut self.store.entities[p] {
                    Some(entity) => {
                        entity.set_id(id);
                        proof {
                            assert(after_borrow(*self)@.entities =~= before.entities.insert(
                                id,
                                Some((*final(entity))@),
                            ));
                        }
                        Some(entity)
                    },
                    None => None,
                }
            },
        }
    }

    /// Reads the entity of `id`, deleted or not, unless the store has none
    /// at hand.
    pub fn entity_ref(&self, id: i32) -> (found: Option<&Entity<C>>)
        ensures
            found.is_some() == self@.available(id),
            found.is_some() ==> (*found.unwrap())@ == self@.entity(id),
    {
        proof {
            use_type_invariant(self);
        }
        if id < 0 {
            return None;
        }
        match index_get(&self.store.index, id as usize) {
            None => None,
            Some(p) => self.store.entities[p].as_ref(),
        }
    }

    /// Marks the entity of `id` as deleted. It leaves the systems and the
    /// store at the next reconciliation.
    pub fn remove_entity(&mut self, id: i32)
        requires
            old(self)@.available(id),
        ensures
            final(self)@ == old(self)@.with_entity(id, old(self)@.entity(id).with_deleted()),
    {
        proof {
            use_type_invariant(&*self);
        }
        let mut store = Store::with_capacity(0);
        std::mem::swap(&mut self.store, &mut store);
        store.mark_deleted(id);
        std::mem::swap(&mut self.store, &mut store);
    }

    /// Lets the entities that were created enter the store: each is at
    /// hand afterwards as it waited, under the id it was created with, and
    /// what was in the store is there as before.
    pub fn apply_creation(&mut self)
        ensures
            final(self)@ == old(self)@.let_in(),
            final(self)@.pending.len() == 0,
            final(self)@.last_id == old(self)@.last_id,
            forall|id: i32| #[trigger] final(self)@.holds(id) <==> old(self)@.knows(id),
            forall|id: i32|
                old(self)@.holds(id) ==> #[trigger] final(self)@.entities[id] == old(self)@.entities[id],
            forall|j: int|
                0 <= j < old(self)@.pending.len() ==> final(self)@.entities[(
                #[trigger] old(self)@.pending[j]).0] == Some(
                    old(self)@.pending[j].1.with_id(old(self)@.pending[j].0),
                ),
    {
        proof {
            use_type_invariant(&*self);
            lemma_let_in(self@);
            self.store.lemma_ids_in_range();
            assert forall|i: int, j: int| 0 <= i < j < self@.pending.len() implies (
            #[trigger] self@.pending[i]).0 != (#[trigger] self@.pending[j]).0 by {
                assert(self.store.new_ids@[i] != self.store.new_ids@[j]);
            }
            lemma_let_in_places(self@);
        }
        let mut store = Store::with_capacity(0);
        std::mem::swap(&mut self.store, &mut store);
        store.let_in();
        std::mem::swap(&mut self.store, &mut store);
    }

    /// The ids of the store, lent out or not, in ascending order.
    pub fn entity_ids(&self) -> (ids: Vec<i32>)
        ensures
            forall|i: int, j: int| 0 <= i < j < ids@.len() ==> ids@[i] < ids@[j],
            forall|id: i32| ids@.contains(id) <==> self@.holds(id),
    {
        proof {
            use_type_invariant(self);
        }
        self.store.ids()
    }

    /// Hands out the entity of `id`: it leaves its slot, which stays
    /// reserved for it, and carries `id` as its id.
    pub fn lend(&mut self, id: i32) -> (lent: Option<Entity<C>>)
        ensures
            lent.is_some() == old(self)@.available(id),
            lent.is_some() ==> lent.unwrap()@ == old(self)@.entity(id).with_id(id),
            lent.is_some() ==> final(self)@ == old(self)@.lend(id),
            lent.is_none() ==> final(self)@ == old(self)@,
    {
        proof {
            use_type_invariant(&*self);
        }
        let mut store = Store::with_capacity(0);
        std::mem::swap(&mut self.store, &mut store);
        let lent = store.lend(id);
        std::mem::swap(&mut self.store, &mut store);
        lent
    }

    /// Takes back an entity that was handed out. One whose id is not lent
    /// out is dropped: it cannot take the place of another entity.
    pub fn give_back(&mut self, entity: Entity<C>)
        ensures
            final(self)@ == old(self)@.give_back(entity@),
    {
        proof {
            use_type_invariant(&*self);
        }
        let mut store = Store::with_capacity(0);
        std::mem::swap(&mut self.store, &mut store);
        store.give_back(entity);
        std::mem::swap(&mut self.store, &mut store);
    }

    /// Takes the entity of `id` out of the store for good, lent out or not.
    pub fn purge(&mut self, id: i32)
        ensures
            final(self)@ == old(self)@.without(id),
    {
        proof {
            use_type_invariant(&*self);
        }
        let mut store = Store::with_capacity(0);
        std::mem::swap(&mut self.store, &mut store);
        store.remove(id);
        std::mem::swap(&mut self.store, &mut store);
    }

    /// Hands out the entities whose ids are in `ids`, as far as the store
    /// has them at hand. Until they are given back the store has their ids
    /// and not the entities.
    pub fn get_entities_by_ids(&mut self, ids: &HashSet<i32>) -> (batch: Vec<Entity<C>>)
        ensures
            handed_out(old(self)@, ids@, views(batch@)),
            final(self)@ == old(self)@.lend_all(ids@),
    {
        broadcast use vstd::std_specs::hash::group_hash_axioms;

        let wanted = members(ids);
        let mut batch: Vec<Entity<C>> = Vec::new();
        let mut i: usize = 0;
        assert(self@.entities =~= old(self)@.lend_all(wanted@.take(0).to_set()).entities);
        while i < wanted.len()
            invariant
                i <= wanted@.len(),
                wanted@.no_duplicates(),
                wanted@.to_set() == ids@,
                handed_out(old(self)@, wanted@.take(i as int).to_set(), views(batch@)),
                self@ == old(self)@.lend_all(wanted@.take(i as int).to_set()),
            decreases wanted@.len() - i,
        {
            let id = wanted[i];
            let ghost before = self@;
            let ghost done = wanted@.take(i as int).to_set();
            let ghost earlier = views(batch@);
            proof {
                assert(wanted@.take(i + 1) =~= wanted@.take(i as int).push(id));
                wanted@.take(i as int).lemma_push_to_set_commute(id);
                assert(!done.contains(id)) by {
                    let pre = wanted@.take(i as int);
                    if done.contains(id) {
                        let j = choose|j: int| 0 <= j < pre.len() && pre[j] == id;
                        assert(wanted@[j] == wanted@[i as int]);
                    }
                }
            }
            match self.lend(id) {
                Some(entity) => {
                    batch.push(entity);
                    proof {
                        assert(views(batch@) =~= earlier.push(entity@));
                        assert(self@.entities =~= old(self)@.lend_all(done.insert(id)).entities);
                        lemma_one_more_handed_out(
                            old(self)@,
                            done,
                            earlier,
                            id,
                            entity@,
                        );
                    }
                },
                None => {
                    proof {
                        assert(self@.entities =~= old(self)@.lend_all(done.insert(id)).entities);
                    }
                },
            }
            i = i + 1;
        }
        assert(wanted@.take(i as int) =~= wanted@);
        batch
    }

    /// Hands out the entities at hand that satisfy `aspect`, in the order
    /// of their ids.
    pub fn get_entities_by_aspect(&mut self, aspect: Aspect) -> (batch: Vec<Entity<C>>)
        ensures
            handed_out(old(self)@, selected_by(old(self)@, aspect), views(batch@)),
            final(self)@ == old(self)@.lend_all(selected_by(old(self)@, aspect)),
            forall|k: int, l: int|
                0 <= k < l < batch@.len() ==> (#[trigger] batch@[k])@.id < (#[trigger] batch@[l])@.id,
    {
        let ids = self.entity_ids();
        let ghost chosen = selected_by(old(self)@, aspect);
        let mut batch: Vec<Entity<C>> = Vec::new();
        let mut i: usize = 0;
        assert(self@.entities =~= old(self)@.lend_all(
            Set::new(|id: i32| chosen.contains(id) && ids@.take(0).contains(id)),
        ).entities);
        while i < ids.len()
            invariant
                i <= ids@.len(),
                chosen == selected_by(old(self)@, aspect),
                forall|a: int, b: int| 0 <= a < b < ids@.len() ==> ids@[a] < ids@[b],
                forall|id: i32| ids@.contains(id) <==> old(self)@.holds(id),
                handed_out(
                    old(self)@,
                    Set::new(|id: i32| chosen.contains(id) && ids@.take(i as int).contains(id)),
                    views(batch@),
                ),
                self@ == old(self)@.lend_all(
                    Set::new(|id: i32| chosen.contains(id) && ids@.take(i as int).contains(id)),
                ),
                forall|k: int, l: int|
                    0 <= k < l < batch@.len() ==> (#[trigger] batch@[k])@.id < (
                    #[trigger] batch@[l])@.id,
                forall|k: int| 0 <= k < batch@.len() && i < ids@.len() ==> (#[trigger] batch@[k])@.id < ids@[i as int],
            decreases ids@.len() - i,
        {
            let id = ids[i];
            let ghost done = Set::new(
                |x: i32| chosen.contains(x) && ids@.take(i as int).contains(x),
            );
            let ghost next = Set::new(
                |x: i32| chosen.contains(x) && ids@.take(i + 1).contains(x),
            );
            let ghost earlier = views(batch@);
            proof {
                assert(ids@.take(i + 1) =~= ids@.take(i as int).push(id));
                assert(!ids@.take(i as int).contains(id)) by {
                    let pre = ids@.take(i as int);
                    if pre.contains(id) {
                        let j = choose|j: int| 0 <= j < pre.len() && pre[j] == id;
                        assert(ids@[j] < ids@[i as int]);
                    }
                }
                let pre = ids@.take(i as int);
                let post = ids@.take(i + 1);
                assert forall|x: i32| next.contains(x) <==> (done.contains(x) || (x == id
                    && chosen.contains(id))) by {
                    if post.contains(x) {
                        let j = choose|j: int| 0 <= j < post.len() && post[j] == x;
                        if j < i {
                            assert(pre[j] == x);
                        }
                    }
                    if pre.contains(x) {
                        let j = choose|j: int| 0 <= j < pre.len() && pre[j] == x;
                        assert(post[j] == x);
                    }
                    if x == id {
                        assert(post[i as int] == id);
                    }
                }
                assert(ids@.contains(id));
            }
            let wanted = match self.entity_ref(id) {
                Some(entity) => aspect.check(entity),
                None => false,
            };
            proof {
                assert(self@.entities[id] == old(self)@.entities[id]);
                assert(wanted == chosen.contains(id));
            }
            if wanted {
                let lent = self.lend(id);
                let entity = lent.unwrap();
                batch.push(entity);
                proof {
                    assert(views(batch@) =~= earlier.push(entity@));
                    assert(next =~= done.insert(id));
                    assert(self@.entities =~= old(self)@.lend_all(next).entities);
                    lemma_one_more_handed_out(old(self)@, done, earlier, id, entity@);
                    assert(views(batch@) == earlier.push(entity@));
                }
            } else {
                proof {
                    assert(next =~= done);
                }
            }
            i = i + 1;
        }
        proof {
            assert(ids@.take(i as int) =~= ids@);
            assert(Set::new(|id: i32| chosen.contains(id) && ids@.contains(id)) =~= chosen);
        }
        batch
    }

    /// Takes back a batch of entities that were handed out, from the last
    /// to the first.
    pub fn return_entities(&mut self, batch: Vec<Entity<C>>)
        ensures
            final(self)@ == old(self)@.give_back_all(views(batch@)),
    {
        let mut rest = batch;
        while rest.len() > 0
            invariant
                self@.give_back_all(views(rest@)) == old(self)@.give_back_all(views(batch@)),
            decreases rest@.len(),
        {
            let ghost before = views(rest@);
            let entity = rest.pop().unwrap();
            proof {
                assert(before.last() == entity@);
                assert(views(rest@) =~= before.drop_last());
            }
            self.give_back(entity);
        }
    }

    /// Marks every entity at hand as not refreshed: the next
    /// reconciliation looks at each of them.
    pub fn refresh_all(&mut self)
        ensures
            final(self)@ == old(self)@.all_refreshed(),
    {
        let ids = self.entity_ids();
        let mut i: usize = 0;
        while i < ids.len()
            invariant
                i <= ids@.len(),
                forall|a: int, b: int| 0 <= a < b < ids@.len() ==> ids@[a] < ids@[b],
                forall|id: i32| ids@.contains(id) <==> old(self)@.holds(id),
                self@.pending == old(self)@.pending,
                self@.last_id == old(self)@.last_id,
                self@.entities.dom() == old(self)@.entities.dom(),
                forall|k: int|
                    0 <= k < i ==> self@.entities[#[trigger] ids@[k]] == old(self)@.all_refreshed().entities[ids@[k]],
                forall|k: int|
                    i <= k < ids@.len() ==> self@.entities[#[trigger] ids@[k]] == old(self)@.entities[ids@[k]],
            decreases ids@.len() - i,
        {
            let id = ids[i];
            let ghost before = self@;
            assert(ids@.contains(id));
            match self.entity_mut(id) {
                Some(entity) => {
                    entity.refresh();
                },
                None => {},
            }
            proof {
                assert(self@.entities.dom() =~= before.entities.dom());
                assert forall|k: int| 0 <= k < ids@.len() && k != i implies self@.entities[ids@[k]]
                    == before.entities[ids@[k]] by {
                    if k < i {
                        assert(ids@[k] < ids@[i as int]);
                    } else {
                        assert(ids@[i as int] < ids@[k]);
                    }
                }
            }
            i = i + 1;
        }
        proof {
            assert forall|id: i32| self@.entities.dom().contains(id) implies self@.entities[id]
                == old(self)@.all_refreshed().entities[id] by {
                assert(ids@.contains(id));
                let k = choose|k: int| 0 <= k < ids@.len() && ids@[k] == id;
                assert(self@.entities[ids@[k]] == old(self)@.all_refreshed().entities[ids@[k]]);
            }
            assert(self@.entities =~= old(self)@.all_refreshed().entities);
        }
    }

    /// The ids of `ids` whose entities are at hand.
    pub fn at_hand(&self, ids: &HashSet<i32>) -> (found: HashSet<i32>)
        ensures
            found@ == at_hand_of(self@, ids@),
    {
        broadcast use vstd::std_specs::hash::group_hash_axioms;

        let asked = members(ids);
        let mut found: HashSet<i32> = HashSet::new();
        let mut i: usize = 0;
        while i < asked.len()
            invariant
                i <= asked@.len(),
                asked@.to_set() == ids@,
                forall|id: i32|
                    found@.contains(id) <==> asked@.take(i as int).contains(id) && self@.available(
                        id,
                    ),
            decreases asked@.len() - i,
        {
            let id = asked[i];
            let ghost before = found@;
            if self.entity_ref(id).is_some() {
                found.insert(id);
            }
            proof {
                let pre = asked@.take(i as int);
                let post = asked@.take(i + 1);
                assert(post =~= pre.push(id));
                assert forall|x: i32|
                    found@.contains(x) <==> post.contains(x) && self@.available(x) by {
                    if post.contains(x) {
                        let j = choose|j: int| 0 <= j < post.len() && post[j] == x;
                        if j < i {
                            assert(pre[j] == x);
                        }
                    }
                    if pre.contains(x) {
                        let j = choose|j: int| 0 <= j < pre.len() && pre[j] == x;
                        assert(post[j] == x);
                    }
                    if x == id {
                        assert(post[i as int] == x);
                    }
                }
            }
            i = i + 1;
        }
        proof {
            assert(asked@.take(i as int) =~= asked@);
            assert forall|id: i32| asked@.contains(id) <==> ids@.contains(id) by {
                assert(asked@.to_set().contains(id) == asked@.contains(id));
            }
            assert(found@ =~= at_hand_of(self@, ids@));
        }
        found
    }
}

} // verus!
