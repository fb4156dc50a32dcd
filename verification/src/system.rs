//! Systems: the behaviour of a world, and the additional entities that a
//! system is handed beside its own.

use crate::aspect::Aspect;
use crate::entity::Entity;
use crate::manager::handed_out;
use crate::manager::views;
use crate::manager::EntityManager;
use crate::manager::ManagerView;
use crate::sets::members;
use crate::world::WorldHandle;
use std::collections::HashMap;
use std::collections::HashSet;
use vstd::prelude::*;

verus! {

/// The ids that one of the first `n` sets of `sets` holds.
pub open spec fn united(sets: Seq<HashSet<i32>>, n: int) -> Set<i32> {
    Set::new(|id: i32| exists|j: int| 0 <= j < n && (#[trigger] sets[j])@.contains(id))
}

/// Every entity whose id is in one of the sets of `sets` is at hand in
/// `manager`.
pub open spec fn all_at_hand<C>(manager: ManagerView<C>, sets: Seq<HashSet<i32>>) -> bool {
    forall|n: int, id: i32|
        0 <= n < sets.len() && (#[trigger] sets[n])@.contains(id) ==> #[trigger] manager.available(
            id,
        )
}

/// List with the additional packs of entities that a system asked for, one
/// pack for each of its data aspects.
///
/// The list holds the entities themselves, lent by the manager, each once,
/// in a pool. A pack is a list of places in the pool, so an entity that
/// several packs ask for is in each of them. The world gives the pool back
/// when the system is done.
pub struct DataList<C> {
    pool: Vec<Entity<C>>,
    data: Vec<Vec<usize>>,
}

impl<C> DataList<C> {
    #[verifier::type_invariant]
    spec fn well_formed(self) -> bool {
        forall|n: int, k: int|
            0 <= n < self.data@.len() && 0 <= k < self.data@[n]@.len() ==> (
            #[trigger] self.data@[n]@[k]) < self.pool@.len()
    }

    /// The entities that the list borrowed, each once.
    pub closed spec fn pool(&self) -> Seq<Entity<C>> {
        self.pool@
    }

    /// For each pack, the places of its entities in the pool.
    pub closed spec fn places(&self) -> Seq<Seq<usize>> {
        self.data@.map_values(|pack: Vec<usize>| pack@)
    }

    /// The packs, in the order of the data aspects.
    pub open spec fn packs(&self) -> Seq<Seq<Entity<C>>> {
        Seq::new(
            self.places().len(),
            |n: int|
                Seq::new(self.places()[n].len(), |k: int| self.pool()[self.places()[n][k] as int]),
        )
    }

    /// The first entity of the first pack.
    pub fn unwrap_entity(&self) -> (entity: &Entity<C>)
        requires
            self.packs().len() > 0,
            self.packs()[0].len() > 0,
        ensures
            *entity == self.packs()[0][0],
    {
        proof {
            use_type_invariant(self);
        }
        &self.pool[self.data[0][0]]
    }

    /// The first entity of the `n`th pack.
    pub fn unwrap_entity_nth(&self, n: usize) -> (entity: &Entity<C>)
        requires
            n < self.packs().len(),
            self.packs()[n as int].len() > 0,
        ensures
            *entity == self.packs()[n as int][0],
    {
        proof {
            use_type_invariant(self);
        }
        &self.pool[self.data[n][0]]
    }

    /// The first entity of the first pack, to change it. Every pack that
    /// holds the entity holds it as changed.
    pub fn unwrap_entity_mut(&mut self) -> (entity: &mut Entity<C>)
        requires
            old(self).packs().len() > 0,
            old(self).packs()[0].len() > 0,
        ensures
            *entity == old(self).packs()[0][0],
            final(self).places() == old(self).places(),
            final(self).pool() == old(self).pool().update(
                old(self).places()[0][0] as int,
                *final(entity),
            ),
    {
        proof {
            use_type_invariant(&*self);
        }
        let at = self.data[0][0];
        &mut self.pool[at]
    }

    /// The `k`th entity of the `n`th pack, to change it. Every pack that
    /// holds the entity holds it as changed.
    pub fn unwrap_mut_nth(&mut self, n: usize, k: usize) -> (entity: &mut Entity<C>)
        requires
            n < old(self).packs().len(),
            k < old(self).packs()[n as int].len(),
        ensures
            *entity == old(self).packs()[n as int][k as int],
            final(self).places() == old(self).places(),
            final(self).pool() == old(self).pool().update(
                old(self).places()[n as int][k as int] as int,
                *final(entity),
            ),
    {
        proof {
            use_type_invariant(&*self);
        }
        let at = self.data[n][k];
        &mut self.pool[at]
    }

    /// The entities of the first pack.
    pub fn unwrap_all(&self) -> (pack: Vec<&Entity<C>>)
        requires
            self.packs().len() > 0,
        ensures
            pack@.len() == self.packs()[0].len(),
            forall|k: int| 0 <= k < pack@.len() ==> *(#[trigger] pack@[k]) == self.packs()[0][k],
    {
        self.unwrap_nth(0)
    }

    /// The entities of the `n`th pack.
    pub fn unwrap_nth(&self, n: usize) -> (pack: Vec<&Entity<C>>)
        requires
            n < self.packs().len(),
        ensures
            pack@.len() == self.packs()[n as int].len(),
            forall|k: int|
                0 <= k < pack@.len() ==> *(#[trigger] pack@[k]) == self.packs()[n as int][k],
    {
        proof {
            use_type_invariant(self);
        }
        let mut pack: Vec<&Entity<C>> = Vec::new();
        let mut k: usize = 0;
        while k < self.data[n].len()
            invariant
                n < self.data@.len(),
                k <= self.data@[n as int]@.len(),
                pack@.len() == k,
                forall|m: int, j: int|
                    0 <= m < self.data@.len() && 0 <= j < self.data@[m]@.len() ==> (
                    #[trigger] self.data@[m]@[j]) < self.pool@.len(),
                forall|j: int|
                    0 <= j < k ==> *(#[trigger] pack@[j]) == self.pool@[self.data@[n as int]@[j] as int],
            decreases self.data@[n as int]@.len() - k,
        {
            pack.push(&self.pool[self.data[n][k]]);
            k = k + 1;
        }
        pack
    }

    /// How many packs there are.
    pub fn len(&self) -> (count: usize)
        ensures
            count == self.packs().len(),
    {
        self.data.len()
    }

    /// How many entities the `n`th pack has.
    pub fn pack_len(&self, n: usize) -> (count: usize)
        requires
            n < self.packs().len(),
        ensures
            count == self.packs()[n as int].len(),
    {
        self.data[n].len()
    }

    /// Borrows from `entity_manager` the entities of every set of ids, each
    /// once, and makes one pack for each set: the pack holds exactly the
    /// entities of its set, as they were in the store. Every id has to be
    /// at hand.
    pub fn new(entity_manager: &mut EntityManager<C>, ids: &Vec<HashSet<i32>>) -> (list: DataList<
        C,
    >)
        requires
            all_at_hand(old(entity_manager)@, ids@),
        ensures
            list.packs().len() == ids@.len(),
            forall|n: int|
                0 <= n < ids@.len() ==> handed_out(
                    old(entity_manager)@,
                    ids@[n]@,
                    views(#[trigger] list.packs()[n]),
                ),
            handed_out(
                old(entity_manager)@,
                united(ids@, ids@.len() as int),
                views(list.pool()),
            ),
            final(entity_manager)@ == old(entity_manager)@.lend_all(united(ids@, ids@.len() as int)),
    {
        broadcast use vstd::std_specs::hash::group_hash_axioms;

        let ghost before = entity_manager@;
        let mut pool: Vec<Entity<C>> = Vec::new();
        let mut places: HashMap<i32, usize> = HashMap::new();
        let mut data: Vec<Vec<usize>> = Vec::new();
        let mut n: usize = 0;
        proof {
            assert(united(ids@, 0) =~= Set::<i32>::empty());
            assert(entity_manager@.entities =~= before.lend_all(places@.dom()).entities);
        }
        while n < ids.len()
            invariant
                n <= ids@.len(),
                data@.len() == n,
                all_at_hand(before, ids@),
                pooled(before, pool@, places@),
                entity_manager@ == before.lend_all(places@.dom()),
                places@.dom() == united(ids@, n as int),
                forall|m: int| 0 <= m < n ==> packed(pool@, (#[trigger] data@[m])@, ids@[m]@),
            decreases ids@.len() - n,
        {
            let wanted = members(&ids[n]);
            let mut pack: Vec<usize> = Vec::new();
            let mut k: usize = 0;
            let ghost earlier = places@.dom();
            while k < wanted.len()
                invariant
                    n < ids@.len(),
                    data@.len() == n,
                    k <= wanted@.len(),
                    pack@.len() == k,
                    wanted@.no_duplicates(),
                    wanted@.to_set() == ids@[n as int]@,
                    all_at_hand(before, ids@),
                    pooled(before, pool@, places@),
                    entity_manager@ == before.lend_all(places@.dom()),
                    earlier == united(ids@, n as int),
                    places@.dom() == earlier.union(wanted@.take(k as int).to_set()),
                    forall|m: int| 0 <= m < n ==> packed(pool@, (#[trigger] data@[m])@, ids@[m]@),
                    forall|j: int|
                        0 <= j < k ==> (#[trigger] pack@[j]) < pool@.len() && pool@[pack@[j] as int]@.id
                            == wanted@[j],
                decreases wanted@.len() - k,
            {
                let id = wanted[k];
                let ghost pool_before = pool@;
                let ghost places_before = places@;
                proof {
                    assert(wanted@.to_set().contains(id));
                    assert(before.available(id));
                }
                let known = match places.get(&id) {
                    Some(at) => Some(*at),
                    None => None,
                };
                let at = match known {
                    Some(at) => at,
                    None => {
                        proof {
                            assert(entity_manager@.available(id));
                        }
                        let lent = entity_manager.lend(id);
                        let entity = lent.unwrap();
                        let at = pool.len();
                        pool.push(entity);
                        places.insert(id, at);
                        proof {
                            assert(entity_manager@.entities =~= before.lend_all(
                                places@.dom(),
                            ).entities);
                            assert forall|p: int| 0 <= p < pool_before.len() implies pool@[p]
                                == pool_before[p] by {}
                        }
                        at
                    },
                };
                pack.push(at);
                proof {
                    assert forall|m: int| 0 <= m < n implies packed(
                        pool@,
                        (#[trigger] data@[m])@,
                        ids@[m]@,
                    ) by {
                        lemma_packed_grows(pool_before, pool@, data@[m]@, ids@[m]@);
                    }
                    assert(wanted@.take(k + 1) =~= wanted@.take(k as int).push(id));
                    wanted@.take(k as int).lemma_push_to_set_commute(id);
                    assert(places@.dom() =~= places_before.dom().insert(id));
                    assert(places@.dom() =~= earlier.union(wanted@.take(k + 1).to_set()));
                }
                k = k + 1;
            }
            data.push(pack);
            proof {
                let done = data@[n as int]@;
                assert(wanted@.take(k as int) =~= wanted@);
                assert forall|x: i32| places@.dom().contains(x) <==> united(
                    ids@,
                    n + 1,
                ).contains(x) by {
                    if united(ids@, n + 1).contains(x) {
                        let j = choose|j: int| 0 <= j < n + 1 && (#[trigger] ids@[j])@.contains(x);
                        if j < n {
                            assert(united(ids@, n as int).contains(x));
                        }
                    }
                    if earlier.contains(x) {
                        let j = choose|j: int| 0 <= j < n && (#[trigger] ids@[j])@.contains(x);
                        assert(ids@[j]@.contains(x));
                    }
                    if ids@[n as int]@.contains(x) {
                        assert(united(ids@, n + 1).contains(x));
                    }
                }
                assert(places@.dom() =~= united(ids@, n + 1));
                assert(packed(pool@, done, ids@[n as int]@)) by {
                    assert forall|id: i32| ids@[n as int]@.contains(id) implies exists|j: int|
                        0 <= j < done.len() && pool@[(#[trigger] done[j]) as int]@.id == id by {
                        assert(wanted@.to_set().contains(id));
                        let i = choose|i: int| 0 <= i < wanted@.len() && wanted@[i] == id;
                        assert(pool@[done[i] as int]@.id == id);
                    }
                    assert forall|j: int| 0 <= j < done.len() implies (#[trigger] done[j])
                        < pool@.len() && ids@[n as int]@.contains(pool@[done[j] as int]@.id) by {
                        assert(wanted@.to_set().contains(wanted@[j]));
                    }
                }
                assert forall|m: int| 0 <= m < n + 1 implies packed(
                    pool@,
                    (#[trigger] data@[m])@,
                    ids@[m]@,
                ) by {}
            }
            n = n + 1;
        }
        let list = DataList { pool, data };
        proof {
            assert(list.packs().len() == ids@.len());
            assert forall|m: int| 0 <= m < ids@.len() implies handed_out(
                before,
                ids@[m]@,
                views(#[trigger] list.packs()[m]),
            ) by {
                lemma_packed_is_handed_out(before, list.pool(), places@, list.places()[m], ids@[m]@);
                assert(views(list.packs()[m]) =~= Seq::new(
                    list.places()[m].len(),
                    |k: int| list.pool()[list.places()[m][k] as int]@,
                ));
            }
            lemma_pool_is_handed_out(before, list.pool(), places@);
        }
        list
    }

    /// Gives every entity of the list back to `entity_manager`, from the
    /// last of the pool to the first.
    pub fn give_back(self, entity_manager: &mut EntityManager<C>)
        ensures
            final(entity_manager)@ == old(entity_manager)@.give_back_all(views(self.pool())),
    {
        entity_manager.return_entities(self.pool);
    }
}

/// The pool holds what was lent from `before` for the ids that `places`
/// knows, each entity once, as it was in the store, and `places` leads from
/// each id to the place of its entity.
pub open spec fn pooled<C>(before: ManagerView<C>, pool: Seq<Entity<C>>, places: Map<i32, usize>) -> bool {
    &&& forall|id: i32| #[trigger]
        places.dom().contains(id) ==> places[id] < pool.len() && pool[places[id] as int]@.id == id
    &&& forall|p: int|
        0 <= p < pool.len() ==> {
            &&& places.dom().contains((#[trigger] pool[p])@.id)
            &&& places[pool[p]@.id] == p
            &&& before.available(pool[p]@.id)
            &&& pool[p]@ == before.entity(pool[p]@.id).with_id(pool[p]@.id)
        }
}

/// The pack `pack` of places in `pool` holds the entities of the ids of
/// `ids`: each of them, once, and no other.
pub open spec fn packed<C>(pool: Seq<Entity<C>>, pack: Seq<usize>, ids: Set<i32>) -> bool {
    &&& forall|j: int|
        0 <= j < pack.len() ==> (#[trigger] pack[j]) < pool.len() && ids.contains(
            pool[pack[j] as int]@.id,
        )
    &&& forall|j: int, l: int|
        0 <= j < l < pack.len() ==> pool[(#[trigger] pack[j]) as int]@.id != pool[(
        #[trigger] pack[l]) as int]@.id
    &&& forall|id: i32|
        ids.contains(id) ==> exists|j: int|
            0 <= j < pack.len() && pool[(#[trigger] pack[j]) as int]@.id == id
}

/// A pack stays a pack of its ids when the pool grows at its end.
pub proof fn lemma_packed_grows<C>(
    earlier: Seq<Entity<C>>,
    now: Seq<Entity<C>>,
    pack: Seq<usize>,
    ids: Set<i32>,
)
    requires
        packed(earlier, pack, ids),
        earlier.len() <= now.len(),
        forall|p: int| 0 <= p < earlier.len() ==> now[p] == earlier[p],
    ensures
        packed(now, pack, ids),
{
    assert forall|id: i32| ids.contains(id) implies exists|j: int|
        0 <= j < pack.len() && now[(#[trigger] pack[j]) as int]@.id == id by {
        let j = choose|j: int| 0 <= j < pack.len() && earlier[(#[trigger] pack[j]) as int]@.id == id;
        assert(now[pack[j] as int] == earlier[pack[j] as int]);
    }
}

/// The entities at the places of a pack are what was lent for the ids of
/// the pack.
pub proof fn lemma_packed_is_handed_out<C>(
    before: ManagerView<C>,
    pool: Seq<Entity<C>>,
    places: Map<i32, usize>,
    pack: Seq<usize>,
    ids: Set<i32>,
)
    requires
        pooled(before, pool, places),
        packed(pool, pack, ids),
    ensures
        handed_out(before, ids, Seq::new(pack.len(), |k: int| pool[pack[k] as int]@)),
{
    let batch = Seq::new(pack.len(), |k: int| pool[pack[k] as int]@);
    assert forall|k: int| 0 <= k < batch.len() implies {
        &&& ids.contains((#[trigger] batch[k]).id)
        &&& before.available(batch[k].id)
        &&& batch[k] == before.entity(batch[k].id).with_id(batch[k].id)
    } by {
        assert(pack[k] < pool.len());
        assert(pool[pack[k] as int]@ == batch[k]);
    }
    assert forall|k: int, l: int| 0 <= k < l < batch.len() implies (#[trigger] batch[k]).id != (
    #[trigger] batch[l]).id by {
        assert(pool[pack[k] as int]@ == batch[k]);
        assert(pool[pack[l] as int]@ == batch[l]);
    }
    assert forall|id: i32| ids.contains(id) && #[trigger] before.available(id) implies exists|
        k: int,
    |
        0 <= k < batch.len() && (#[trigger] batch[k]).id == id by {
        let j = choose|j: int| 0 <= j < pack.len() && pool[(#[trigger] pack[j]) as int]@.id == id;
        assert(batch[j].id == id);
    }
}

/// The pool is what was lent for the ids that `places` knows.
pub proof fn lemma_pool_is_handed_out<C>(
    before: ManagerView<C>,
    pool: Seq<Entity<C>>,
    places: Map<i32, usize>,
)
    requires
        pooled(before, pool, places),
    ensures
        handed_out(before, places.dom(), views(pool)),
{
    let batch = views(pool);
    assert forall|k: int| 0 <= k < batch.len() implies {
        &&& places.dom().contains((#[trigger] batch[k]).id)
        &&& before.available(batch[k].id)
        &&& batch[k] == before.entity(batch[k].id).with_id(batch[k].id)
    } by {
        assert(batch[k] == pool[k]@);
    }
    assert forall|k: int, l: int| 0 <= k < l < batch.len() implies (#[trigger] batch[k]).id != (
    #[trigger] batch[l]).id by {
        assert(batch[k] == pool[k]@);
        assert(batch[l] == pool[l]@);
    }
    assert forall|id: i32|
        places.dom().contains(id) && #[trigger] before.available(id) implies exists|k: int|
        0 <= k < batch.len() && (#[trigger] batch[k]).id == id by {
        assert(batch[places[id] as int] == pool[places[id] as int]@);
    }
}

/// Marks the `i`th entity of a batch as the one that a statement speaks of.
/// It holds of every batch and every `i`.
pub open spec fn at_start<C>(batch: Seq<Entity<C>>, i: int) -> bool {
    true
}

/// System traits
///
/// You can implement one of those processes, but if you implement
/// `process_all`, only it will be called, and if you don't, all `process_*`
/// will be called, for each entity in turn.
///
/// Most common case: implement only `process_one`.
pub trait System<C> {
    /// The system subscribes to the entities that satisfy this aspect.
    fn aspect(&self) -> Aspect;

    /// For each returned aspect, one additional pack of entities will be
    /// received in the `DataList`.
    fn data_aspects(&self) -> (aspects: Vec<Aspect>)
        default_ensures
            aspects@ == Seq::<Aspect>::empty(),
    {
        Vec::new()
    }

    fn on_created(&mut self, _entity_manager: &mut EntityManager<C>) {
    }

    fn on_begin_frame(&mut self) {
    }

    fn on_added(&mut self, _entity: &mut Entity<C>) {
    }

    fn on_removed(&self, _entity: &mut Entity<C>) {
    }

    fn on_end_frame(&mut self) {
    }

    fn process_w(&mut self, _entity: &mut Entity<C>, _world: &mut WorldHandle<C>) {
    }

    fn process_d(&mut self, _entity: &mut Entity<C>, _data: &mut DataList<C>) {
    }

    fn process_wd(
        &mut self,
        _entity: &mut Entity<C>,
        _world: &mut WorldHandle<C>,
        _data: &mut DataList<C>,
    ) {
    }

    fn process_one(&mut self, _entity: &mut Entity<C>) {
    }

    /// Works on the entities of one frame. They are lent to the system:
    /// each holds its id, and the world takes back those that are still in
    /// `entities` when the call returns.
    ///
    /// Unless a system has its own way, every entity of the batch, in the
    /// order of the batch, goes through `process_one`, `process_w`,
    /// `process_d` and `process_wd`, in that order, once, each hook taking
    /// the entity as the hook before left it.
    fn process_all(
        &mut self,
        entities: &mut Vec<Entity<C>>,
        world: &mut WorldHandle<C>,
        data: &mut DataList<C>,
    )
        default_ensures
            final(entities)@.len() == old(entities)@.len(),
            forall|i: int|
                0 <= i < old(entities)@.len() ==> (#[trigger] at_start(old(entities)@, i)) ==> exists|
                    s1: &mut Self,
                    e1: &mut Entity<C>,
                    s2: &mut Self,
                    e2: &mut Entity<C>,
                    w2: &mut WorldHandle<C>,
                    s3: &mut Self,
                    e3: &mut Entity<C>,
                    d3: &mut DataList<C>,
                    s4: &mut Self,
                    e4: &mut Entity<C>,
                    w4: &mut WorldHandle<C>,
                    d4: &mut DataList<C>,
                |
                    {
                        &&& *e1 == old(entities)@[i]
                        &&& #[trigger] call_ensures(Self::process_one, (s1, e1), ())
                        &&& *e2 == *final(e1)
                        &&& #[trigger] call_ensures(Self::process_w, (s2, e2, w2), ())
                        &&& *e3 == *final(e2)
                        &&& #[trigger] call_ensures(Self::process_d, (s3, e3, d3), ())
                        &&& *e4 == *final(e3)
                        &&& #[trigger] call_ensures(Self::process_wd, (s4, e4, w4, d4), ())
                        &&& final(entities)@[i] == *final(e4)
                    },
    {
        let mut i: usize = 0;
        while i < entities.len()
            invariant
                i <= entities@.len(),
                entities@.len() == old(entities)@.len(),
                forall|k: int| i <= k < entities@.len() ==> entities@[k] == old(entities)@[k],
                forall|k: int|
                    0 <= k < i ==> (#[trigger] at_start(old(entities)@, k)) ==> exists|
                    s1: &mut Self,
                    e1: &mut Entity<C>,
                    s2: &mut Self,
                    e2: &mut Entity<C>,
                    w2: &mut WorldHandle<C>,
                    s3: &mut Self,
                    e3: &mut Entity<C>,
                    d3: &mut DataList<C>,
                    s4: &mut Self,
                    e4: &mut Entity<C>,
                    w4: &mut WorldHandle<C>,
                    d4: &mut DataList<C>,
                |
                    {
                        &&& *e1 == old(entities)@[k]
                        &&& #[trigger] call_ensures(Self::process_one, (s1, e1), ())
                        &&& *e2 == *final(e1)
                        &&& #[trigger] call_ensures(Self::process_w, (s2, e2, w2), ())
                        &&& *e3 == *final(e2)
                        &&& #[trigger] call_ensures(Self::process_d, (s3, e3, d3), ())
                        &&& *e4 == *final(e3)
                        &&& #[trigger] call_ensures(Self::process_wd, (s4, e4, w4, d4), ())
                        &&& entities@[k] == *final(e4)
                    },
            decreases entities.len() - i,
        {
            let ghost earlier = entities@;
            self.process_one(&mut entities[i]);
            self.process_w(&mut entities[i], world);
            self.process_d(&mut entities[i], data);
            self.process_wd(&mut entities[i], world, data);
            proof {
                assert forall|k: int| 0 <= k < entities@.len() && k != i implies entities@[k]
                    == earlier[k] by {}
            }
            i = i + 1;
        }
    }
}

} // verus!
