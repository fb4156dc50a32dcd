use std::cell::Cell;
use std::cell::RefCell;
use std::collections::HashSet;
use std::rc::Rc;
use tinyecs::Aspect;
use tinyecs::DataList;
use tinyecs::Entity;
use tinyecs::EntityManager;
use tinyecs::FrameAction;
use tinyecs::Membership;
use tinyecs::SelectedEntities;
use tinyecs::System;
use tinyecs::SystemData;
use tinyecs::World;
use tinyecs::WorldHandle;

const A: u64 = 1;
const B: u64 = 2;
const CAMERA: u64 = 3;

type Log = Rc<RefCell<Vec<String>>>;

fn log() -> Log {
    Rc::new(RefCell::new(Vec::new()))
}

fn taken(log: &Log) -> Vec<String> {
    log.borrow_mut().drain(..).collect()
}

/// Writes down every call it gets, with the ids of the entities.
struct Recorder {
    name: &'static str,
    aspect: fn() -> Aspect,
    data: fn() -> Vec<Aspect>,
    log: Log,
}

impl Recorder {
    fn new(name: &'static str, aspect: fn() -> Aspect, log: &Log) -> Recorder {
        Recorder { name, aspect, data: Vec::new, log: log.clone() }
    }

    fn note(&self, what: &str) {
        self.log.borrow_mut().push(format!("{} {}", self.name, what));
    }
}

impl System<u8> for Recorder {
    fn aspect(&self) -> Aspect {
        (self.aspect)()
    }

    fn data_aspects(&self) -> Vec<Aspect> {
        (self.data)()
    }

    fn on_begin_frame(&mut self) {
        self.note("begin");
    }

    fn on_added(&mut self, entity: &mut Entity<u8>) {
        self.note(&format!("added {}", entity.id()));
    }

    fn on_removed(&self, entity: &mut Entity<u8>) {
        self.note(&format!("removed {}", entity.id()));
    }

    fn on_end_frame(&mut self) {
        self.note("end");
    }

    fn process_all(
        &mut self,
        entities: &mut Vec<Entity<u8>>,
        _world: &mut WorldHandle<u8>,
        data: &mut DataList<u8>,
    ) {
        let mut ids: Vec<i32> = entities.iter().map(|e| e.id()).collect();
        ids.sort();
        let mut packs = Vec::new();
        for n in 0..data.len() {
            let mut pack: Vec<i32> = data.unwrap_nth(n).iter().map(|e| e.id()).collect();
            pack.sort();
            packs.push(pack);
        }
        self.note(&format!("process {:?} {:?}", ids, packs));
    }
}

fn spawn(world: &mut World<u8>, keys: &[u64]) -> i32 {
    let manager = world.entity_manager();
    let e = manager.create_entity();
    for key in keys {
        e.add_component(*key, 0);
    }
    e.refresh();
    e.id()
}

#[test]
fn refresh_entity_fires_on_added_once() {
    let added = log();
    let system = Recorder::new("s", || Aspect::all(A), &added);
    let aspect = system.aspect();
    let mut systems =
        vec![(SystemData::new(Box::new(system), aspect, Vec::new()), SelectedEntities::new(0))];
    let mut e: Entity<u8> = Entity::new(3);
    e.add_component(A, 7);
    World::<u8>::refresh_entity(&mut e, 3, &mut systems, false);
    World::<u8>::refresh_entity(&mut e, 3, &mut systems, false);
    assert_eq!(taken(&added), vec!["s added 3"]);
    assert!(systems[0].1.entity_set.contains(&3));
    World::<u8>::refresh_entity(&mut e, 3, &mut systems, true);
    assert_eq!(taken(&added), vec!["s removed 3"]);
    assert!(systems[0].1.entity_set.is_empty());
}

#[test]
fn refresh_entity_purges_before_it_decides() {
    let calls = log();
    let system = Recorder::new("s", || Aspect::all(A), &calls);
    let mut systems = vec![(
        SystemData::new(Box::new(system), Aspect::all(A), vec![Aspect::all(B)]),
        SelectedEntities::new(0),
    )];
    let mut e: Entity<u8> = Entity::new(1);
    e.add_component(A, 0);
    e.add_component(B, 0);
    e.remove_component(A);
    World::<u8>::refresh_entity(&mut e, 1, &mut systems, false);
    assert!(taken(&calls).is_empty());
    assert!(!e.has_component(A));
    assert!(systems[0].1.entity_set.is_empty());
    assert_eq!(systems[0].1.data_set.len(), 1);
    assert!(systems[0].1.data_set[0].contains(&1));
}

#[test]
fn reconcile_reports_what_changed() {
    let mut selected = SelectedEntities::new(1);
    let aspect = Aspect::all(A);
    let data = vec![Aspect::all(B), Aspect::all2(A, B)];
    let mut e: Entity<u8> = Entity::new(4);
    e.add_component(A, 0);
    assert_eq!(selected.reconcile(&aspect, &data, &e, 4, false), Membership::Added);
    assert_eq!(selected.reconcile(&aspect, &data, &e, 4, false), Membership::Unchanged);
    assert!(selected.entity_set.contains(&4));
    assert_eq!(selected.data_set.len(), 2);
    assert!(selected.data_set[0].is_empty());
    assert!(selected.data_set[1].is_empty());
    e.add_component(B, 0);
    assert_eq!(selected.reconcile(&aspect, &data, &e, 4, false), Membership::Unchanged);
    assert!(selected.data_set[0].contains(&4));
    assert!(selected.data_set[1].contains(&4));
    let mut other: Entity<u8> = Entity::new(5);
    other.add_component(B, 0);
    assert_eq!(selected.reconcile(&aspect, &data, &other, 5, false), Membership::Unchanged);
    assert_eq!(selected.entity_set, [4].into_iter().collect::<HashSet<i32>>());
    assert_eq!(selected.data_set[0], [4, 5].into_iter().collect::<HashSet<i32>>());
    assert_eq!(selected.data_set[1], [4].into_iter().collect::<HashSet<i32>>());
    assert_eq!(selected.reconcile(&aspect, &data, &e, 4, true), Membership::Removed);
    assert_eq!(selected.reconcile(&aspect, &data, &e, 4, true), Membership::Unchanged);
    assert!(selected.entity_set.is_empty());
    assert_eq!(selected.data_set[0], [5].into_iter().collect::<HashSet<i32>>());
    assert!(selected.data_set[1].is_empty());
    assert_eq!(selected.reconcile(&aspect, &Vec::new(), &e, 4, false), Membership::Added);
    assert!(selected.data_set.is_empty());
}

#[test]
fn frame_action_follows_the_sets() {
    let mut selected = SelectedEntities::new(2);
    let mandatory = vec![Aspect::all(A), Aspect::all(B)];
    let one_optional = vec![Aspect::all(A), Aspect::all(B).optional()];
    assert_eq!(selected.frame_action(&mandatory), FrameAction::Idle);
    assert_eq!(selected.frame_action(&Vec::new()), FrameAction::Idle);
    selected.entity_set.insert(1);
    assert_eq!(selected.frame_action(&Vec::new()), FrameAction::Process);
    assert_eq!(selected.frame_action(&mandatory), FrameAction::Skip);
    selected.data_set[0].insert(7);
    assert_eq!(selected.frame_action(&mandatory), FrameAction::Skip);
    assert_eq!(selected.frame_action(&one_optional), FrameAction::Process);
    selected.data_set[1].insert(8);
    assert_eq!(selected.frame_action(&mandatory), FrameAction::Process);
    selected.data_set.pop();
    assert_eq!(selected.frame_action(&mandatory), FrameAction::Skip);
    assert_eq!(selected.frame_action(&one_optional), FrameAction::Process);
}

#[test]
fn an_entity_with_the_required_components_is_matched_once() {
    let calls = log();
    let mut world: World<u8> = World::new();
    world.set_system(Recorder::new("s", || Aspect::all2(A, B), &calls));
    let id = spawn(&mut world, &[A, B]);
    assert_eq!(id, 1);
    world.update();
    assert_eq!(taken(&calls), vec!["s added 1", "s begin", "s process [1] []", "s end"]);
}

#[test]
fn a_second_update_without_changes_calls_no_hook() {
    let calls = log();
    let mut world: World<u8> = World::new();
    world.set_system(Recorder::new("s", || Aspect::all(A), &calls));
    spawn(&mut world, &[A]);
    spawn(&mut world, &[B]);
    world.update();
    assert_eq!(taken(&calls), vec!["s added 1", "s begin", "s process [1] []", "s end"]);
    world.update();
    assert_eq!(taken(&calls), vec!["s begin", "s process [1] []", "s end"]);
    world.update_with_delta(0, 16);
    assert_eq!(taken(&calls), vec!["s begin", "s process [1] []", "s end"]);
}

#[test]
fn an_entity_is_not_seen_before_it_is_refreshed() {
    let calls = log();
    let mut world: World<u8> = World::new();
    world.set_system(Recorder::new("s", || Aspect::all2(A, B), &calls));
    let id = spawn(&mut world, &[A]);
    world.update();
    assert!(taken(&calls).is_empty());
    world.entity_manager().try_get_entity(id).unwrap().add_component(B, 0);
    world.update();
    assert!(taken(&calls).is_empty());
    world.entity_manager().try_get_entity(id).unwrap().refresh();
    world.update();
    assert_eq!(taken(&calls), vec!["s added 1", "s begin", "s process [1] []", "s end"]);
}

#[test]
fn a_removed_component_is_gone_after_the_next_update() {
    let calls = log();
    let mut world: World<u8> = World::new();
    world.set_system(Recorder::new("s", || Aspect::all(A), &calls));
    let id = spawn(&mut world, &[A]);
    world.update();
    taken(&calls);
    {
        let e = world.entity_manager().try_get_entity(id).unwrap();
        e.remove_component(A);
        e.refresh();
        let guard = e.get_component(A);
        e.release(guard);
        assert!(e.has_component(A));
    }
    world.update();
    assert_eq!(taken(&calls), vec!["s removed 1"]);
    assert!(!world.entity_manager().try_get_entity(id).unwrap().has_component(A));
}

#[test]
fn a_deleted_entity_leaves_the_systems_and_the_world() {
    let calls = log();
    let mut world: World<u8> = World::new();
    world.set_system(Recorder::new("s", || Aspect::all(A), &calls));
    world.set_system(Recorder::new("t", || Aspect::all(B), &calls));
    let first = spawn(&mut world, &[A]);
    let second = spawn(&mut world, &[A, B]);
    world.update();
    taken(&calls);
    world.entity_manager().remove_entity(second);
    assert!(world.entity_manager().try_get_entity(second).is_none());
    assert!(world.entity_manager().contains_entity(second));
    world.update();
    assert_eq!(
        taken(&calls),
        vec!["s removed 2", "t removed 2", "s begin", "s process [1] []", "s end"]
    );
    assert!(!world.entity_manager().contains_entity(second));
    assert!(world.entity_manager().try_get_entity(first).is_some());
    assert_eq!(world.entity_manager().entity_ids(), vec![first]);
}

#[test]
fn systems_run_in_the_order_of_registration() {
    let calls = log();
    let mut world: World<u8> = World::new();
    world.set_system(Recorder::new("first", || Aspect::all(A), &calls));
    world.set_system(Recorder::new("second", || Aspect::all(A), &calls));
    spawn(&mut world, &[A]);
    world.update();
    assert_eq!(
        taken(&calls),
        vec![
            "first added 1",
            "second added 1",
            "first begin",
            "second begin",
            "first process [1] []",
            "second process [1] []",
            "first end",
            "second end",
        ]
    );
}

#[test]
fn a_new_system_is_held_against_the_entities_that_are_there() {
    let calls = log();
    let mut world: World<u8> = World::new();
    spawn(&mut world, &[A]);
    world.update();
    assert!(world.entity_manager().try_get_entity(1).unwrap().is_fresh());
    world.set_system(Recorder::new("late", || Aspect::all(A), &calls));
    assert!(!world.entity_manager().try_get_entity(1).unwrap().is_fresh());
    world.update();
    assert_eq!(taken(&calls), vec!["late added 1", "late begin", "late process [1] []", "late end"]);
}

#[test]
fn set_system_with_data_takes_the_aspects_given() {
    let calls = log();
    let mut world: World<u8> = World::new();
    world.set_system_with_data(
        Recorder::new("s", || Aspect::all(CAMERA), &calls),
        Aspect::all(A),
        vec![Aspect::all(B)],
    );
    spawn(&mut world, &[A]);
    spawn(&mut world, &[B]);
    spawn(&mut world, &[CAMERA]);
    world.update();
    assert_eq!(taken(&calls), vec!["s added 1", "s begin", "s process [1] [[2]]", "s end"]);
}

#[test]
fn a_system_waits_for_the_data_it_cannot_do_without() {
    let calls = log();
    let mut world: World<u8> = World::new();
    let mut system = Recorder::new("s", || Aspect::all(A), &calls);
    system.data = || vec![Aspect::all(CAMERA)];
    world.set_system(system);
    spawn(&mut world, &[A]);
    world.update();
    assert_eq!(taken(&calls), vec!["s added 1", "s begin", "s end"]);
    world.update();
    assert_eq!(taken(&calls), vec!["s begin", "s end"]);
    let camera = spawn(&mut world, &[CAMERA]);
    world.update();
    assert_eq!(taken(&calls), vec!["s begin", "s process [1] [[2]]", "s end"]);
    world.entity_manager().remove_entity(camera);
    world.update();
    assert_eq!(taken(&calls), vec!["s begin", "s end"]);
}

#[test]
fn optional_data_may_be_missing() {
    let calls = log();
    let mut world: World<u8> = World::new();
    let mut system = Recorder::new("s", || Aspect::all(A), &calls);
    system.data = || vec![Aspect::all(CAMERA).optional(), Aspect::all(B)];
    world.set_system(system);
    spawn(&mut world, &[A]);
    spawn(&mut world, &[B]);
    world.update();
    assert_eq!(taken(&calls), vec!["s added 1", "s begin", "s process [1] [[], [2]]", "s end"]);
}

#[test]
fn a_data_pack_holds_what_is_at_hand_of_its_set() {
    let calls = log();
    let mut world: World<u8> = World::new();
    let mut system = Recorder::new("s", || Aspect::all(A), &calls);
    system.data = || vec![Aspect::all(A), Aspect::all(B), Aspect::all(B)];
    world.set_system(system);
    spawn(&mut world, &[A]);
    spawn(&mut world, &[B]);
    world.update();
    assert_eq!(
        taken(&calls),
        vec!["s added 1", "s begin", "s process [1] [[], [2], [2]]", "s end"]
    );
    assert_eq!(world.entity_manager().entity_ids(), vec![1, 2]);
    assert!(world.entity_manager().try_get_entity(1).is_some());
    assert!(world.entity_manager().try_get_entity(2).is_some());
}

/// Uses the default `process_all`, and the world handle in `process_w`.
struct Spawner {
    seen: Log,
    delta: Rc<Cell<(i64, i64)>>,
}

impl System<u8> for Spawner {
    fn aspect(&self) -> Aspect {
        Aspect::all(A)
    }

    fn on_created(&mut self, entity_manager: &mut EntityManager<u8>) {
        let e = entity_manager.create_entity();
        e.add_component(A, 0);
    }

    fn process_one(&mut self, entity: &mut Entity<u8>) {
        self.seen.borrow_mut().push(format!("one {}", entity.id()));
    }

    fn process_w(&mut self, entity: &mut Entity<u8>, world: &mut WorldHandle<u8>) {
        self.delta.set((world.delta_seconds, world.delta_milliseconds));
        let own = world.entity_manager.try_get_entity(entity.id()).is_some();
        self.seen.borrow_mut().push(format!("w {} {}", entity.id(), own));
        if entity.id() == 1 && world.entity_manager.last_id() == 1 {
            let e = world.entity_manager.create_entity();
            e.add_component(A, 0);
        }
    }

    fn process_d(&mut self, entity: &mut Entity<u8>, data: &mut DataList<u8>) {
        self.seen.borrow_mut().push(format!("d {} {}", entity.id(), data.len()));
    }

    fn process_wd(
        &mut self,
        entity: &mut Entity<u8>,
        _world: &mut WorldHandle<u8>,
        _data: &mut DataList<u8>,
    ) {
        self.seen.borrow_mut().push(format!("wd {}", entity.id()));
    }
}

#[test]
fn the_default_processing_calls_each_hook_for_each_entity() {
    let seen = log();
    let delta = Rc::new(Cell::new((0, 0)));
    let mut world: World<u8> = World::new();
    world.set_system(Spawner { seen: seen.clone(), delta: delta.clone() });
    assert_eq!(world.entity_manager().entity_ids(), vec![1]);
    world.update_with_delta(2, 2500);
    assert_eq!(taken(&seen), vec!["one 1", "w 1 false", "d 1 0", "wd 1"]);
    assert_eq!(delta.get(), (2, 2500));
    assert_eq!(world.entity_manager().entity_ids(), vec![1, 2]);
    world.update_with_delta(0, 1);
    let calls = taken(&seen);
    assert_eq!(calls.len(), 8);
    assert_eq!(calls.iter().filter(|c| c.starts_with("one ")).count(), 2);
    assert!(calls.contains(&"w 2 false".to_string()));
    assert_eq!(delta.get(), (0, 1));
}

/// Takes entities out of the batch it is handed, and puts strangers in.
struct Thief {
    kept: Rc<RefCell<Vec<Entity<u8>>>>,
}

impl System<u8> for Thief {
    fn aspect(&self) -> Aspect {
        Aspect::all(A)
    }

    fn process_all(
        &mut self,
        entities: &mut Vec<Entity<u8>>,
        _world: &mut WorldHandle<u8>,
        _data: &mut DataList<u8>,
    ) {
        while let Some(entity) = entities.pop() {
            if entity.id() == 2 {
                self.kept.borrow_mut().push(entity);
            }
        }
        let mut forged = Entity::new(3);
        forged.add_component(B, 0);
        entities.push(forged);
        entities.push(Entity::new(50));
    }
}

#[test]
fn a_system_cannot_put_an_entity_in_the_place_of_another() {
    let kept = Rc::new(RefCell::new(Vec::new()));
    let mut world: World<u8> = World::new();
    world.set_system(Thief { kept: kept.clone() });
    spawn(&mut world, &[A]);
    spawn(&mut world, &[A]);
    spawn(&mut world, &[CAMERA]);
    world.update();
    assert_eq!(kept.borrow().len(), 1);
    let manager = world.entity_manager();
    assert_eq!(manager.entity_ids(), vec![1, 2, 3]);
    assert!(manager.try_get_entity(1).is_none());
    assert!(manager.try_get_entity(2).is_none());
    let third = manager.try_get_entity(3).unwrap();
    assert!(third.has_component(CAMERA));
    assert!(!third.has_component(B));
    assert!(!manager.contains_entity(50));
    let back = kept.borrow_mut().pop().unwrap();
    manager.give_back(back);
    assert!(manager.try_get_entity(2).is_some());
}

#[test]
fn the_reconciliation_pass_can_be_run_alone() {
    let calls = log();
    let mut world: World<u8> = World::new();
    world.set_system(Recorder::new("s", || Aspect::all(A), &calls));
    spawn(&mut world, &[A]);
    let gone = spawn(&mut world, &[A]);
    world.entity_manager().remove_entity(gone);
    world.refresh_entities();
    assert_eq!(taken(&calls), vec!["s added 1"]);
    assert_eq!(world.entity_manager().entity_ids(), vec![1]);
    assert!(world.entity_manager().try_get_entity(1).unwrap().is_fresh());
    world.refresh_entities();
    assert!(taken(&calls).is_empty());
}

/// Gives every entity it processes a component of type `B`.
struct Marker;

impl System<u8> for Marker {
    fn aspect(&self) -> Aspect {
        Aspect::all(A)
    }

    fn process_one(&mut self, entity: &mut Entity<u8>) {
        entity.add_component(B, 1);
    }
}

/// Counts the entities that have a component of type `B` when it gets them.
struct Watcher {
    marked: Rc<Cell<u32>>,
}

impl System<u8> for Watcher {
    fn aspect(&self) -> Aspect {
        Aspect::all(A)
    }

    fn process_one(&mut self, entity: &mut Entity<u8>) {
        if entity.has_component(B) {
            self.marked.set(self.marked.get() + 1);
        }
    }
}

#[test]
fn a_later_system_sees_what_an_earlier_one_did_in_the_same_frame() {
    let early = Rc::new(Cell::new(0));
    let late = Rc::new(Cell::new(0));
    let mut world: World<u8> = World::new();
    world.set_system(Watcher { marked: early.clone() });
    world.set_system(Marker);
    world.set_system(Watcher { marked: late.clone() });
    spawn(&mut world, &[A]);
    world.update();
    assert_eq!(early.get(), 0);
    assert_eq!(late.get(), 1);
    world.update();
    assert_eq!(early.get(), 1);
    assert_eq!(late.get(), 2);
}

#[test]
fn a_component_can_be_added_and_removed_again_after_the_update() {
    let mut world: World<u8> = World::new();
    let id = spawn(&mut world, &[A, B]);
    world.update();
    {
        let e = world.entity_manager().try_get_entity(id).unwrap();
        e.remove_component(A);
        e.refresh();
    }
    world.update_with_delta(3, 3250);
    {
        let e = world.entity_manager().try_get_entity(id).unwrap();
        assert!(!e.has_component(A));
        assert!(!e.is_removed(A));
        assert!(e.has_component(B));
        assert!(e.is_fresh());
        e.add_component(A, 1);
        assert_eq!(e.try_remove_component(A), Ok(()));
        e.refresh();
    }
    world.update();
    let e = world.entity_manager().try_get_entity(id).unwrap();
    assert!(!e.has_component(A));
    assert!(e.has_component(B));
}

/// Writes down the delta that the world handle shows.
struct Clock {
    seen: Rc<Cell<(i64, i64)>>,
}

impl System<u8> for Clock {
    fn aspect(&self) -> Aspect {
        Aspect::all(A)
    }

    fn process_w(&mut self, _entity: &mut Entity<u8>, world: &mut WorldHandle<u8>) {
        self.seen.set((world.delta_seconds, world.delta_milliseconds));
    }
}

#[test]
fn update_measures_the_time_since_the_last_tick() {
    let seen = Rc::new(Cell::new((-1, -1)));
    let mut world: World<u8> = World::new();
    world.set_system(Clock { seen: seen.clone() });
    spawn(&mut world, &[A]);
    world.update();
    let (seconds, milliseconds) = seen.get();
    assert!(seconds >= 0);
    assert!(seconds < 60);
    assert!(milliseconds >= 0);
    assert_eq!(milliseconds / 1000, seconds);
    world.update_with_delta(7, 7123);
    assert_eq!(seen.get(), (7, 7123));
}

/// Gives every entity it hears of a component of type `B`.
struct Giver;

impl System<u8> for Giver {
    fn aspect(&self) -> Aspect {
        Aspect::all(A)
    }

    fn on_added(&mut self, entity: &mut Entity<u8>) {
        entity.add_component(B, 0);
    }
}

#[test]
fn a_later_system_sees_what_the_hook_of_an_earlier_one_did() {
    let calls = log();
    let mut world: World<u8> = World::new();
    world.set_system(Giver);
    world.set_system(Recorder::new("b", || Aspect::all(B), &calls));
    let id = spawn(&mut world, &[A]);
    world.update();
    assert_eq!(taken(&calls), vec!["b added 1", "b begin", "b process [1] []", "b end"]);
    assert!(world.entity_manager().try_get_entity(id).unwrap().has_component(B));
    world.update();
    assert_eq!(taken(&calls), vec!["b begin", "b process [1] []", "b end"]);
}

#[test]
fn an_earlier_system_does_not_see_what_the_hook_of_a_later_one_did() {
    let calls = log();
    let mut world: World<u8> = World::new();
    world.set_system(Recorder::new("b", || Aspect::all(B), &calls));
    world.set_system(Giver);
    let id = spawn(&mut world, &[A]);
    world.update();
    assert!(taken(&calls).is_empty());
    world.entity_manager().try_get_entity(id).unwrap().refresh();
    world.update();
    assert_eq!(taken(&calls), vec!["b added 1", "b begin", "b process [1] []", "b end"]);
}

#[test]
fn an_optional_data_aspect_stays_optional_with_exclusions() {
    let calls = log();
    let mut world: World<u8> = World::new();
    let mut system = Recorder::new("s", || Aspect::all(A), &calls);
    system.data = || vec![Aspect::all(CAMERA).optional().except(B)];
    world.set_system(system);
    spawn(&mut world, &[A]);
    world.update();
    assert_eq!(taken(&calls), vec!["s added 1", "s begin", "s process [1] [[]]", "s end"]);
}
