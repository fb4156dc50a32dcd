use std::cell::Cell;
use std::rc::Rc;
use tinyecs::Aspect;
use tinyecs::Entity;
use tinyecs::System;
use tinyecs::World;

const HEALTH: u64 = 1;
const POSITION: u64 = 2;
const ALIVE: u64 = 3;

#[derive(Debug, PartialEq)]
enum Component {
    Health { hp: i32 },
    Position { x: i32 },
    Alive,
}

/// Takes 10 off the health of what stands at 5, and lets die what has none
/// left.
struct Decay {
    processed: Rc<Cell<u32>>,
    removed: Rc<Cell<u32>>,
}

impl System<Component> for Decay {
    fn aspect(&self) -> Aspect {
        Aspect::all3(POSITION, HEALTH, ALIVE)
    }

    fn on_removed(&self, _entity: &mut Entity<Component>) {
        self.removed.set(self.removed.get() + 1);
    }

    fn process_one(&mut self, entity: &mut Entity<Component>) {
        self.processed.set(self.processed.get() + 1);
        let (position, mut health) = entity.get_components(POSITION, HEALTH);
        let at_five = *position.deref() == Component::Position { x: 5 };
        let mut dead = false;
        if let Component::Health { hp } = health.deref_mut() {
            if at_five {
                *hp -= 10;
            }
            dead = *hp <= 0;
        }
        entity.release(position);
        entity.release(health);
        if dead {
            entity.remove_component(ALIVE);
            entity.refresh();
        }
    }
}

fn health_of(world: &mut World<Component>, id: i32) -> i32 {
    let entity = world.entity_manager().try_get_entity(id).unwrap();
    let guard = entity.get_component(HEALTH);
    let hp = match guard.deref() {
        Component::Health { hp } => *hp,
        _ => panic!("not a health"),
    };
    entity.release(guard);
    hp
}

#[test]
fn health_runs_out_after_ten_updates() {
    let processed = Rc::new(Cell::new(0));
    let removed = Rc::new(Cell::new(0));
    let mut world: World<Component> = World::new();
    world.set_system(Decay { processed: processed.clone(), removed: removed.clone() });
    let id = {
        let entity = world.entity_manager().create_entity();
        entity.add_component(HEALTH, Component::Health { hp: 100 });
        entity.add_component(POSITION, Component::Position { x: 5 });
        entity.add_component(ALIVE, Component::Alive);
        entity.refresh();
        entity.id()
    };
    for round in 1..=9 {
        world.update();
        assert_eq!(health_of(&mut world, id), 100 - 10 * round);
        assert!(!world.entity_manager().try_get_entity(id).unwrap().is_removed(ALIVE));
    }
    world.update();
    assert_eq!(processed.get(), 10);
    assert_eq!(health_of(&mut world, id), 0);
    assert!(world.entity_manager().try_get_entity(id).unwrap().is_removed(ALIVE));
    assert_eq!(removed.get(), 0);

    world.update();
    assert_eq!(processed.get(), 10);
    assert_eq!(removed.get(), 1);
    assert_eq!(health_of(&mut world, id), 0);
    assert!(!world.entity_manager().try_get_entity(id).unwrap().has_component(ALIVE));

    world.update();
    assert_eq!(processed.get(), 10);
    assert_eq!(removed.get(), 1);
    assert_eq!(health_of(&mut world, id), 0);
}

#[test]
fn health_stays_where_the_position_is_another() {
    let processed = Rc::new(Cell::new(0));
    let removed = Rc::new(Cell::new(0));
    let mut world: World<Component> = World::new();
    world.set_system(Decay { processed: processed.clone(), removed });
    let id = {
        let entity = world.entity_manager().create_entity();
        entity.add_component(HEALTH, Component::Health { hp: 100 });
        entity.add_component(POSITION, Component::Position { x: 4 });
        entity.add_component(ALIVE, Component::Alive);
        entity.refresh();
        entity.id()
    };
    for _ in 0..3 {
        world.update();
    }
    assert_eq!(processed.get(), 3);
    assert_eq!(health_of(&mut world, id), 100);
}
