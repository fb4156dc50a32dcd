use std::collections::HashSet;
use tinyecs::Aspect;
use tinyecs::Entity;
use tinyecs::EntityManager;

const A: u64 = 1;
const B: u64 = 2;

fn manager_with(ids: &[i32]) -> EntityManager<i32> {
    let mut manager = EntityManager::with_capacity(4);
    for id in ids {
        let e = manager.create_entity_with_id(*id);
        e.add_component(A, *id * 10);
    }
    manager.apply_creation();
    manager
}

fn ids_of(batch: &Vec<Entity<i32>>) -> Vec<i32> {
    batch.iter().map(|e| e.id()).collect()
}

#[test]
fn ids_are_given_out_in_order() {
    let mut manager: EntityManager<i32> = EntityManager::with_capacity(0);
    assert_eq!(manager.last_id(), 0);
    assert_eq!(manager.create_entity().id(), 1);
    assert_eq!(manager.create_entity().id(), 2);
    assert_eq!(manager.create_entity_with_id(7).id(), 7);
    assert_eq!(manager.last_id(), 7);
    assert_eq!(manager.create_entity().id(), 8);
    assert_eq!(manager.create_entity_with_id(5).id(), 5);
    assert_eq!(manager.last_id(), 8);
    assert_eq!(manager.create_entity().id(), 9);
}

#[test]
fn a_created_entity_waits_until_creation_is_applied() {
    let mut manager: EntityManager<i32> = EntityManager::with_capacity(0);
    let id = manager.create_entity().id();
    assert!(manager.contains_entity(id));
    assert!(manager.try_get_entity(id).is_none());
    assert!(manager.entity_ids().is_empty());
    manager.apply_creation();
    assert!(manager.contains_entity(id));
    assert!(manager.try_get_entity(id).is_some());
    assert_eq!(manager.entity_ids(), vec![id]);
    assert!(!manager.contains_entity(id + 1));
    assert!(!manager.contains_entity(-1));
}

#[test]
fn an_entity_changed_while_it_waits_enters_as_changed() {
    let mut manager: EntityManager<i32> = EntityManager::with_capacity(0);
    {
        let e = manager.create_entity_with_id(3);
        e.add_component(B, 33);
    }
    manager.apply_creation();
    let e = manager.try_get_entity(3).unwrap();
    assert_eq!(e.id(), 3);
    assert!(e.has_component(B));
    assert!(!e.is_fresh());
}

#[test]
fn entity_ids_come_in_ascending_order() {
    let manager = manager_with(&[9, 2, 40, 0, 17]);
    assert_eq!(manager.entity_ids(), vec![0, 2, 9, 17, 40]);
}

#[test]
fn lookups_find_what_is_at_hand() {
    let mut manager = manager_with(&[1, 2, 3]);
    assert!(manager.try_get_entity(2).is_some());
    assert!(manager.try_get_entity(4).is_none());
    assert!(manager.try_get_entity(-2).is_none());
    assert_eq!(manager.entity_ref(3).map(|e| e.id()), Some(3));
    assert!(manager.entity_ref(0).is_none());
    manager.try_get_entity(2).unwrap().add_component(B, 5);
    assert!(manager.entity_ref(2).unwrap().has_component(B));
    assert!(!manager.entity_ref(1).unwrap().has_component(B));
}

#[test]
fn a_deleted_entity_is_not_found_but_still_held() {
    let mut manager = manager_with(&[1, 2]);
    manager.remove_entity(1);
    assert!(manager.try_get_entity(1).is_none());
    assert!(manager.entity_mut(1).is_some());
    assert!(manager.entity_ref(1).unwrap().is_deleted());
    assert!(manager.contains_entity(1));
    assert!(manager.try_get_entity(2).is_some());
    assert!(!manager.entity_ref(2).unwrap().is_deleted());
}

#[test]
fn purge_takes_one_entity_and_leaves_the_others() {
    let mut manager = manager_with(&[1, 2, 3, 4]);
    manager.purge(2);
    assert_eq!(manager.entity_ids(), vec![1, 3, 4]);
    assert!(!manager.contains_entity(2));
    for id in [1, 3, 4] {
        let e = manager.entity_ref(id).unwrap();
        assert_eq!(e.id(), id);
        assert!(e.has_component(A));
    }
    manager.purge(4);
    manager.purge(1);
    assert_eq!(manager.entity_ids(), vec![3]);
    assert_eq!(manager.entity_ref(3).unwrap().id(), 3);
    manager.purge(3);
    manager.purge(3);
    assert!(manager.entity_ids().is_empty());
    assert_eq!(manager.create_entity_with_id(2).id(), 2);
    manager.apply_creation();
    assert_eq!(manager.entity_ids(), vec![2]);
}

#[test]
fn a_lent_entity_is_away_until_it_is_given_back() {
    let mut manager = manager_with(&[1, 2]);
    let mut lent = manager.lend(1).unwrap();
    assert_eq!(lent.id(), 1);
    assert!(manager.try_get_entity(1).is_none());
    assert!(manager.entity_ref(1).is_none());
    assert!(manager.contains_entity(1));
    assert!(manager.lend(1).is_none());
    assert!(manager.lend(5).is_none());
    assert_eq!(manager.entity_ids(), vec![1, 2]);
    lent.add_component(B, 7);
    manager.give_back(lent);
    assert!(manager.entity_ref(1).unwrap().has_component(B));
}

#[test]
fn an_entity_that_was_not_lent_is_refused() {
    let mut manager = manager_with(&[1, 2]);
    let mut forged: Entity<i32> = Entity::new(2);
    forged.add_component(B, 1);
    manager.give_back(forged);
    assert!(!manager.entity_ref(2).unwrap().has_component(B));
    manager.give_back(Entity::new(9));
    manager.give_back(Entity::new(-3));
    assert_eq!(manager.entity_ids(), vec![1, 2]);
}

#[test]
fn a_lookup_hands_out_the_entity_under_the_id_asked_for() {
    let mut manager = manager_with(&[4]);
    manager.entity_mut(4).unwrap().set_id(11);
    assert_eq!(manager.entity_ref(4).unwrap().id(), 11);
    assert_eq!(manager.try_get_entity(4).unwrap().id(), 4);
    assert_eq!(manager.entity_ref(4).unwrap().id(), 4);
    manager.entity_mut(4).unwrap().set_id(12);
    assert_eq!(manager.entity_mut(4).unwrap().id(), 4);
}

#[test]
fn lending_stamps_the_id_of_the_store() {
    let mut manager = manager_with(&[4]);
    manager.entity_mut(4).unwrap().set_id(11);
    assert_eq!(manager.entity_ref(4).unwrap().id(), 11);
    let lent = manager.lend(4).unwrap();
    assert_eq!(lent.id(), 4);
    manager.give_back(lent);
    assert_eq!(manager.entity_ref(4).unwrap().id(), 4);
}

#[test]
fn entities_are_lent_by_their_ids() {
    let mut manager = manager_with(&[1, 2, 3, 4]);
    let wanted: HashSet<i32> = [2, 4, 9].into_iter().collect();
    let batch = manager.get_entities_by_ids(&wanted);
    let mut ids = ids_of(&batch);
    ids.sort();
    assert_eq!(ids, vec![2, 4]);
    assert!(manager.entity_ref(2).is_none());
    assert!(manager.entity_ref(4).is_none());
    assert!(manager.entity_ref(1).is_some());
    let again = manager.get_entities_by_ids(&wanted);
    assert!(again.is_empty());
    manager.return_entities(batch);
    assert!(manager.entity_ref(2).is_some());
    assert!(manager.entity_ref(4).is_some());
    assert_eq!(manager.entity_ids(), vec![1, 2, 3, 4]);
}

#[test]
fn entities_are_lent_by_aspect_in_the_order_of_their_ids() {
    let mut manager = manager_with(&[5, 1, 3]);
    manager.entity_mut(3).unwrap().add_component(B, 0);
    manager.entity_mut(1).unwrap().add_component(B, 0);
    manager.remove_entity(1);
    let batch = manager.get_entities_by_aspect(Aspect::all2(A, B));
    assert_eq!(ids_of(&batch), vec![1, 3]);
    let rest = manager.get_entities_by_aspect(Aspect::all(A));
    assert_eq!(ids_of(&rest), vec![5]);
    let none = manager.get_entities_by_aspect(Aspect::all(A));
    assert!(none.is_empty());
    manager.return_entities(batch);
    manager.return_entities(rest);
    let all = manager.get_entities_by_aspect(Aspect::all(A).except(B));
    assert_eq!(ids_of(&all), vec![5]);
}

#[test]
fn refresh_all_marks_every_entity() {
    let mut manager = manager_with(&[1, 2]);
    manager.entity_mut(1).unwrap().set_fresh();
    manager.entity_mut(2).unwrap().set_fresh();
    manager.refresh_all();
    assert!(!manager.entity_ref(1).unwrap().is_fresh());
    assert!(!manager.entity_ref(2).unwrap().is_fresh());
    assert!(manager.entity_ref(1).unwrap().has_component(A));
}
