use std::collections::HashSet;
use tinyecs::DataList;
use tinyecs::EntityManager;

const A: u64 = 1;

fn manager_with(ids: &[i32]) -> EntityManager<i32> {
    let mut manager = EntityManager::with_capacity(0);
    for id in ids {
        manager.create_entity_with_id(*id).add_component(A, *id);
    }
    manager.apply_creation();
    manager
}

fn set(ids: &[i32]) -> HashSet<i32> {
    ids.iter().copied().collect()
}

fn ids_of(list: &DataList<i32>, n: usize) -> Vec<i32> {
    let mut ids: Vec<i32> = list.unwrap_nth(n).iter().map(|e| e.id()).collect();
    ids.sort();
    ids
}

#[test]
fn packs_hold_the_entities_of_their_sets() {
    let mut manager = manager_with(&[1, 2, 3, 4]);
    let sets = vec![set(&[2]), set(&[4, 1]), set(&[])];
    let mut list = DataList::new(&mut manager, &sets);
    assert_eq!(list.len(), 3);
    assert_eq!(list.unwrap_entity().id(), 2);
    assert_eq!(list.unwrap_entity_nth(0).id(), 2);
    assert_eq!(list.pack_len(0), 1);
    assert_eq!(list.pack_len(1), 2);
    assert_eq!(list.pack_len(2), 0);
    assert_eq!(ids_of(&list, 0), vec![2]);
    assert_eq!(ids_of(&list, 1), vec![1, 4]);
    assert!(list.unwrap_nth(2).is_empty());
    assert_eq!(list.unwrap_all().len(), 1);
    let second = list.unwrap_entity_nth(1).id();
    assert!(second == 1 || second == 4);
    assert_eq!(manager.entity_ids(), vec![1, 2, 3, 4]);
    assert!(manager.entity_ref(2).is_none());
    assert!(manager.entity_ref(1).is_none());
    assert!(manager.entity_ref(3).is_some());

    list.unwrap_entity_mut().add_component(7, 70);
    list.unwrap_mut_nth(0, 0).add_component(8, 80);
    list.unwrap_mut_nth(1, 0).add_component(9, 90);
    list.give_back(&mut manager);
    let e = manager.entity_ref(2).unwrap();
    assert!(e.has_component(7) && e.has_component(8));
    assert!(manager.entity_ref(second).unwrap().has_component(9));
    assert!(manager.entity_ref(1).is_some() && manager.entity_ref(4).is_some());
}

#[test]
fn an_entity_is_in_every_pack_that_wants_it() {
    let mut manager = manager_with(&[1, 2, 3]);
    let sets = vec![set(&[1, 2]), set(&[2]), set(&[3, 2, 1])];
    let mut list = DataList::new(&mut manager, &sets);
    assert_eq!(ids_of(&list, 0), vec![1, 2]);
    assert_eq!(ids_of(&list, 1), vec![2]);
    assert_eq!(ids_of(&list, 2), vec![1, 2, 3]);
    assert!(manager.entity_ref(2).is_none());
    list.unwrap_mut_nth(1, 0).add_component(5, 50);
    for n in 0..3 {
        let pack = list.unwrap_nth(n);
        let two = pack.iter().find(|e| e.id() == 2).unwrap();
        assert!(two.has_component(5));
    }
    list.give_back(&mut manager);
    assert!(manager.entity_ref(2).unwrap().has_component(5));
    assert!(manager.entity_ref(1).is_some() && manager.entity_ref(3).is_some());
}

#[test]
fn the_ids_at_hand_are_told_from_the_others() {
    let mut manager = manager_with(&[1, 2, 3]);
    let lent = manager.lend(2).unwrap();
    let found = manager.at_hand(&set(&[1, 2, 9]));
    assert_eq!(found, set(&[1]));
    manager.give_back(lent);
    assert_eq!(manager.at_hand(&set(&[1, 2, 9])), set(&[1, 2]));
}
