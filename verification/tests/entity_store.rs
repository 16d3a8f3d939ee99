use tecs::entity::EntityStore;

#[test]
pub fn entity_store_new() {
    let entity_store = EntityStore::new();
    assert_eq!(entity_store.entity_count(), 0);
}

#[test]
pub fn entity_store_allocate() {
    let mut entity_store = EntityStore::new();
    let first_entity_id = entity_store.allocate_entity();
    assert_eq!(entity_store.entity_count(), 1);
    assert_eq!(first_entity_id, 0);
}

#[test]
pub fn entity_store_reallocate() {
    let mut entity_store = EntityStore::new();
    let first_entity_id = entity_store.allocate_entity();
    assert_eq!(entity_store.entity_count(), 1);
    assert_eq!(first_entity_id, 0);

    entity_store.free_entity(first_entity_id);
    assert_eq!(entity_store.entity_count(), 0);

    let second_entity_id = entity_store.allocate_entity();
    assert_eq!(entity_store.entity_count(), 1);
    assert_eq!(second_entity_id, 0)
}

#[test]
pub fn released_ids_come_back_last_in_first_out() {
    let mut store = EntityStore::new();
    let ids: Vec<usize> = (0..5).map(|_| store.allocate_entity()).collect();
    assert_eq!(ids, vec![0, 1, 2, 3, 4]);
    store.free_entity(1);
    store.free_entity(3);
    assert_eq!(store.entity_count(), 3);
    assert_eq!(store.allocate_entity(), 3);
    assert_eq!(store.allocate_entity(), 1);
    assert_eq!(store.allocate_entity(), 5);
    assert_eq!(store.entity_count(), 6);
    assert!(store.can_allocate());
}

#[test]
pub fn live_ids_are_pairwise_distinct() {
    let mut store = EntityStore::new();
    let mut live: Vec<usize> = Vec::new();
    for round in 0..40usize {
        if round % 3 == 2 {
            let id = live.remove(round % live.len());
            store.free_entity(id);
        } else {
            let id = store.allocate_entity();
            assert!(!live.contains(&id));
            live.push(id);
        }
        assert_eq!(store.entity_count(), live.len());
    }
}
