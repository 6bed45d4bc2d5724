use azazel::EntityManager;

#[test]
fn test_spawn_despawn() {
    let mut manager = EntityManager::default();
    assert_eq!(manager.as_slice().len(), 0);
    assert_eq!(manager.recycled().len(), 0);

    let id: usize = manager.spawn();
    assert_eq!(id, 0);
    assert_eq!(manager.contains(id), true);

    assert_eq!(manager.as_slice().len(), 1);
    assert_eq!(manager.recycled().len(), 0);

    manager.despawn(id);
    assert_eq!(manager.contains(id), false);

    assert_eq!(manager.as_slice().len(), 0);
    assert_eq!(manager.recycled().len(), 1);
}

#[test]
fn spawn_reuses_most_recently_despawned() {
    let mut manager = EntityManager::default();
    let a = manager.spawn();
    let b = manager.spawn();
    let c = manager.spawn();
    assert_eq!((a, b, c), (0, 1, 2));
    manager.despawn(a);
    manager.despawn(c);
    assert_eq!(manager.as_slice(), &[1]);
    assert_eq!(manager.recycled(), &[0, 2]);
    assert_eq!(manager.spawn(), 2);
    assert_eq!(manager.spawn(), 0);
    assert_eq!(manager.spawn(), 3);
    assert_eq!(manager.as_slice(), &[1, 2, 0, 3]);
}

#[test]
fn despawn_swaps_last_into_place() {
    let mut manager = EntityManager::default();
    for _ in 0..4 {
        manager.spawn();
    }
    manager.despawn(1);
    assert_eq!(manager.as_slice(), &[0, 3, 2]);
}

#[test]
fn spawn_then_despawn_restores_live_ids() {
    let mut manager = EntityManager::default();
    manager.spawn();
    manager.spawn();
    let before: Vec<usize> = manager.as_slice().to_vec();
    let id = manager.spawn();
    manager.despawn(id);
    let mut after: Vec<usize> = manager.as_slice().to_vec();
    after.sort();
    assert_eq!(after, before);
    assert_eq!(manager.recycled().last(), Some(&id));
}

#[test]
fn live_and_recycled_ids_cover_the_counter() {
    let mut manager = EntityManager::default();
    for _ in 0..5 {
        manager.spawn();
    }
    manager.despawn(3);
    manager.despawn(0);
    manager.spawn();
    manager.despawn(4);
    let mut all: Vec<usize> = manager.as_slice().to_vec();
    all.extend_from_slice(manager.recycled());
    all.sort();
    assert_eq!(all, vec![0, 1, 2, 3, 4]);
    assert!(!manager.contains(4));
    assert!(manager.contains(0));
}
