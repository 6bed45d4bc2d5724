use azazel::ComponentManager;

#[derive(Clone, Copy, Debug, PartialEq, Eq)]
struct Position(i32, i32);

#[derive(Clone, Debug, PartialEq, Eq)]
struct Dialogue {
    greeting: String,
}

#[test]
fn insert_get() {
    let mut manager = ComponentManager::default();
    let player = "Player";
    let position = Position(3, -5);

    assert_eq!(manager.store_count(), 0);

    manager.insert(player, position);

    assert_eq!(manager.get(&player), Some(&position));
    assert_eq!(manager.store_count(), 1);
}

#[test]
fn bad_get() {
    let mut manager = ComponentManager::default();

    let player = "Player";
    let position = Position(3, -5);

    let gale = "Gale";
    let dialogue = Dialogue {
        greeting: "The Orb.".to_string(),
    };

    manager.insert(player, position);
    manager.insert(gale, dialogue);

    assert_eq!(manager.get::<Position>(&gale), None);
    assert_eq!(manager.get::<Dialogue>(&player), None);
}

#[test]
fn bad_get_empty() {
    let manager = ComponentManager::default();

    let player = "Player";
    let gale = "Gale";

    assert_eq!(manager.get::<Position>(&gale), None);
    assert_eq!(manager.get::<Dialogue>(&player), None);
}

#[test]
fn get_mut() {
    let mut manager = ComponentManager::default();

    let player = "Player";
    let position = Position(3, -5);

    let gale = "Gale";
    let dialogue = Dialogue {
        greeting: "The Orb.".to_string(),
    };

    manager.insert(player, position);
    manager.insert(gale, dialogue);

    let new_dialogue = Dialogue {
        greeting: "The Karsite Weave.".to_string(),
    };

    {
        let dialogue_mut = manager.get_mut::<Dialogue>(&gale).unwrap();
        *dialogue_mut = new_dialogue.clone();
    }

    assert_eq!(manager.get::<Dialogue>(&gale), Some(&new_dialogue));
}

#[test]
fn remove() {
    let mut manager = ComponentManager::default();

    let player = "Player";
    let position = Position(3, -5);
    let dialogue = Dialogue {
        greeting: "Heyah".to_string(),
    };

    manager.insert(player, position);
    manager.insert(player, dialogue.clone());

    assert_eq!(manager.get::<Position>(&player), Some(&position));
    assert_eq!(manager.get::<Dialogue>(&player), Some(&dialogue));

    manager.remove::<Position>(&player);

    assert_eq!(manager.get::<Position>(&player), None);
    assert_eq!(manager.get::<Dialogue>(&player), Some(&dialogue));
}

#[test]
fn delete_entity_components_drops_empty_stores() {
    let mut manager = ComponentManager::default();
    manager.insert(1usize, Position(1, 1));
    manager.insert(2usize, Position(2, 2));
    manager.insert(1usize, Dialogue { greeting: "hi".to_string() });
    assert_eq!(manager.store_count(), 2);
    manager.delete_entity_components(&1usize);
    assert_eq!(manager.store_count(), 1);
    assert_eq!(manager.get::<Position>(&1usize), None);
    assert_eq!(manager.get::<Position>(&2usize), Some(&Position(2, 2)));
    assert_eq!(manager.get::<Dialogue>(&1usize), None);
}

#[test]
fn remove_store_and_shrink() {
    let mut manager = ComponentManager::default();
    manager.insert(1u32, Position(1, 1));
    manager.insert(1u32, Dialogue { greeting: "hi".to_string() });
    assert!(manager.remove_store::<u8>().is_none());
    let store = manager.remove_store::<Position>().unwrap();
    assert_eq!(store.get(&1u32), Some(&Position(1, 1)));
    assert_eq!(manager.store_count(), 1);
    assert_eq!(manager.remove::<Dialogue>(&1u32), Some(Dialogue { greeting: "hi".to_string() }));
    assert_eq!(manager.store_count(), 1);
    manager.shrink_to_fit();
    assert_eq!(manager.store_count(), 0);
}

#[test]
fn query_intersects() {
    let mut manager = ComponentManager::default();
    manager.insert(1u64, Position(1, 1));
    manager.insert(2u64, Position(2, 2));
    manager.insert(3u64, Position(3, 3));
    manager.insert(2u64, 5u8);
    manager.insert(3u64, 6u8);
    manager.insert(4u64, 7u8);
    let keys = [std::any::TypeId::of::<Position>(), std::any::TypeId::of::<u8>()];
    let mut ids = manager.query(&keys);
    ids.sort();
    assert_eq!(ids, vec![2, 3]);
    assert_eq!(manager.query(&[]), Vec::<u64>::new());
    assert_eq!(manager.query(&[std::any::TypeId::of::<u16>()]), Vec::<u64>::new());
    let mut all = manager.query(&keys[..1]);
    all.sort();
    assert_eq!(all, vec![1, 2, 3]);
}

#[test]
fn insert_keeps_other_types_and_entities() {
    let mut manager = ComponentManager::default();
    manager.insert(1u8, Position(1, 1));
    manager.insert(2u8, Dialogue { greeting: "a".to_string() });
    assert_eq!(manager.insert(1u8, Position(5, 5)), None);
    assert_eq!(manager.get::<Position>(&1u8), Some(&Position(5, 5)));
    assert_eq!(manager.get::<Dialogue>(&2u8), Some(&Dialogue { greeting: "a".to_string() }));
    assert_eq!(manager.get::<Position>(&2u8), None);
    assert_eq!(manager.get::<Dialogue>(&1u8), None);
}

#[test]
fn keyed_access_and_type_mismatch() {
    let pos = std::any::TypeId::of::<Position>();
    let byte = std::any::TypeId::of::<u8>();
    let mut manager = ComponentManager::default();
    assert_eq!(manager.insert_by_key(&pos, 1u16, Position(1, 2)), None);
    assert_eq!(manager.insert_by_key(&byte, 1u16, 9u8), None);
    assert_eq!(manager.get_by_key::<Position>(&pos, &1u16), Some(&Position(1, 2)));
    // The storage filed under the `u8` key holds `u8`s: a `Position` is refused.
    assert_eq!(manager.insert_by_key(&byte, 2u16, Position(0, 0)), Some(Position(0, 0)));
    assert_eq!(manager.get_by_key::<Position>(&byte, &1u16), None);
    assert_eq!(manager.remove_by_key::<Position>(&byte, &1u16), None);
    assert_eq!(manager.get_by_key::<u8>(&byte, &1u16), Some(&9u8));
    *manager.get_mut_by_key::<u8>(&byte, &1u16).unwrap() += 1;
    assert_eq!(manager.remove_by_key::<u8>(&byte, &1u16), Some(10u8));
    assert!(manager.remove_store_by_key::<u8>(&pos).is_none());
    let store = manager.remove_store_by_key::<Position>(&pos).unwrap();
    assert_eq!(store.len(), 1);
    assert_eq!(manager.store_count(), 1);
    assert!(manager.get_store_by_key::<u8>(&byte).unwrap().is_empty());
    assert!(manager.get_mut_store_by_key::<u8>(&pos).is_none());
}
