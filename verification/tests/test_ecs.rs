use azazel::Engine;
use std::cell::Cell;
use std::rc::Rc;

#[derive(Debug, Clone, PartialEq, Eq)]
struct Name(String);

#[derive(Debug, Clone, PartialEq, Eq)]
struct Position(i32);

#[derive(Debug, Clone, PartialEq, Eq)]
struct Speed(i32);

#[derive(Debug, Clone, PartialEq, Eq)]
struct Player;

#[test]
fn test_ecs() {
    let mut engine = Engine::default();
    let player = engine.spawn();
    engine.insert_entity_component(&player, Name("Johnny Silverhand".to_string()));

    engine.schedule(|name: &mut Name| {
        name.0.push_str(" the VI");
    });

    engine.run_systems();
    assert_eq!(
        engine.get_entity_component(&player),
        Some(&Name("Johnny Silverhand the VI".to_string()))
    );

    engine.run_systems();
    assert_eq!(
        engine.get_entity_component(&player),
        Some(&Name("Johnny Silverhand the VI the VI".to_string()))
    );
}

#[test]
fn test_query2() {
    let mut engine = Engine::default();
    let player = engine.spawn();
    engine.insert_entity_component(&player, Position(5));
    engine.insert_entity_component(&player, Speed(-3));

    engine.schedule(|position: &mut Position, speed: &mut Speed| {
        position.0 += speed.0;
    });

    engine.run_systems();
    assert_eq!(engine.get_entity_component(&player), Some(&Position(2)));

    engine.run_systems();
    assert_eq!(engine.get_entity_component(&player), Some(&Position(-1)));
}

#[test]
fn test_query3() {
    let mut engine = Engine::default();

    let player = engine.spawn();
    engine.insert_entity_component(&player, Position(5));
    engine.insert_entity_component(&player, Speed(-3));
    engine.insert_entity_component(&player, Player);

    let npc = engine.spawn();
    engine.insert_entity_component(&npc, Position(10));
    engine.insert_entity_component(&npc, Speed(10));

    engine.schedule(
        |position: &mut Position, speed: &mut Speed, _player: &mut Player| {
            position.0 += 2 * speed.0;
        },
    );

    engine.schedule(|position: &mut Position, speed: &mut Speed| {
        position.0 += speed.0;
    });

    // player should move 3 times as often

    engine.run_systems();
    assert_eq!(engine.get_entity_component(&player), Some(&Position(-4)));
    assert_eq!(engine.get_entity_component(&npc), Some(&Position(20)));

    engine.run_systems();
    assert_eq!(engine.get_entity_component(&player), Some(&Position(-13)));
    assert_eq!(engine.get_entity_component(&npc), Some(&Position(30)));
}

#[test]
fn despawn_drops_components_and_recycles_id() {
    let mut engine = Engine::default();
    let a = engine.spawn();
    let b = engine.spawn();
    engine.insert_entity_component(&a, Position(1));
    engine.insert_entity_component(&b, Position(2));
    engine.insert_entity_component(&a, Speed(7));
    engine.despawn(a);
    assert_eq!(engine.get_entity_component::<Position>(&b), Some(&Position(2)));
    // The freed id comes back with no components.
    let c = engine.spawn();
    assert_eq!(engine.get_entity_component::<Position>(&c), None);
    assert_eq!(engine.entity_get_component::<Speed>(&c), None);
}

#[test]
fn insert_entity_component_replaces_and_returns_nothing() {
    let mut engine = Engine::default();
    let a = engine.spawn();
    assert_eq!(engine.insert_entity_component(&a, Position(1)), None);
    assert_eq!(engine.insert_entity_component(&a, Position(4)), None);
    assert_eq!(engine.entity_get_component(&a), Some(&Position(4)));
}

#[test]
fn system_without_matches_is_not_called() {
    let mut engine = Engine::default();
    let a = engine.spawn();
    engine.insert_entity_component(&a, Position(1));
    engine.schedule(|position: &mut Position, _speed: &mut Speed| {
        position.0 += 100;
    });
    engine.schedule(|| panic!("a system over no components matches nothing"));
    engine.run_systems();
    assert_eq!(engine.get_entity_component(&a), Some(&Position(1)));
}

#[test]
fn system_with_four_components() {
    let mut engine = Engine::default();
    let a = engine.spawn();
    engine.insert_entity_component(&a, Position(1));
    engine.insert_entity_component(&a, Speed(2));
    engine.insert_entity_component(&a, Name("a".to_string()));
    engine.insert_entity_component(&a, Player);
    engine.schedule(
        |position: &mut Position, speed: &mut Speed, name: &mut Name, _player: &mut Player| {
            position.0 += speed.0;
            name.0.push('!');
        },
    );
    engine.run_systems();
    assert_eq!(engine.get_entity_component(&a), Some(&Position(3)));
    assert_eq!(engine.get_entity_component(&a), Some(&Name("a!".to_string())));
}

#[test]
fn each_system_visits_every_matching_entity_once() {
    let mut engine = Engine::default();
    let a = engine.spawn();
    let b = engine.spawn();
    let c = engine.spawn();
    engine.insert_entity_component(&a, Position(0));
    engine.insert_entity_component(&a, Speed(1));
    engine.insert_entity_component(&b, Position(0));
    engine.insert_entity_component(&c, Position(0));
    engine.insert_entity_component(&c, Speed(2));

    let calls = Rc::new(Cell::new(0usize));
    let counter = calls.clone();
    engine.schedule(move |position: &mut Position, speed: &mut Speed| {
        counter.set(counter.get() + 1);
        position.0 += speed.0;
    });
    engine.run_systems();
    assert_eq!(calls.get(), 2);
    assert_eq!(engine.get_entity_component(&a), Some(&Position(1)));
    assert_eq!(engine.get_entity_component(&b), Some(&Position(0)));
    assert_eq!(engine.get_entity_component(&c), Some(&Position(2)));
}

#[test]
fn system_with_repeated_type_matches_nothing() {
    let mut engine = Engine::default();
    let a = engine.spawn();
    engine.insert_entity_component(&a, Position(1));
    engine.schedule(|p: &mut Position, q: &mut Position| {
        p.0 += 1;
        q.0 += 1;
    });
    engine.run_systems();
    assert_eq!(engine.get_entity_component(&a), Some(&Position(1)));
}

#[test]
fn system_manager_never_calls_a_system_without_parameters() {
    let c = Rc::new(Cell::new(0usize));
    let c2 = c.clone();
    let mut sm = azazel::SystemManager::<usize>::default();
    sm.schedule(move || c2.set(c2.get() + 1));
    let mut cm = azazel::ComponentManager::<usize>::default();
    cm.insert(0, Position(5));
    sm.run_systems(&mut cm);
    assert_eq!(c.get(), 0);
    assert_eq!(cm.get::<Position>(&0), Some(&Position(5)));
}

#[test]
fn systems_run_in_the_order_they_were_scheduled() {
    let mut engine = Engine::default();
    let a = engine.spawn();
    engine.insert_entity_component(&a, Position(7));
    engine.schedule(|position: &mut Position| position.0 = 1);
    engine.schedule(|position: &mut Position| position.0 *= 10);
    engine.run_systems();
    assert_eq!(engine.get_entity_component(&a), Some(&Position(10)));
    engine.schedule(|position: &mut Position| position.0 += 3);
    engine.run_systems();
    assert_eq!(engine.get_entity_component(&a), Some(&Position(13)));
}

#[test]
fn replaced_component_is_the_one_systems_see() {
    let mut engine = Engine::default();
    let a = engine.spawn();
    engine.insert_entity_component(&a, Position(1));
    engine.insert_entity_component(&a, Position(5));
    let seen = Rc::new(Cell::new(0));
    let seen_in_system = seen.clone();
    engine.schedule(move |position: &mut Position| {
        seen_in_system.set(seen_in_system.get() + position.0);
        position.0 += 1;
    });
    engine.run_systems();
    assert_eq!(seen.get(), 5);
    assert_eq!(engine.get_entity_component(&a), Some(&Position(6)));
}
