use azazel::{apply1, apply2, apply3, apply4, ComponentStorage};

#[test]
fn apply1_calls_once_per_entity_in_order() {
    let mut s: ComponentStorage<u32, i64> = ComponentStorage::default();
    s.insert(1, 10);
    s.insert(2, 20);
    s.insert(3, 30);
    let mut seen: Vec<i64> = Vec::new();
    let mut f = |x: &mut i64| {
        seen.push(*x);
        *x += 1;
    };
    let _ = apply1(&mut f, &mut s, &vec![3, 1]);
    assert_eq!(seen, vec![30, 10]);
    assert_eq!(s.get(&3), Some(&31));
    assert_eq!(s.get(&1), Some(&11));
    assert_eq!(s.get(&2), Some(&20));
    assert_eq!(s.len(), 3);
}

#[test]
fn apply1_with_no_ids_calls_nothing() {
    let mut s: ComponentStorage<u32, i64> = ComponentStorage::default();
    s.insert(1, 10);
    let mut calls = 0;
    let mut f = |_x: &mut i64| calls += 1;
    let _ = apply1(&mut f, &mut s, &vec![]);
    assert_eq!(calls, 0);
    assert_eq!(s.get(&1), Some(&10));
}

#[test]
fn apply2_hands_each_entity_its_own_components() {
    let mut pos: ComponentStorage<u32, i32> = ComponentStorage::default();
    let mut vel: ComponentStorage<u32, i32> = ComponentStorage::default();
    pos.insert(1, 5);
    pos.insert(2, 10);
    pos.insert(3, 100);
    vel.insert(2, 10);
    vel.insert(1, -3);
    let mut f = |p: &mut i32, v: &mut i32| *p += *v;
    let _ = apply2(&mut f, &mut pos, &mut vel, &vec![1, 2]);
    assert_eq!(pos.get(&1), Some(&2));
    assert_eq!(pos.get(&2), Some(&20));
    assert_eq!(pos.get(&3), Some(&100));
    assert_eq!(vel.get(&1), Some(&-3));
    assert_eq!(vel.get(&2), Some(&10));
}

#[test]
fn apply3_and_apply4_write_every_argument() {
    let mut a: ComponentStorage<u8, u8> = ComponentStorage::default();
    let mut b: ComponentStorage<u8, u16> = ComponentStorage::default();
    let mut c: ComponentStorage<u8, u32> = ComponentStorage::default();
    let mut d: ComponentStorage<u8, u64> = ComponentStorage::default();
    for id in 0..3u8 {
        a.insert(id, id);
        b.insert(id, 10);
        c.insert(id, 20);
        d.insert(id, 30);
    }
    let mut f3 = |x: &mut u8, y: &mut u16, z: &mut u32| {
        *y += *x as u16;
        *z += *y as u32;
        *x = 0;
    };
    let _ = apply3(&mut f3, &mut a, &mut b, &mut c, &vec![2]);
    assert_eq!(a.get(&2), Some(&0));
    assert_eq!(b.get(&2), Some(&12));
    assert_eq!(c.get(&2), Some(&32));
    assert_eq!(a.get(&1), Some(&1));
    let mut order: Vec<u8> = Vec::new();
    let mut f4 = |x: &mut u8, y: &mut u16, z: &mut u32, w: &mut u64| {
        order.push(*x);
        *w += *x as u64 + *y as u64 + *z as u64;
    };
    let _ = apply4(&mut f4, &mut a, &mut b, &mut c, &mut d, &vec![1, 0, 2]);
    assert_eq!(order, vec![1, 0, 0]);
    assert_eq!(d.get(&1), Some(&61));
    assert_eq!(d.get(&0), Some(&60));
    assert_eq!(d.get(&2), Some(&74));
}
