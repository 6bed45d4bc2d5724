use azazel::ComponentStorage;

#[test]
fn insert_then_get_and_replace() {
    let mut s: ComponentStorage<u32, &str> = ComponentStorage::default();
    assert_eq!(s.insert(7, "a"), None);
    assert_eq!(s.get(&7), Some(&"a"));
    assert_eq!(s.insert(7, "b"), None);
    assert_eq!(s.get(&7), Some(&"b"));
    assert_eq!(s.len(), 1);
    // The earlier component keeps its slot, which 7 no longer reaches.
    assert_eq!(s.as_slice(), &["a", "b"]);
    assert_eq!(s.ids(), vec![7]);
}

#[test]
fn replaced_slot_moves_but_stays_unreached() {
    let mut s: ComponentStorage<u32, char> = ComponentStorage::default();
    s.insert(1, 'a');
    s.insert(2, 'b');
    s.insert(1, 'c');
    assert_eq!(s.as_slice(), &['a', 'b', 'c']);
    assert_eq!(s.ids(), vec![2, 1]);
    assert_eq!(s.remove(&1), Some('c'));
    assert_eq!(s.ids(), vec![2]);
    assert_eq!(s.remove(&2), Some('b'));
    assert_eq!(s.as_slice(), &['a']);
    assert!(s.is_empty());
    assert_eq!(s.get(&1), None);
    s.insert(3, 'd');
    s.insert(4, 'e');
    // Slot 0 is not live: removing 3 moves 4 into slot 1 and keeps it reached.
    assert_eq!(s.remove(&3), Some('d'));
    assert_eq!(s.as_slice(), &['a', 'e']);
    assert_eq!(s.get(&4), Some(&'e'));
    assert_eq!(s.ids(), vec![4]);
}

#[test]
fn remove_moves_last_into_hole() {
    let mut s: ComponentStorage<u32, char> = ComponentStorage::default();
    s.insert(10, 'a');
    s.insert(20, 'b');
    s.insert(30, 'c');
    s.insert(40, 'd');
    assert_eq!(s.remove(&10), Some('a'));
    assert_eq!(s.as_slice(), &['d', 'b', 'c']);
    assert_eq!(s.ids(), vec![40, 20, 30]);
    assert_eq!(s.remove(&20), Some('b'));
    assert_eq!(s.remove(&40), Some('d'));
    assert_eq!(s.get(&30), Some(&'c'));
    assert_eq!(s.get(&40), None);
    assert_eq!(s.remove(&40), None);
    assert_eq!(s.remove(&30), Some('c'));
    assert!(s.is_empty());
    assert_eq!(s.remove(&30), None);
}

#[test]
fn get_mut_and_slices() {
    let mut s: ComponentStorage<u8, i64> = ComponentStorage::default();
    s.insert(1, 10);
    s.insert(2, 20);
    *s.get_mut(&2).unwrap() += 5;
    assert!(s.get_mut(&3).is_none());
    for c in s.as_mut_slice() {
        *c *= 2;
    }
    assert_eq!(s.get(&1), Some(&20));
    assert_eq!(s.get(&2), Some(&50));
    assert!(s.contains(&1));
    assert!(!s.contains(&3));
    s.shrink_to_fit();
    assert_eq!(s.len(), 2);
}

#[test]
fn remove_undoes_insert() {
    let mut s: ComponentStorage<u32, char> = ComponentStorage::default();
    s.insert(1, 'x');
    s.insert(2, 'y');
    s.insert(3, 'z');
    assert_eq!(s.remove(&3), Some('z'));
    assert_eq!(s.len(), 2);
    assert_eq!(s.get(&1), Some(&'x'));
    assert_eq!(s.get(&2), Some(&'y'));
    assert_eq!(s.get(&3), None);
    assert_eq!(s.remove(&3), None);
}

#[test]
fn removal_before_an_unreached_last_slot() {
    let mut s: ComponentStorage<u32, char> = ComponentStorage::default();
    s.insert(5, 'x');
    s.insert(6, 'y');
    s.insert(6, 'z');
    assert_eq!(s.remove(&6), Some('z'));
    // The last slot now holds 'y', which 6 no longer reaches.
    assert_eq!(s.as_slice(), &['x', 'y']);
    assert_eq!(s.remove(&5), Some('x'));
    assert_eq!(s.as_slice(), &['y']);
    assert_eq!(s.get(&6), None);
    assert!(s.ids().is_empty());
    assert!(s.is_empty());
}
