use range_set::element::Element;
use range_set::storage::element_set::ElementSet;
use range_set::storage::pair_map::PairMap;
use range_set::storage::Storage;

#[test]
fn btreemap_contains() {
    let input: Vec<(i32, i32)> = vec![(1, 2), (5, 10)];
    let map: PairMap<i32> = PairMap::from_exclusive_pairs(input);

    assert!(map.contains(&1));
    assert!(!map.contains(&2));
    assert!(!map.contains(&4));
    assert!(map.contains(&5));
    assert!(map.contains(&9));
    assert!(!map.contains(&10));
}

#[test]
fn adjacent_elements() {
    let mut storage: ElementSet<u32> = Storage::new();
    storage.insert_range(Element::from(1_u32));
    storage.insert_range(Element::from(3_u32));

    let prev = storage.prev_range(&2).map(|e| *e.start());
    let next = storage.next_range(&2).map(|e| *e.start());
    assert_eq!(prev, Some(1_u32));
    assert_eq!(next, Some(3_u32));

    assert_eq!(storage.prev_range(&1), None);
    assert_eq!(storage.next_range(&4), None);
}

#[test]
fn take_adjacent() {
    let mut storage: ElementSet<u32> = Storage::new();
    storage.insert_range(Element::new(1_u32, 2_u32));
    storage.insert_range(Element::new(5_u32, 6_u32));

    assert!(storage.take_prev_adjacent(&4).is_none());
    assert!(storage.take_next_adjacent(&3).is_none());

    let below = storage.take_prev_adjacent(&3).expect("run ending at 2 is adjacent below 3");
    assert_eq!((*below.start(), *below.end()), (1_u32, 2_u32));
    assert!(!storage.contains(&1));

    let above = storage.take_next_adjacent(&4).expect("run starting at 5 is adjacent above 4");
    assert_eq!((*above.start(), *above.end()), (5_u32, 6_u32));
    assert!(!storage.contains(&5));
}

#[test]
fn pair_map_take_adjacent() {
    let mut storage: PairMap<u32> = Storage::new();
    storage.insert_range(Element::new(1_u32, 2_u32));
    storage.insert_range(Element::new(5_u32, 6_u32));

    assert!(storage.take_prev_adjacent(&4).is_none());
    let below = storage.take_prev_adjacent(&3).expect("run ending at 2 is adjacent below 3");
    assert_eq!((*below.start(), *below.end()), (1_u32, 2_u32));
    let above = storage.take_next_adjacent(&4).expect("run starting at 5 is adjacent above 4");
    assert_eq!((*above.start(), *above.end()), (5_u32, 6_u32));
    assert!(!storage.contains(&1));
    assert!(!storage.contains(&6));
}
