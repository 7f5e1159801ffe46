use range_set::RangeSet;
use range_set::storage::pair_map::PairMap;

#[test]
fn insert() {
    let mut set: RangeSet<u32> = RangeSet::default();
    set.insert(1);
    set.insert(3);
    set.insert(7);
    set.insert(5);
    set.insert(4);
    set.insert(4);
    set.insert(1);

    let expected = vec![(1_u32, 1_u32), (3, 5), (7, 7)];
    assert_eq!(set.to_pairs(), expected);
}

#[test]
fn compliment_round_trip() {
    let mut expected: RangeSet<u32> = RangeSet::default();
    expected.insert(1);
    expected.insert(3);
    expected.insert(7);
    expected.insert(5);
    expected.insert(4);

    let set = expected.clone().into_compliment().into_compliment();

    assert_eq!(set.to_pairs(), expected.to_pairs());
}

#[test]
fn insert_reports_already_present() {
    let mut set: RangeSet<u32> = RangeSet::default();
    assert!(!set.insert(9));
    assert!(set.insert(9));
    assert!(!set.insert(2));
    assert!(set.insert(2));
    assert_eq!(set.to_pairs(), vec![(2_u32, 2_u32), (9, 9)]);
}

#[test]
fn scenario_ascending_with_gaps() {
    let mut set: RangeSet<u32> = RangeSet::default();
    for v in [1_u32, 3, 4, 5, 6, 8] {
        set.insert(v);
    }
    assert_eq!(set.to_pairs(), vec![(1_u32, 1_u32), (3, 6), (8, 8)]);
}

#[test]
fn scenario_mixed_order() {
    let mut set: RangeSet<u32> = RangeSet::default();
    for v in [1_u32, 3, 7, 5, 4] {
        set.insert(v);
    }
    assert_eq!(set.to_pairs(), vec![(1_u32, 1_u32), (3, 5), (7, 7)]);
}

#[test]
fn order_independence() {
    let mut first: RangeSet<u32> = RangeSet::default();
    for v in [8_u32, 1, 6, 3, 5, 4] {
        first.insert(v);
    }
    let mut second: RangeSet<u32> = RangeSet::default();
    for v in [1_u32, 3, 4, 5, 6, 8] {
        second.insert(v);
    }
    assert_eq!(first.to_pairs(), second.to_pairs());
}

#[test]
fn containment_after_inserts() {
    let mut set: RangeSet<u32> = RangeSet::default();
    for v in [1_u32, 3, 4, 5] {
        set.insert(v);
    }
    assert!(set.contains(&1));
    assert!(set.contains(&3));
    assert!(set.contains(&4));
    assert!(set.contains(&5));
    assert!(!set.contains(&0));
    assert!(!set.contains(&2));
    assert!(!set.contains(&6));
}

#[test]
fn coalescing_leaves_no_adjacent_runs() {
    let mut set: RangeSet<u32> = RangeSet::default();
    for v in [5_u32, 1, 2, 9, 3, 8, 100, 4, 7] {
        set.insert(v);
    }
    let pairs = set.to_pairs();
    assert_eq!(pairs, vec![(1_u32, 5_u32), (7, 9), (100, 100)]);
    for pair in &pairs {
        assert!(pair.0 <= pair.1);
    }
    for window in pairs.windows(2) {
        assert!(window[1].0 > window[0].1 + 1);
    }
}

#[test]
fn compliment_with_interior_gaps() {
    let set: RangeSet<u32> = RangeSet::from_pairs(&vec![(3_u32, 4_u32), (9, 11)]);
    let compliment = set.into_compliment();
    assert_eq!(
        compliment.to_pairs(),
        vec![(0_u32, 2_u32), (5, 8), (12, u32::MAX)]
    );
}

#[test]
fn compliment_leading_gap_suppressed() {
    let set: RangeSet<u32> = RangeSet::from_pairs(&vec![(0_u32, 4_u32), (9, 11)]);
    let compliment = set.into_compliment();
    assert_eq!(compliment.to_pairs(), vec![(5_u32, 8_u32), (12, u32::MAX)]);
}

#[test]
fn compliment_trailing_gap_suppressed() {
    let set: RangeSet<u32> = RangeSet::from_pairs(&vec![(3_u32, 4_u32), (9, u32::MAX)]);
    let compliment = set.into_compliment();
    assert_eq!(compliment.to_pairs(), vec![(0_u32, 2_u32), (5, 8)]);
}

#[test]
fn compliment_of_empty_is_full() {
    let set: RangeSet<u32> = RangeSet::default();
    let compliment = set.into_compliment();
    assert_eq!(compliment.to_pairs(), vec![(0_u32, u32::MAX)]);
    let back = compliment.into_compliment();
    assert!(back.to_pairs().is_empty());
}

#[test]
fn boundary_values() {
    let mut set: RangeSet<u32> = RangeSet::default();
    set.insert(u32::MAX);
    set.insert(u32::MAX - 1);
    set.insert(0);
    assert_eq!(
        set.to_pairs(),
        vec![(0_u32, 0_u32), (u32::MAX - 1, u32::MAX)]
    );
    let compliment = set.into_compliment();
    assert_eq!(compliment.to_pairs(), vec![(1_u32, u32::MAX - 2)]);
}

#[test]
fn signed_domain() {
    let mut set: RangeSet<i32> = RangeSet::default();
    set.insert(-1);
    set.insert(0);
    set.insert(1);
    set.insert(5);
    assert_eq!(set.to_pairs(), vec![(-1_i32, 1_i32), (5, 5)]);
    assert!(set.contains(&0));
    assert!(!set.contains(&2));
    let compliment = set.into_compliment();
    assert_eq!(
        compliment.to_pairs(),
        vec![(i32::MIN, -2), (2, 4), (6, i32::MAX)]
    );
}

#[test]
fn pair_map_backing() {
    let mut set: RangeSet<u32, PairMap<u32>> = RangeSet::default();
    set.insert(2);
    set.insert(1);
    assert!(set.contains(&1));
    assert!(!set.contains(&3));
    assert_eq!(set.to_pairs(), vec![(1_u32, 2_u32)]);
    let compliment = set.into_compliment();
    assert_eq!(compliment.to_pairs(), vec![(0_u32, 0_u32), (3, u32::MAX)]);
}

#[test]
fn bulk_load_round_trip() {
    let pairs = vec![(2_u32, 4_u32), (8, 8), (10, 20)];
    let set: RangeSet<u32> = RangeSet::from_pairs(&pairs);
    assert_eq!(set.to_pairs(), pairs);
    assert!(set.contains(&15));
    assert!(!set.contains(&9));
}

#[test]
fn checked_bulk_load() {
    let good = vec![(2_u32, 4_u32), (8, 9)];
    let set = RangeSet::<u32>::try_from_pairs(&good).expect("separated ascending pairs load");
    assert_eq!(set.to_pairs(), good);

    let unordered = vec![(4_u32, 2_u32)];
    assert!(RangeSet::<u32>::try_from_pairs(&unordered).is_none());

    let adjacent = vec![(2_u32, 4_u32), (5, 9)];
    assert!(RangeSet::<u32>::try_from_pairs(&adjacent).is_none());

    let overlapping = vec![(2_u32, 4_u32), (3, 9)];
    assert!(RangeSet::<u32>::try_from_pairs(&overlapping).is_none());

    let full_domain = vec![(0_u32, u32::MAX)];
    assert!(RangeSet::<u32>::try_from_pairs(&full_domain).is_some());
}
