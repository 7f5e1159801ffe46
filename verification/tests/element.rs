use range_set::element::Element;
use range_set::set::Element as Value;

#[test]
fn getters() {
    let element = Element::new(12_u32, 987_u32);
    assert_eq!(*element.start(), 12_u32);
    assert_eq!(*element.end(), 987_u32);
}

#[test]
fn element_contains() {
    let element = Element::new(12_u32, 987_u32);
    assert!(element.contains(&100_u32));
    assert!(!element.contains(&10_u32));
}

#[test]
fn conversions() {
    let single_element = Element::from(100_u32);
    assert_eq!(*single_element.start(), 100_u32);
    assert_eq!(*single_element.end(), 100_u32);
    let element = Element::new(1_u32, 10_u32);
    let tuple: (u32, u32) = element.into_inner();
    assert_eq!(tuple, (1_u32, 10_u32));
    let new_element: Element<u32> = tuple.into();
    assert_eq!(*new_element.start(), 1_u32);
    assert_eq!(*new_element.end(), 10_u32);
}

#[test]
fn extend_right() {
    let mut element = Element::new(4_u32, 7_u32);
    element.extend_right_unchecked(10);
    assert_eq!(*element.start(), 4_u32);
    assert_eq!(*element.end(), 10_u32);
}

#[test]
fn extend_left() {
    let mut element = Element::new(4_u32, 7_u32);
    element.extend_left_unchecked(2);
    assert_eq!(*element.start(), 2_u32);
    assert_eq!(*element.end(), 7_u32);
}

#[test]
fn adjacency() {
    let element = Element::new(3_u32, 6_u32);
    assert!(element.is_one_less_than(&7));
    assert!(!element.is_one_less_than(&8));
    assert!(!element.is_one_less_than(&6));
    assert!(element.is_one_more_than(&2));
    assert!(!element.is_one_more_than(&1));
}

#[test]
fn adjacency_at_domain_boundaries() {
    let top = Element::new(u32::MAX - 1, u32::MAX);
    assert!(!top.is_one_less_than(&0));
    let bottom = Element::new(0_u32, 3_u32);
    assert!(!bottom.is_one_more_than(&0));
}

#[test]
fn successor_predecessor_consistency() {
    assert_eq!(Value::next(5_u32), Some(6));
    assert_eq!(Value::prev(5_u32), Some(4));
    assert_eq!(Value::next(4_u32), Some(5));
    assert_eq!(Value::prev(0_u32), None);
    assert_eq!(Value::next(u32::MAX), None);
    assert_eq!(Value::prev(i32::MIN), None);
    assert_eq!(Value::next(i32::MAX), None);
    assert_eq!(Value::next(-1_i32), Some(0));
    assert_eq!(Value::prev(0_i32), Some(-1));
}
