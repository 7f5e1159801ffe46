use range_set::compliment::gaps;

#[test]
fn gaps_between_interior_runs() {
    let input: Vec<(u32, u32)> = vec![(3, 4), (9, 11)];
    let expected = vec![(0_u32, 2_u32), (5, 8), (12, u32::MAX)];
    assert_eq!(gaps(&input), expected);
}

#[test]
fn gaps_with_run_at_minimum() {
    let input: Vec<(u32, u32)> = vec![(0, 4), (9, 11)];
    let expected = vec![(5_u32, 8_u32), (12, u32::MAX)];
    assert_eq!(gaps(&input), expected);
}

#[test]
fn gaps_with_run_at_maximum() {
    let input: Vec<(u32, u32)> = vec![(3, 4), (9, u32::MAX)];
    let expected = vec![(0_u32, 2_u32), (5, 8)];
    assert_eq!(gaps(&input), expected);
}

#[test]
fn gaps_of_nothing_is_everything() {
    let input: Vec<(u32, u32)> = Vec::new();
    assert_eq!(gaps(&input), vec![(0_u32, u32::MAX)]);
}

#[test]
fn gaps_of_everything_is_nothing() {
    let input: Vec<(u32, u32)> = vec![(0, u32::MAX)];
    assert_eq!(gaps(&input), Vec::<(u32, u32)>::new());
}
