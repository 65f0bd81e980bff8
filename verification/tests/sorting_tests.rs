use probability_calculator::sorting::sort_ascending;

#[test]
fn sorting_puts_values_in_ascending_order() {
    assert_eq!(sort_ascending(&vec![3, 1, 2]), vec![1, 2, 3]);
    assert_eq!(sort_ascending(&vec![5, 5, -1, 5, 0]), vec![-1, 0, 5, 5, 5]);
    assert_eq!(sort_ascending(&vec![i32::MAX, i32::MIN, 0]), vec![i32::MIN, 0, i32::MAX]);
    assert_eq!(sort_ascending(&vec![7]), vec![7]);
    assert_eq!(sort_ascending(&Vec::new()), Vec::<i32>::new());
}

#[test]
fn sorting_keeps_every_value() {
    let mut state: u32 = 12345;
    let mut values = Vec::new();
    for _ in 0..500 {
        state = state.wrapping_mul(1_664_525).wrapping_add(1_013_904_223);
        values.push((state >> 8) as i32 % 50 - 25);
    }
    let mut expected = values.clone();
    expected.sort();
    assert_eq!(sort_ascending(&values), expected);
    // Sorting what is sorted changes nothing.
    assert_eq!(sort_ascending(&expected), expected);
}
