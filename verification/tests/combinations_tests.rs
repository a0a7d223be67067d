use armamagna::combinations::RepeatedCombinationsWithSum;

#[test]
fn test_basic_combinations() {
    let values = vec![1, 2, 3];
    let rcs = RepeatedCombinationsWithSum::new(5, 2, 3, values);

    // Check number of sets
    assert!(rcs.get_sets_number() > 0);

    // Check that all sets sum to 5
    for i in 0..rcs.get_sets_number() {
        let s = rcs.get_set(i);
        let sum: usize = s.iter().sum();
        assert_eq!(sum, 5);
        assert!(s.len() >= 2 && s.len() <= 3); // cardinality constraint
    }
}

#[test]
fn test_no_solution() {
    let values = vec![10, 20, 30];
    let rcs = RepeatedCombinationsWithSum::new(5, 1, 3, values);
    assert_eq!(rcs.get_sets_number(), 0); // no possible set sums to 5
}

#[test]
fn test_single_value_multiple_times() {
    let values = vec![1];
    let rcs = RepeatedCombinationsWithSum::new(3, 3, 3, values);

    assert_eq!(rcs.get_sets_number(), 1);
    let s = rcs.get_set(0);
    assert_eq!(s, &vec![1, 1, 1]);
}

#[test]
fn test_combinations_distinct_and_ordered() {
    let values = vec![1, 2];
    let rcs = RepeatedCombinationsWithSum::new(4, 2, 3, values);
    // exactly [2, 2] and [1, 1, 2]
    assert_eq!(rcs.get_sets_number(), 2);
    let mut seen: Vec<Vec<usize>> = Vec::new();
    for i in 0..rcs.get_sets_number() {
        let s = rcs.get_set(i).clone();
        // non-decreasing order inside each set
        for w in s.windows(2) {
            assert!(w[0] <= w[1]);
        }
        // no set appears twice
        assert!(!seen.contains(&s));
        seen.push(s);
    }
    assert!(seen.contains(&vec![2, 2]));
    assert!(seen.contains(&vec![1, 1, 2]));
}
