use binary_tree::middle_out::middle_out;

#[test]
fn test_middle_out_of_nothing() {
    let none: Vec<u32> = Vec::new();
    assert_eq!(middle_out(&none), Vec::<u32>::new());
}

#[test]
fn test_middle_out_of_one_value() {
    assert_eq!(middle_out(&[17u32]), vec![17]);
}

#[test]
fn test_middle_out_takes_first_of_two_midpoints() {
    assert_eq!(middle_out(&[1u8, 2]), vec![1, 2]);
    assert_eq!(middle_out(&[1u8, 2, 3, 4]), vec![2, 1, 3, 4]);
    assert_eq!(middle_out(&[1u8, 2, 3, 4, 5, 6]), vec![3, 1, 2, 5, 4, 6]);
}

#[test]
fn test_middle_out_of_seven() {
    assert_eq!(middle_out(&[1usize, 2, 3, 4, 5, 6, 7]), vec![4, 2, 1, 3, 6, 5, 7]);
}

#[test]
fn test_middle_out_works_by_place_not_by_value() {
    assert_eq!(middle_out(&[9i32, 9, -3, 0, 9]), vec![-3, 9, 9, 0, 9]);
}

#[test]
fn test_middle_out_rearranges() {
    for len in 0..40usize {
        let values: Vec<usize> = (0..len).map(|i| i * 3 + 1).collect();
        let order = middle_out(&values);
        assert_eq!(order.len(), values.len());
        let mut sorted = order.clone();
        sorted.sort();
        assert_eq!(sorted, values);
    }
}

#[test]
fn test_middle_out_is_reproducible() {
    let values: Vec<u16> = (10..30).collect();
    assert_eq!(middle_out(&values), middle_out(&values));
}

#[test]
fn test_middle_out_clones_owned_values() {
    let values = vec![String::from("a"), String::from("b"), String::from("c")];
    assert_eq!(middle_out(&values), vec!["b", "a", "c"]);
    assert_eq!(values, vec!["a", "b", "c"]);
}
