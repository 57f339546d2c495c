use cn_input_encode::order::weight_order;

#[test]
fn weight_order_heaviest_first() {
    assert_eq!(weight_order(&[3, 9, -1, 4]), vec![1, 3, 0, 2]);
}

#[test]
fn weight_order_keeps_text_order_among_equals() {
    assert_eq!(weight_order(&[0, 0, 0]), vec![0, 1, 2]);
    assert_eq!(weight_order(&[2, 7, 2, 7, 2]), vec![1, 3, 0, 2, 4]);
}

#[test]
fn weight_order_of_nothing_and_one() {
    assert_eq!(weight_order(&[]), Vec::<usize>::new());
    assert_eq!(weight_order(&[i64::MIN]), vec![0]);
}

#[test]
fn weight_order_matches_a_stable_sort() {
    let keys: Vec<i64> = (0..200).map(|i: i64| (i * 7919) % 13 - 6).collect();
    let mut expected: Vec<usize> = (0..keys.len()).collect();
    expected.sort_by(|a, b| keys[*b].cmp(&keys[*a]));
    assert_eq!(weight_order(&keys), expected);
}
