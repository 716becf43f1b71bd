use guillotine::order::sort_order;

#[test]
fn equal_keys_keep_their_order() {
    assert_eq!(sort_order(&vec![3, 1, 2, 1]), vec![1, 3, 2, 0]);
    assert_eq!(sort_order(&vec![5, 5, 5]), vec![0, 1, 2]);
    assert!(sort_order(&vec![]).is_empty());
}
