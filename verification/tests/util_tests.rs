use shard_reconcile::util::{check_vec_eq, sort_u64, vec_u64_join};

#[test]
fn join_of_empty_list_is_empty() {
    assert_eq!(vec_u64_join(&Vec::new()), "");
}

#[test]
fn join_of_single_number() {
    assert_eq!(vec_u64_join(&vec![5]), "5");
    assert_eq!(vec_u64_join(&vec![0]), "0");
}

#[test]
fn join_of_several_numbers() {
    assert_eq!(vec_u64_join(&vec![1, 23, 456]), "1,23,456");
    assert_eq!(vec_u64_join(&vec![10, 10]), "10,10");
}

#[test]
fn join_of_largest_number() {
    assert_eq!(vec_u64_join(&vec![u64::MAX]), "18446744073709551615");
}

#[test]
fn join_keeps_the_given_order() {
    assert_eq!(vec_u64_join(&vec![3, 1, 2]), "3,1,2");
}

#[test]
fn same_identifiers_in_any_order_are_equal() {
    assert!(check_vec_eq(&vec![2, 1, 3], &vec![1, 2, 3]));
    assert!(check_vec_eq(&Vec::new(), &Vec::new()));
}

#[test]
fn different_lengths_are_not_equal() {
    assert!(!check_vec_eq(&vec![1, 2], &vec![1, 2, 3]));
}

#[test]
fn different_multiplicities_are_not_equal() {
    assert!(!check_vec_eq(&vec![1, 1, 2], &vec![1, 2, 2]));
}

#[test]
fn different_identifiers_are_not_equal() {
    assert!(!check_vec_eq(&vec![1, 4], &vec![1, 5]));
}

#[test]
fn sort_orders_identifiers() {
    assert_eq!(sort_u64(vec![3, 1, 2, 1]), vec![1, 1, 2, 3]);
    assert_eq!(sort_u64(Vec::new()), Vec::<u64>::new());
}
