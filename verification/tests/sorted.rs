use group_select::sorted::{
    contains_index, intersection, is_all_below, is_sorted, is_strictly_sorted,
};

#[test]
fn intersection_keeps_common_values_in_order() {
    assert_eq!(intersection(&[1, 3, 5, 7], &[3, 4, 5, 8]), vec![3, 5]);
    assert_eq!(intersection(&[0, 2, 4, 6, 8], &[1, 2, 3, 4]), vec![2, 4]);
}

#[test]
fn intersection_of_disjoint_lists_is_empty() {
    assert_eq!(intersection(&[1, 3, 5], &[2, 4, 6]), Vec::<usize>::new());
}

#[test]
fn intersection_does_not_depend_on_argument_order() {
    let a = [0usize, 1, 4, 9, 16, 25];
    let b = [1usize, 2, 3, 4, 5, 16];
    assert_eq!(intersection(&a, &b), intersection(&b, &a));
    assert_eq!(intersection(&a, &b), vec![1, 4, 16]);
}

#[test]
fn intersection_with_itself_is_the_list() {
    let a = [2usize, 3, 5, 7, 11];
    assert_eq!(intersection(&a, &a), a.to_vec());
}

#[test]
fn intersection_with_empty_is_empty() {
    let a = [2usize, 3, 5];
    assert_eq!(intersection(&a, &[]), Vec::<usize>::new());
    assert_eq!(intersection(&[], &a), Vec::<usize>::new());
    assert_eq!(intersection(&[], &[]), Vec::<usize>::new());
}

#[test]
fn intersection_matches_a_set_computation() {
    let a: Vec<usize> = (0..40).filter(|x| x % 3 == 0).collect();
    let b: Vec<usize> = (0..40).filter(|x| x % 2 == 0).collect();
    let expected: Vec<usize> = (0..40).filter(|x| a.contains(x) && b.contains(x)).collect();
    assert_eq!(intersection(&a, &b), expected);
    assert_eq!(expected, vec![0, 6, 12, 18, 24, 30, 36]);
}

#[test]
fn intersection_counts_repeats_by_the_smaller_count() {
    assert_eq!(intersection(&[1, 1, 2], &[1, 1, 1, 3]), vec![1, 1]);
    assert_eq!(intersection(&[1, 1, 1, 2, 2], &[1, 2, 2, 2]), vec![1, 2, 2]);
}

#[test]
fn sortedness_checks() {
    assert!(is_sorted(&[]));
    assert!(is_sorted(&[4]));
    assert!(is_sorted(&[1, 1, 2]));
    assert!(!is_sorted(&[2, 1]));
    assert!(is_strictly_sorted(&[1, 2, 9]));
    assert!(!is_strictly_sorted(&[1, 1, 2]));
    assert!(!is_strictly_sorted(&[3, 2]));
}

#[test]
fn binary_search_for_an_index() {
    let a = [1usize, 4, 6, 9];
    assert!(contains_index(&a, 1));
    assert!(contains_index(&a, 9));
    assert!(contains_index(&a, 6));
    assert!(!contains_index(&a, 0));
    assert!(!contains_index(&a, 5));
    assert!(!contains_index(&a, 10));
    assert!(!contains_index(&[], 3));
}

#[test]
fn bound_check() {
    assert!(is_all_below(&[0, 1, 2], 3));
    assert!(!is_all_below(&[0, 3], 3));
    assert!(is_all_below(&[], 0));
}
