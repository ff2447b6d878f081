use group_select::order::{insert_unique, is_strictly_ranked, search, Ranked};

fn s(x: &str) -> String {
    x.to_string()
}

#[test]
fn names_are_ordered_by_code_point() {
    assert!(s("a").before(&s("b")));
    assert!(!s("b").before(&s("a")));
    assert!(s("a").before(&s("ab")));
    assert!(!s("ab").before(&s("a")));
    assert!(!s("ab").before(&s("ab")));
    assert!(s("").before(&s("a")));
    assert!(s("Z").before(&s("a")));
    assert!(s("z").before(&s("é")));
    assert!(s("é").before(&s("漢")));
}

#[test]
fn name_order_agrees_with_the_standard_order() {
    let names = ["", "a", "A", "ab", "abc", "b", "é", "e", "漢字", "zz", "10", "9"];
    for x in names {
        for y in names {
            assert_eq!(s(x).before(&s(y)), x < y);
        }
    }
}

#[test]
fn index_lists_are_ordered_lexicographically() {
    assert!(vec![1usize, 2].before(&vec![1, 3]));
    assert!(vec![1usize].before(&vec![1, 0]));
    assert!(Vec::<usize>::new().before(&vec![0]));
    assert!(!vec![2usize].before(&vec![1, 9]));
    assert!(!vec![1usize, 2].before(&vec![1, 2]));
    assert!(3usize.before(&4));
    assert!(!4usize.before(&4));
}

#[test]
fn groups_are_ordered_by_name() {
    let a = (s("alpha"), vec![9usize]);
    let b = (s("beta"), vec![0usize]);
    assert!(a.before(&b));
    assert!(!b.before(&a));
}

#[test]
fn search_finds_the_position_or_the_gap() {
    let v = vec![s("b"), s("d"), s("f")];
    assert_eq!(search(&v, &s("b")), Ok(0));
    assert_eq!(search(&v, &s("d")), Ok(1));
    assert_eq!(search(&v, &s("f")), Ok(2));
    assert_eq!(search(&v, &s("a")), Err(0));
    assert_eq!(search(&v, &s("c")), Err(1));
    assert_eq!(search(&v, &s("g")), Err(3));
    assert_eq!(search(&Vec::<String>::new(), &s("a")), Err(0));
}

#[test]
fn insert_unique_keeps_the_list_ascending_and_free_of_repeats() {
    let mut v: Vec<usize> = Vec::new();
    assert_eq!(insert_unique(&mut v, 5), 0);
    assert_eq!(insert_unique(&mut v, 1), 0);
    assert_eq!(insert_unique(&mut v, 3), 1);
    assert_eq!(insert_unique(&mut v, 5), 2);
    assert_eq!(insert_unique(&mut v, 9), 3);
    assert_eq!(v, vec![1, 3, 5, 9]);
}

#[test]
fn strictly_ranked_check() {
    assert!(is_strictly_ranked(&vec![s("a"), s("b"), s("c")]));
    assert!(!is_strictly_ranked(&vec![s("a"), s("a")]));
    assert!(!is_strictly_ranked(&vec![s("b"), s("a")]));
    assert!(is_strictly_ranked(&Vec::<String>::new()));
    assert!(is_strictly_ranked(&vec![vec![0usize], vec![0, 1], vec![1]]));
}
