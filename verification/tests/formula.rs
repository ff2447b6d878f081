use group_select::formula::{
    copy_vars, count_true_in, exactly, group_vars_of, item_vars_of, satisfies_all_in, Assignment,
    Formula, Var,
};

fn items(bits: &[bool]) -> Assignment {
    Assignment { items: bits.to_vec(), groups: vec![] }
}

fn five(code: u32) -> Vec<bool> {
    (0..5).map(|i| code & (1 << i) != 0).collect()
}

#[test]
fn exactly_is_at_least_and_at_most() {
    let vars = vec![Var::Item(0), Var::Item(2)];
    assert_eq!(
        exactly(&vars, 1),
        Formula::And(vec![
            Formula::AtLeast(vec![Var::Item(0), Var::Item(2)], 1),
            Formula::AtMost(vec![Var::Item(0), Var::Item(2)], 1),
        ])
    );
}

#[test]
fn exactly_holds_if_and_only_if_the_count_is_k() {
    let vars = item_vars_of(&[0, 1, 2, 3, 4]);
    for k in 0..=6u32 {
        let f = exactly(&vars, k);
        for code in 0..32u32 {
            let a = items(&five(code));
            assert_eq!(f.holds_in(&a), code.count_ones() == k);
        }
    }
}

#[test]
fn exactly_of_no_variables() {
    let a = items(&[true, false]);
    assert!(exactly(&vec![], 0).holds_in(&a));
    assert!(!exactly(&vec![], 1).holds_in(&a));
}

#[test]
fn count_of_true_variables() {
    let a = Assignment { items: vec![true, false, true], groups: vec![false, true] };
    let vars = vec![Var::Item(0), Var::Item(1), Var::Item(2), Var::Group(0), Var::Group(1)];
    assert_eq!(count_true_in(&vars, &a), 3);
    assert_eq!(count_true_in(&vec![Var::Item(0), Var::Item(0)], &a), 2);
    assert_eq!(count_true_in(&vec![], &a), 0);
}

#[test]
fn a_variable_beyond_the_assignment_is_false() {
    let a = Assignment { items: vec![true], groups: vec![] };
    assert!(Var::Item(0).value_in(&a));
    assert!(!Var::Item(1).value_in(&a));
    assert!(!Var::Group(0).value_in(&a));
}

#[test]
fn connectives_are_evaluated() {
    let a = Assignment { items: vec![true, false], groups: vec![true] };
    let t = || Formula::Var(Var::Item(0));
    let f = || Formula::Var(Var::Item(1));
    assert!(t().holds_in(&a));
    assert!(!f().holds_in(&a));
    assert!(Formula::not(f()).holds_in(&a));
    assert!(!Formula::not(t()).holds_in(&a));
    assert!(Formula::and(vec![]).holds_in(&a));
    assert!(Formula::and(vec![t(), t()]).holds_in(&a));
    assert!(!Formula::and(vec![t(), f()]).holds_in(&a));
    assert!(!Formula::or(vec![]).holds_in(&a));
    assert!(Formula::or(vec![f(), t()]).holds_in(&a));
    assert!(!Formula::or(vec![f(), f()]).holds_in(&a));
    assert!(Formula::implies(f(), f()).holds_in(&a));
    assert!(Formula::implies(f(), t()).holds_in(&a));
    assert!(Formula::implies(t(), t()).holds_in(&a));
    assert!(!Formula::implies(t(), f()).holds_in(&a));
    assert!(Formula::any_of(&vec![Var::Item(1), Var::Group(0)]).holds_in(&a));
    assert!(!Formula::any_of(&vec![Var::Item(1)]).holds_in(&a));
    assert!(!Formula::any_of(&vec![]).holds_in(&a));
}

#[test]
fn builders_give_the_expected_shapes() {
    assert_eq!(
        Formula::any_of(&vec![Var::Item(3), Var::Group(1)]),
        Formula::Or(vec![Formula::Var(Var::Item(3)), Formula::Var(Var::Group(1))])
    );
    assert_eq!(
        Formula::implies(Formula::Var(Var::Item(0)), Formula::Var(Var::Item(1))),
        Formula::Implies(
            Box::new(Formula::Var(Var::Item(0))),
            Box::new(Formula::Var(Var::Item(1)))
        )
    );
    assert_eq!(
        Formula::not(Formula::Var(Var::Group(2))),
        Formula::Not(Box::new(Formula::Var(Var::Group(2))))
    );
    assert_eq!(item_vars_of(&[4, 7]), vec![Var::Item(4), Var::Item(7)]);
    assert_eq!(group_vars_of(&[1]), vec![Var::Group(1)]);
    assert_eq!(copy_vars(&vec![Var::Group(1), Var::Item(0)]), vec![Var::Group(1), Var::Item(0)]);
}

#[test]
fn a_list_is_satisfied_if_every_formula_is() {
    let a = Assignment { items: vec![true, false], groups: vec![] };
    let t = || Formula::Var(Var::Item(0));
    let f = || Formula::Var(Var::Item(1));
    assert!(satisfies_all_in(&vec![], &a));
    assert!(satisfies_all_in(&vec![t(), Formula::not(f())], &a));
    assert!(!satisfies_all_in(&vec![t(), f()], &a));
}
