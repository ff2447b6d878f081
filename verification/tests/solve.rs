use group_select::encode::encode;
use group_select::formula::{exactly, item_vars_of, satisfies_all_in, Assignment, Formula, Var};
use group_select::model::{create_data, Data, RawConfig};
use group_select::oracle::{MAX_ARITY, MAX_COUNT};
use group_select::solve::{
    accept, enumerate, has_nul, same_assignment, solve, values, Answer, SolveError,
};

fn s(x: &str) -> String {
    x.to_string()
}

fn strs(xs: &[&str]) -> Vec<String> {
    xs.iter().map(|x| x.to_string()).collect()
}

fn two_groups(avoid: Vec<Vec<String>>, ignore: Vec<String>, total: u32) -> Data {
    let raw = RawConfig {
        names: strs(&["A", "B", "C", "D", "E", "F", "G", "H"]),
        props: vec![
            (s("G1"), strs(&["A", "B", "C", "D"])),
            (s("G2"), strs(&["E", "F", "G", "H"])),
        ],
        avoid_grouping: avoid,
        ignore_groups: ignore,
        total,
    };
    create_data(&raw).unwrap()
}

fn five_of_which_four() -> Data {
    let raw = RawConfig {
        names: strs(&["a", "b", "c", "d", "e", "f"]),
        props: vec![(s("g"), strs(&["a", "b", "c", "d", "e"]))],
        avoid_grouping: vec![],
        ignore_groups: vec![],
        total: 4,
    };
    create_data(&raw).unwrap()
}

fn selected(a: &Assignment) -> usize {
    a.items.iter().filter(|b| **b).count()
}

#[test]
fn two_disjoint_groups_and_total_eight_have_one_solution() {
    let d = two_groups(vec![], vec![], 8);
    let sols = solve(&d, 10).unwrap();
    assert_eq!(sols, vec![Assignment { items: vec![true; 8], groups: vec![true, true] }]);
}

#[test]
fn a_group_that_needs_two_avoided_items_is_never_active() {
    let d = two_groups(vec![strs(&["A", "B"])], vec![], 8);
    assert_eq!(solve(&d, 10).unwrap(), vec![]);
    let d = two_groups(vec![strs(&["A", "B"])], vec![], 4);
    let sols = solve(&d, 10).unwrap();
    assert_eq!(
        sols,
        vec![Assignment {
            items: vec![false, false, false, false, true, true, true, true],
            groups: vec![false, true],
        }]
    );
}

#[test]
fn an_ignored_group_is_never_active() {
    let d = two_groups(vec![], strs(&["G1"]), 4);
    let sols = solve(&d, 10).unwrap();
    assert_eq!(sols.len(), 1);
    for a in &sols {
        assert!(!a.groups[0]);
        assert!(a.groups[1]);
    }
    let d = two_groups(vec![], strs(&["G1"]), 8);
    assert_eq!(solve(&d, 10).unwrap(), vec![]);
}

#[test]
fn every_solution_meets_the_invariants() {
    let d = five_of_which_four();
    let cs = encode(&d);
    let sols = solve(&d, 10).unwrap();
    assert_eq!(sols.len(), 5);
    for a in &sols {
        assert_eq!(a.items.len(), 6);
        assert_eq!(a.groups, vec![true]);
        assert_eq!(selected(a), 4);
        assert!(!a.items[5]);
        assert!(satisfies_all_in(&cs, a));
    }
}

#[test]
fn solutions_are_pairwise_distinct() {
    let d = five_of_which_four();
    let sols = solve(&d, 10).unwrap();
    for i in 0..sols.len() {
        for j in 0..i {
            assert_ne!(sols[i], sols[j]);
            assert!(!same_assignment(&sols[i], &sols[j]));
        }
    }
}

#[test]
fn no_more_solutions_than_asked_for() {
    let d = five_of_which_four();
    assert_eq!(solve(&d, 3).unwrap().len(), 3);
    assert_eq!(solve(&d, 0).unwrap().len(), 0);
    assert_eq!(solve(&d, 5).unwrap().len(), 5);
}

#[test]
fn an_unsatisfiable_model_has_no_solution_and_is_no_error() {
    let d = two_groups(vec![], vec![], 16);
    assert_eq!(solve(&d, 10), Ok(vec![]));
}

#[test]
fn avoided_pairs_are_never_selected_together_in_an_active_group() {
    let raw = RawConfig {
        names: strs(&["a", "b", "c", "d", "e", "f"]),
        props: vec![(s("g"), strs(&["a", "b", "c", "d", "e", "f"]))],
        avoid_grouping: vec![strs(&["a", "b", "c"])],
        ignore_groups: vec![],
        total: 4,
    };
    let d = create_data(&raw).unwrap();
    let sols = solve(&d, 20).unwrap();
    assert_eq!(sols.len(), 3);
    for a in &sols {
        assert!(a.groups[0]);
        let avoided = a.items[0..3].iter().filter(|b| **b).count();
        assert_eq!(avoided, 1);
        assert!(a.items[3] && a.items[4] && a.items[5]);
    }
}

#[test]
fn a_name_with_a_nul_character_is_rejected() {
    let d = Data {
        names: vec![s("a\0b")],
        props: vec![],
        avoid_grouping: vec![],
        ignore_groups: vec![],
        total: 0,
    };
    assert_eq!(solve(&d, 1), Err(SolveError::BadName));
    let d = Data {
        names: vec![s("a")],
        props: vec![(s("\0"), vec![0])],
        avoid_grouping: vec![],
        ignore_groups: vec![],
        total: 0,
    };
    assert_eq!(solve(&d, 1), Err(SolveError::BadName));
    assert!(has_nul("x\0"));
    assert!(!has_nul("x0"));
    assert!(!has_nul(""));
}

fn answer(items: &[bool], groups: &[bool]) -> Answer {
    Answer {
        items: items.iter().map(|b| Some(*b)).collect(),
        groups: groups.iter().map(|b| Some(*b)).collect(),
    }
}

#[test]
fn accepted_answers_become_assignments() {
    let d = five_of_which_four();
    let cs = encode(&d);
    let answers = vec![
        answer(&[true, true, true, true, false, false], &[true]),
        answer(&[false, true, true, true, true, false], &[true]),
    ];
    assert_eq!(
        accept(&cs, 6, 1, &answers),
        Ok(vec![
            Assignment { items: vec![true, true, true, true, false, false], groups: vec![true] },
            Assignment { items: vec![false, true, true, true, true, false], groups: vec![true] },
        ])
    );
    assert_eq!(accept(&cs, 6, 1, &vec![]), Ok(vec![]));
}

#[test]
fn an_answer_that_breaks_a_formula_is_refused() {
    let d = five_of_which_four();
    let cs = encode(&d);
    let three = vec![answer(&[true, true, true, false, false, false], &[true])];
    assert_eq!(accept(&cs, 6, 1, &three), Err(SolveError::Oracle));
    let outside = vec![answer(&[true, true, true, false, false, true], &[true])];
    assert_eq!(accept(&cs, 6, 1, &outside), Err(SolveError::Oracle));
    let inactive = vec![answer(&[true, true, true, true, false, false], &[false])];
    assert_eq!(accept(&cs, 6, 1, &inactive), Err(SolveError::Oracle));
}

#[test]
fn a_repeated_answer_is_refused() {
    let d = five_of_which_four();
    let cs = encode(&d);
    let a = answer(&[true, true, true, true, false, false], &[true]);
    let b = answer(&[true, true, true, false, true, false], &[true]);
    assert_eq!(accept(&cs, 6, 1, &vec![a.clone(), b, a]), Err(SolveError::Oracle));
}

#[test]
fn an_incomplete_or_misshapen_answer_is_refused() {
    let d = five_of_which_four();
    let cs = encode(&d);
    let mut a = answer(&[true, true, true, true, false, false], &[true]);
    a.items[5] = None;
    assert_eq!(accept(&cs, 6, 1, &vec![a]), Err(SolveError::Oracle));
    let mut a = answer(&[true, true, true, true, false, false], &[true]);
    a.groups[0] = None;
    assert_eq!(accept(&cs, 6, 1, &vec![a]), Err(SolveError::Oracle));
    let short = answer(&[true, true, true, true, false], &[true]);
    assert_eq!(accept(&cs, 6, 1, &vec![short]), Err(SolveError::Oracle));
    let long = answer(&[true, true, true, true, false, false], &[true, false]);
    assert_eq!(accept(&cs, 6, 1, &vec![long]), Err(SolveError::Oracle));
}

#[test]
fn values_of_a_complete_list() {
    assert_eq!(values(&vec![Some(true), Some(false)]), Some(vec![true, false]));
    assert_eq!(values(&vec![Some(true), None]), None);
    assert_eq!(values(&vec![]), Some(vec![]));
}

fn binomial(n: u32, k: u32) -> usize {
    if k > n {
        return 0;
    }
    let mut r: usize = 1;
    for i in 0..k {
        r = r * (n - i) as usize / (i + 1) as usize;
    }
    r
}

#[test]
fn exactly_k_of_five_has_only_solutions_with_k_true() {
    let names = strs(&["v0", "v1", "v2", "v3", "v4"]);
    let vars = item_vars_of(&[0, 1, 2, 3, 4]);
    for k in 0..=6u32 {
        let cs = vec![exactly(&vars, k)];
        let sols = enumerate(&cs, &names, &vec![], 40).unwrap();
        assert_eq!(sols.len(), binomial(5, k));
        for a in &sols {
            assert_eq!(selected(a) as u32, k);
            assert_eq!(a.groups, Vec::<bool>::new());
        }
    }
}

#[test]
fn exactly_k_together_with_another_total_has_no_solution() {
    let names = strs(&["v0", "v1", "v2", "v3", "v4"]);
    let vars = item_vars_of(&[0, 1, 2, 3, 4]);
    for k in 0..=5u32 {
        let cs = vec![exactly(&vars, k), exactly(&vars, 3)];
        let sols = enumerate(&cs, &names, &vec![], 40).unwrap();
        if k == 3 {
            assert_eq!(sols.len(), 10);
        } else {
            assert_eq!(sols, vec![]);
        }
    }
}

#[test]
fn enumerate_rejects_a_group_name_with_a_nul_character() {
    let r = enumerate(&vec![], &strs(&["a"]), &strs(&["g\0"]), 1);
    assert_eq!(r, Err(SolveError::BadName));
}

#[test]
fn a_variable_beyond_the_names_is_false_for_the_solver() {
    let names = strs(&["a"]);
    let cs = vec![Formula::Var(Var::Item(1))];
    assert_eq!(enumerate(&cs, &names, &vec![], 5), Ok(vec![]));
    let cs = vec![Formula::not(Formula::Var(Var::Group(0))), Formula::Var(Var::Item(0))];
    assert_eq!(
        enumerate(&cs, &names, &vec![], 5),
        Ok(vec![Assignment { items: vec![true], groups: vec![] }])
    );
}

#[test]
fn limits_of_the_solver() {
    assert_eq!(MAX_ARITY, 0xffff_ffff);
    assert_eq!(MAX_COUNT, 0x7fff_ffff);
}

#[test]
fn a_count_beyond_what_the_solver_takes_is_rejected() {
    let names = strs(&["a", "b"]);
    let vars = item_vars_of(&[0, 1]);
    let none: Vec<String> = vec![];
    for k in [0x8000_0000u32, 0x8000_0001, u32::MAX] {
        let cs = vec![Formula::AtLeast(vars.clone(), k)];
        assert_eq!(enumerate(&cs, &names, &none, 5), Err(SolveError::TooLarge));
        let cs = vec![Formula::AtMost(vars.clone(), k)];
        assert_eq!(enumerate(&cs, &names, &none, 5), Err(SolveError::TooLarge));
        let cs = vec![exactly(&vars, k)];
        assert_eq!(enumerate(&cs, &names, &none, 0), Err(SolveError::TooLarge));
        let cs = vec![Formula::not(Formula::implies(
            Formula::Var(Var::Item(0)),
            Formula::or(vec![Formula::AtMost(vars.clone(), k)]),
        ))];
        assert_eq!(enumerate(&cs, &names, &none, 5), Err(SolveError::TooLarge));
    }
}

#[test]
fn the_largest_count_is_taken() {
    let names = strs(&["a", "b"]);
    let vars = item_vars_of(&[0, 1]);
    let cs = vec![Formula::AtLeast(vars.clone(), MAX_COUNT)];
    assert_eq!(enumerate(&cs, &names, &vec![], 5), Ok(vec![]));
    let cs = vec![Formula::AtMost(vars.clone(), MAX_COUNT), exactly(&vars, 2)];
    assert_eq!(
        enumerate(&cs, &names, &vec![], 5),
        Ok(vec![Assignment { items: vec![true, true], groups: vec![] }])
    );
}

#[test]
fn a_total_beyond_what_the_solver_takes_is_rejected() {
    let d = two_groups(vec![], vec![], u32::MAX);
    assert_eq!(solve(&d, 10), Err(SolveError::TooLarge));
    let d = two_groups(vec![], vec![], 0x7fff_ffff);
    assert_eq!(solve(&d, 10), Ok(vec![]));
}

#[test]
fn a_bad_name_is_reported_before_a_size() {
    let cs = vec![exactly(&item_vars_of(&[0]), u32::MAX)];
    assert_eq!(enumerate(&cs, &strs(&["ab"]), &vec![], 1), Err(SolveError::TooLarge));
    assert_eq!(enumerate(&cs, &strs(&["a\0b"]), &vec![], 1), Err(SolveError::BadName));
}

#[test]
fn counting_over_no_variables_is_taken() {
    let none: Vec<String> = vec![];
    let cs = vec![exactly(&vec![], 0)];
    assert_eq!(
        enumerate(&cs, &none, &none, 5),
        Ok(vec![Assignment { items: vec![], groups: vec![] }])
    );
    let cs = vec![exactly(&vec![], 1)];
    assert_eq!(enumerate(&cs, &none, &none, 5), Ok(vec![]));
}

#[test]
fn the_empty_model_has_the_empty_selection() {
    let d = Data { names: vec![], props: vec![], avoid_grouping: vec![], ignore_groups: vec![], total: 0 };
    assert_eq!(solve(&d, 5), Ok(vec![Assignment { items: vec![], groups: vec![] }]));
}

#[test]
fn a_group_without_members_is_never_active() {
    let d = Data {
        names: strs(&["a", "b", "c", "d"]),
        props: vec![(s("empty"), vec![]), (s("full"), vec![0, 1, 2, 3])],
        avoid_grouping: vec![],
        ignore_groups: vec![],
        total: 4,
    };
    assert_eq!(
        solve(&d, 5),
        Ok(vec![Assignment { items: vec![true; 4], groups: vec![false, true] }])
    );
}
