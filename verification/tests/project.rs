use group_select::formula::Assignment;
use group_select::model::{create_data, RawConfig};
use group_select::project::{chosen, names_of, project, project_all};
use group_select::solve::solve;

fn s(x: &str) -> String {
    x.to_string()
}

fn strs(xs: &[&str]) -> Vec<String> {
    xs.iter().map(|x| x.to_string()).collect()
}

fn overlapping() -> RawConfig {
    RawConfig {
        names: strs(&["f", "e", "d", "c", "b", "a"]),
        props: vec![
            (s("upper"), strs(&["c", "d", "e", "f"])),
            (s("lower"), strs(&["a", "b", "c", "d"])),
            (s("odd"), strs(&["a", "c", "e"])),
        ],
        avoid_grouping: vec![],
        ignore_groups: vec![],
        total: 4,
    }
}

#[test]
fn positions_that_hold_true() {
    assert_eq!(chosen(&vec![true, false, true, true]), vec![0, 2, 3]);
    assert_eq!(chosen(&vec![false, false]), Vec::<usize>::new());
    assert_eq!(chosen(&vec![]), Vec::<usize>::new());
}

#[test]
fn names_at_positions() {
    let names = strs(&["a", "b", "c"]);
    assert_eq!(names_of(&names, &vec![2, 0]), strs(&["c", "a"]));
    assert_eq!(names_of(&names, &vec![]), Vec::<String>::new());
}

#[test]
fn active_groups_are_reported_with_their_selected_members() {
    let d = create_data(&overlapping()).unwrap();
    let a = Assignment {
        items: vec![true, true, true, true, false, false],
        groups: vec![true, true, false],
    };
    assert_eq!(
        project(&d, &a),
        vec![(s("lower"), strs(&["a", "b", "c", "d"])), (s("odd"), strs(&["a", "c"]))]
    );
}

#[test]
fn no_active_group_gives_an_empty_report() {
    let d = create_data(&overlapping()).unwrap();
    let a = Assignment { items: vec![false; 6], groups: vec![false; 3] };
    assert_eq!(project(&d, &a), vec![]);
}

#[test]
fn solutions_are_reported_with_four_names_per_group() {
    let d = create_data(&overlapping()).unwrap();
    let sols = solve(&d, 10).unwrap();
    assert!(!sols.is_empty());
    for a in &sols {
        let report = project(&d, a);
        assert!(!report.is_empty());
        for (_, names) in &report {
            assert_eq!(names.len(), 4);
        }
    }
}

#[test]
fn every_solution_is_reported() {
    let d = create_data(&overlapping()).unwrap();
    let sols = solve(&d, 10).unwrap();
    let reports = project_all(&d, &sols);
    assert_eq!(reports.len(), sols.len());
    for (a, report) in sols.iter().zip(reports.iter()) {
        assert_eq!(report, &project(&d, a));
    }
}
