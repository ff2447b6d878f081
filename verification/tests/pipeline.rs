use group_select::config::{build_model, ConfigValue};
use group_select::encode::DEFAULT_TOTAL;
use group_select::project::project_all;
use group_select::solve::{solve, DEFAULT_LIMIT};
use toml::{Table, Value};

fn tree(value: &Value) -> ConfigValue {
    match value {
        Value::String(text) => ConfigValue::Text(text.clone()),
        Value::Array(items) => ConfigValue::List(items.iter().map(tree).collect()),
        Value::Table(table) => tree_of_table(table),
        _ => ConfigValue::Other,
    }
}

fn tree_of_table(table: &Table) -> ConfigValue {
    ConfigValue::Table(table.iter().map(|(k, v)| (k.clone(), tree(v))).collect())
}

fn strs(xs: &[&str]) -> Vec<String> {
    xs.iter().map(|x| x.to_string()).collect()
}

const FIVE_GROUPS: &str = r#"
names = [
    "e1", "e2", "e3", "e4",
    "a1", "a2", "a3", "a4",
    "c1", "c2", "c3", "c4",
    "b1", "b2", "b3", "b4",
    "d1", "d2", "d3", "d4",
]

[props]
d = ["d4", "d3", "d2", "d1"]
a = ["a1", "a2", "a3", "a4"]
b = ["b1", "b2", "b3", "b4"]
e = ["e1", "e2", "e3", "e4"]
c = ["c1", "c2", "c3", "c4"]
"#;

const LIMITS: &str = r#"
[limits]
avoid-grouping = [["a1", "b1"], ["c1", "c2"]]
ignore-group = ["e"]
"#;

#[test]
fn four_of_five_disjoint_groups_make_sixteen() {
    let table = FIVE_GROUPS.parse::<Table>().unwrap();
    let data = build_model(&tree_of_table(&table), DEFAULT_TOTAL).unwrap();
    assert_eq!(data.names.len(), 20);
    assert_eq!(data.props.len(), 5);
    let sols = solve(&data, DEFAULT_LIMIT).unwrap();
    assert_eq!(sols.len(), 5);
    for report in project_all(&data, &sols) {
        assert_eq!(report.len(), 4);
        for (group, items) in &report {
            let expected: Vec<String> = (1..=4).map(|i| format!("{}{}", group, i)).collect();
            assert_eq!(items, &expected);
        }
    }
}

#[test]
fn limits_can_leave_no_selection() {
    let text = format!("{}{}", FIVE_GROUPS, LIMITS);
    let table = text.parse::<Table>().unwrap();
    let data = build_model(&tree_of_table(&table), DEFAULT_TOTAL).unwrap();
    assert_eq!(data.ignore_groups, vec![4]);
    assert_eq!(data.avoid_grouping, vec![vec![0, 4], vec![8, 9]]);
    let sols = solve(&data, DEFAULT_LIMIT).unwrap();
    assert_eq!(sols.len(), 0);
}

#[test]
fn an_ignored_group_leaves_the_other_four() {
    let text = format!("{}\n[limits]\navoid-grouping = [[\"a1\", \"b1\"]]\nignore-group = [\"e\"]\n", FIVE_GROUPS);
    let table = text.parse::<Table>().unwrap();
    let data = build_model(&tree_of_table(&table), DEFAULT_TOTAL).unwrap();
    let sols = solve(&data, DEFAULT_LIMIT).unwrap();
    assert_eq!(sols.len(), 1);
    assert_eq!(sols[0].groups, vec![true, true, true, true, false]);
    let reports = project_all(&data, &sols);
    assert_eq!(
        reports,
        vec![vec![
            ("a".to_string(), strs(&["a1", "a2", "a3", "a4"])),
            ("b".to_string(), strs(&["b1", "b2", "b3", "b4"])),
            ("c".to_string(), strs(&["c1", "c2", "c3", "c4"])),
            ("d".to_string(), strs(&["d1", "d2", "d3", "d4"])),
        ]]
    );
}
