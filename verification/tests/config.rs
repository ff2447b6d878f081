use group_select::config::{
    build_model, find_entry, groups_of_table, read_config, read_limits, text_lists_of, texts_of,
    BuildError, ConfigError, ConfigValue, Field,
};
use group_select::model::{LookupError, RawConfig};

fn s(x: &str) -> String {
    x.to_string()
}

fn strs(xs: &[&str]) -> Vec<String> {
    xs.iter().map(|x| x.to_string()).collect()
}

fn text(x: &str) -> ConfigValue {
    ConfigValue::Text(s(x))
}

fn list(xs: &[&str]) -> ConfigValue {
    ConfigValue::List(xs.iter().map(|x| text(x)).collect())
}

fn table(entries: Vec<(&str, ConfigValue)>) -> ConfigValue {
    ConfigValue::Table(entries.into_iter().map(|(k, v)| (s(k), v)).collect())
}

fn limits() -> ConfigValue {
    table(vec![
        ("avoid-grouping", ConfigValue::List(vec![list(&["oak", "elm"]), list(&[])])),
        ("ignore-group", list(&["tall"])),
    ])
}

fn props() -> ConfigValue {
    table(vec![("tall", list(&["oak", "fir"])), ("soft", list(&["fir", "elm"]))])
}

fn full() -> ConfigValue {
    table(vec![
        ("title", text("trees")),
        ("names", list(&["oak", "fir", "elm"])),
        ("props", props()),
        ("limits", limits()),
    ])
}

#[test]
fn a_full_configuration_is_read() {
    assert_eq!(
        read_config(&full(), 16),
        Ok(RawConfig {
            names: strs(&["oak", "fir", "elm"]),
            props: vec![(s("tall"), strs(&["oak", "fir"])), (s("soft"), strs(&["fir", "elm"]))],
            avoid_grouping: vec![strs(&["oak", "elm"]), vec![]],
            ignore_groups: strs(&["tall"]),
            total: 16,
        })
    );
}

#[test]
fn limits_may_be_left_out() {
    let root = table(vec![("props", props()), ("names", list(&["oak", "fir", "elm"]))]);
    assert_eq!(
        read_config(&root, 3),
        Ok(RawConfig {
            names: strs(&["oak", "fir", "elm"]),
            props: vec![(s("tall"), strs(&["oak", "fir"])), (s("soft"), strs(&["fir", "elm"]))],
            avoid_grouping: vec![],
            ignore_groups: vec![],
            total: 3,
        })
    );
}

#[test]
fn missing_entries_are_reported() {
    let no_names = table(vec![("props", props())]);
    assert_eq!(read_config(&no_names, 1), Err(ConfigError::Missing(Field::Names)));
    let no_props = table(vec![("names", list(&[]))]);
    assert_eq!(read_config(&no_props, 1), Err(ConfigError::Missing(Field::Props)));
    let no_avoid = table(vec![
        ("names", list(&[])),
        ("props", table(vec![])),
        ("limits", table(vec![("ignore-group", list(&[]))])),
    ]);
    assert_eq!(read_config(&no_avoid, 1), Err(ConfigError::Missing(Field::AvoidGrouping)));
    let no_ignore = table(vec![
        ("names", list(&[])),
        ("props", table(vec![])),
        ("limits", table(vec![("avoid-grouping", ConfigValue::List(vec![]))])),
    ]);
    assert_eq!(read_config(&no_ignore, 1), Err(ConfigError::Missing(Field::IgnoreGroup)));
}

#[test]
fn values_of_the_wrong_shape_are_reported() {
    assert_eq!(read_config(&list(&[]), 1), Err(ConfigError::Malformed(Field::Root)));
    assert_eq!(read_config(&ConfigValue::Other, 1), Err(ConfigError::Malformed(Field::Root)));
    let names = table(vec![("names", text("oak")), ("props", props())]);
    assert_eq!(read_config(&names, 1), Err(ConfigError::Malformed(Field::Names)));
    let names = table(vec![
        ("names", ConfigValue::List(vec![text("oak"), ConfigValue::Other])),
        ("props", props()),
    ]);
    assert_eq!(read_config(&names, 1), Err(ConfigError::Malformed(Field::Names)));
    let bad_props = table(vec![("names", list(&[])), ("props", list(&[]))]);
    assert_eq!(read_config(&bad_props, 1), Err(ConfigError::Malformed(Field::Props)));
    let bad_group = table(vec![("names", list(&[])), ("props", table(vec![("g", text("oak"))]))]);
    assert_eq!(read_config(&bad_group, 1), Err(ConfigError::Malformed(Field::Props)));
    let bad_limits =
        table(vec![("names", list(&[])), ("props", table(vec![])), ("limits", list(&[]))]);
    assert_eq!(read_config(&bad_limits, 1), Err(ConfigError::Malformed(Field::Limits)));
    let bad_avoid = table(vec![
        ("names", list(&[])),
        ("props", table(vec![])),
        ("limits", table(vec![("avoid-grouping", list(&["oak"])), ("ignore-group", list(&[]))])),
    ]);
    assert_eq!(read_config(&bad_avoid, 1), Err(ConfigError::Malformed(Field::AvoidGrouping)));
    let bad_ignore = table(vec![
        ("names", list(&[])),
        ("props", table(vec![])),
        (
            "limits",
            table(vec![("avoid-grouping", ConfigValue::List(vec![])), ("ignore-group", text("g"))]),
        ),
    ]);
    assert_eq!(read_config(&bad_ignore, 1), Err(ConfigError::Malformed(Field::IgnoreGroup)));
}

#[test]
fn the_first_fault_in_reading_order_is_reported() {
    let root = table(vec![("limits", list(&[])), ("props", text("x")), ("names", text("y"))]);
    assert_eq!(read_config(&root, 1), Err(ConfigError::Malformed(Field::Names)));
    let root = table(vec![("limits", list(&[])), ("names", list(&[]))]);
    assert_eq!(read_config(&root, 1), Err(ConfigError::Missing(Field::Props)));
}

#[test]
fn the_first_entry_of_a_key_counts() {
    let entries = vec![(s("a"), text("one")), (s("b"), text("two")), (s("a"), text("three"))];
    assert_eq!(find_entry(&entries, "a"), Some(&text("one")));
    assert_eq!(find_entry(&entries, "b"), Some(&text("two")));
    assert_eq!(find_entry(&entries, "c"), None);
    assert_eq!(find_entry(&vec![], "a"), None);
}

#[test]
fn lists_of_texts() {
    assert_eq!(texts_of(&list(&["a", "b"])), Some(strs(&["a", "b"])));
    assert_eq!(texts_of(&list(&[])), Some(vec![]));
    assert_eq!(texts_of(&text("a")), None);
    assert_eq!(texts_of(&ConfigValue::List(vec![list(&[])])), None);
    assert_eq!(
        text_lists_of(&ConfigValue::List(vec![list(&["a"]), list(&[])])),
        Some(vec![strs(&["a"]), vec![]])
    );
    assert_eq!(text_lists_of(&list(&["a"])), None);
    assert_eq!(text_lists_of(&ConfigValue::Other), None);
    assert_eq!(
        groups_of_table(&props()),
        Some(vec![(s("tall"), strs(&["oak", "fir"])), (s("soft"), strs(&["fir", "elm"]))])
    );
    assert_eq!(groups_of_table(&list(&[])), None);
    assert_eq!(read_limits(&limits()), Ok((vec![strs(&["oak", "elm"]), vec![]], strs(&["tall"]))));
    assert_eq!(read_limits(&text("x")), Err(ConfigError::Malformed(Field::Limits)));
}

#[test]
fn a_model_is_built_from_a_tree() {
    let d = build_model(&full(), 16).unwrap();
    assert_eq!(d.names, strs(&["elm", "fir", "oak"]));
    assert_eq!(d.props, vec![(s("soft"), vec![0, 1]), (s("tall"), vec![1, 2])]);
    assert_eq!(d.avoid_grouping, vec![vec![], vec![0, 2]]);
    assert_eq!(d.ignore_groups, vec![1]);
    assert_eq!(d.total, 16);
    assert!(d.is_well_formed());
}

#[test]
fn building_reports_what_is_wrong() {
    assert_eq!(
        build_model(&text("x"), 1),
        Err(BuildError::Config(ConfigError::Malformed(Field::Root)))
    );
    let twice = table(vec![
        ("names", list(&["oak"])),
        ("props", table(vec![("g", list(&["oak"])), ("g", list(&[]))])),
    ]);
    assert_eq!(build_model(&twice, 1), Err(BuildError::DuplicateGroup));
    let unknown = table(vec![
        ("names", list(&["oak"])),
        ("props", table(vec![("g", list(&["oak", "yew"]))])),
    ]);
    assert_eq!(
        build_model(&unknown, 1),
        Err(BuildError::Lookup(LookupError::UnknownItem(s("yew"))))
    );
    let ignored = table(vec![
        ("names", list(&["oak"])),
        ("props", table(vec![("g", list(&["oak"]))])),
        (
            "limits",
            table(vec![("avoid-grouping", ConfigValue::List(vec![])), ("ignore-group", list(&["h"]))]),
        ),
    ]);
    assert_eq!(
        build_model(&ignored, 1),
        Err(BuildError::Lookup(LookupError::UnknownGroup(s("h"))))
    );
}
