use group_select::model::{
    create_data, has_distinct_group_names, Data, LookupError, RawConfig,
};

fn s(x: &str) -> String {
    x.to_string()
}

fn strs(xs: &[&str]) -> Vec<String> {
    xs.iter().map(|x| x.to_string()).collect()
}

fn sample() -> RawConfig {
    RawConfig {
        names: strs(&["pear", "apple", "fig", "plum", "kiwi"]),
        props: vec![
            (s("sweet"), strs(&["plum", "apple", "fig"])),
            (s("green"), strs(&["kiwi", "apple", "pear"])),
        ],
        avoid_grouping: vec![strs(&["plum", "pear"]), strs(&["kiwi", "apple"])],
        ignore_groups: strs(&["sweet"]),
        total: 16,
    }
}

#[test]
fn canonical_model_is_sorted_and_indexed() {
    let d = create_data(&sample()).unwrap();
    assert_eq!(d.names, strs(&["apple", "fig", "kiwi", "pear", "plum"]));
    assert_eq!(
        d.props,
        vec![(s("green"), vec![0, 2, 3]), (s("sweet"), vec![0, 1, 4])]
    );
    assert_eq!(d.avoid_grouping, vec![vec![0, 2], vec![3, 4]]);
    assert_eq!(d.ignore_groups, vec![1]);
    assert_eq!(d.total, 16);
    assert!(d.is_well_formed());
}

#[test]
fn building_twice_gives_the_same_model() {
    let a = create_data(&sample()).unwrap();
    let b = create_data(&sample()).unwrap();
    assert_eq!(a, b);
}

#[test]
fn order_of_the_input_does_not_matter() {
    let mut raw = sample();
    raw.names.reverse();
    raw.props.reverse();
    raw.avoid_grouping.reverse();
    for g in raw.props.iter_mut() {
        g.1.reverse();
    }
    assert_eq!(create_data(&raw).unwrap(), create_data(&sample()).unwrap());
}

#[test]
fn repeated_names_are_collapsed() {
    let raw = RawConfig {
        names: strs(&["b", "a", "b", "c", "a"]),
        props: vec![(s("g"), strs(&["c", "a", "c", "a"]))],
        avoid_grouping: vec![strs(&["b", "b", "a"]), strs(&["a", "b"])],
        ignore_groups: strs(&["g", "g"]),
        total: 2,
    };
    let d = create_data(&raw).unwrap();
    assert_eq!(d.names, strs(&["a", "b", "c"]));
    assert_eq!(d.props, vec![(s("g"), vec![0, 2])]);
    assert_eq!(d.avoid_grouping, vec![vec![0, 1]]);
    assert_eq!(d.ignore_groups, vec![0]);
}

#[test]
fn empty_configuration_gives_the_empty_model() {
    let raw = RawConfig {
        names: vec![],
        props: vec![],
        avoid_grouping: vec![],
        ignore_groups: vec![],
        total: 0,
    };
    let d = create_data(&raw).unwrap();
    assert_eq!(
        d,
        Data { names: vec![], props: vec![], avoid_grouping: vec![], ignore_groups: vec![], total: 0 }
    );
}

#[test]
fn unknown_member_is_reported() {
    let mut raw = sample();
    raw.props[1].1.push(s("grape"));
    let e = create_data(&raw).unwrap_err();
    assert_eq!(e, LookupError::UnknownItem(s("grape")));
    assert_eq!(e.name(), "grape");
    assert_eq!(e.message(), "name \"grape\" not found");
}

#[test]
fn first_unknown_member_in_input_order_is_reported() {
    let mut raw = sample();
    raw.props[0].1.insert(1, s("lime"));
    raw.props[0].1.push(s("date"));
    raw.props[1].1.insert(0, s("grape"));
    raw.avoid_grouping[0].push(s("melon"));
    assert_eq!(create_data(&raw).unwrap_err(), LookupError::UnknownItem(s("lime")));
}

#[test]
fn unknown_name_in_an_avoid_set_is_reported() {
    let mut raw = sample();
    raw.avoid_grouping[1].insert(0, s("melon"));
    raw.ignore_groups.push(s("sour"));
    assert_eq!(create_data(&raw).unwrap_err(), LookupError::UnknownItem(s("melon")));
}

#[test]
fn unknown_ignored_group_is_reported() {
    let mut raw = sample();
    raw.ignore_groups = strs(&["green", "sour", "bitter"]);
    let e = create_data(&raw).unwrap_err();
    assert_eq!(e, LookupError::UnknownGroup(s("sour")));
    assert_eq!(e.message(), "name \"sour\" not found");
}

#[test]
fn an_item_name_is_no_group_name() {
    let mut raw = sample();
    raw.ignore_groups = strs(&["apple"]);
    assert_eq!(create_data(&raw).unwrap_err(), LookupError::UnknownGroup(s("apple")));
}

#[test]
fn distinct_group_names_check() {
    let mut raw = sample();
    assert!(has_distinct_group_names(&raw));
    raw.props.push((s("sweet"), vec![]));
    assert!(!has_distinct_group_names(&raw));
}

#[test]
fn well_formedness_check_rejects_broken_models() {
    let good = create_data(&sample()).unwrap();
    assert!(good.is_well_formed());
    let mut d = good.clone();
    d.names.swap(0, 1);
    assert!(!d.is_well_formed());
    let mut d = good.clone();
    d.props[0].1 = vec![3, 2];
    assert!(!d.is_well_formed());
    let mut d = good.clone();
    d.props[0].1 = vec![0, 5];
    assert!(!d.is_well_formed());
    let mut d = good.clone();
    d.avoid_grouping = vec![vec![3, 4], vec![0, 2]];
    assert!(!d.is_well_formed());
    let mut d = good.clone();
    d.ignore_groups = vec![2];
    assert!(!d.is_well_formed());
    let mut d = good.clone();
    d.props.swap(0, 1);
    assert!(!d.is_well_formed());
}
