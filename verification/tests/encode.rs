use group_select::encode::{
    avoid, avoids, encode, group_sizes, groups_holding, ignores, membership, overlap, overlaps,
    total, DEFAULT_TOTAL, GROUP_SIZE,
};
use group_select::formula::{Formula, Var};
use group_select::model::Data;

fn s(x: &str) -> String {
    x.to_string()
}

fn item(i: usize) -> Formula {
    Formula::Var(Var::Item(i))
}

fn group(g: usize) -> Formula {
    Formula::Var(Var::Group(g))
}

fn exactly_items(idx: &[usize], k: u32) -> Formula {
    let vars: Vec<Var> = idx.iter().map(|i| Var::Item(*i)).collect();
    Formula::And(vec![Formula::AtLeast(vars.clone(), k), Formula::AtMost(vars, k)])
}

fn implies(a: Formula, b: Formula) -> Formula {
    Formula::Implies(Box::new(a), Box::new(b))
}

fn small() -> Data {
    Data {
        names: vec![s("a"), s("b"), s("c")],
        props: vec![(s("g0"), vec![0, 1]), (s("g1"), vec![1]), (s("g2"), vec![2])],
        avoid_grouping: vec![vec![0, 1], vec![0, 1, 2]],
        ignore_groups: vec![1],
        total: 2,
    }
}

#[test]
fn constants_of_the_domain() {
    assert_eq!(GROUP_SIZE, 4);
    assert_eq!(DEFAULT_TOTAL, 16);
}

#[test]
fn groups_that_hold_an_item() {
    let d = small();
    assert_eq!(groups_holding(&d, 0), vec![0]);
    assert_eq!(groups_holding(&d, 1), vec![0, 1]);
    assert_eq!(groups_holding(&d, 2), vec![2]);
    assert_eq!(groups_holding(&d, 7), Vec::<usize>::new());
}

#[test]
fn membership_formulas() {
    assert_eq!(
        membership(&small()),
        vec![
            implies(item(0), Formula::Or(vec![group(0)])),
            implies(item(1), Formula::Or(vec![group(0), group(1)])),
            implies(item(2), Formula::Or(vec![group(2)])),
        ]
    );
}

#[test]
fn an_item_in_no_group_cannot_be_selected() {
    let d = Data {
        names: vec![s("a")],
        props: vec![],
        avoid_grouping: vec![],
        ignore_groups: vec![],
        total: 0,
    };
    assert_eq!(membership(&d), vec![implies(item(0), Formula::Or(vec![]))]);
}

#[test]
fn overlap_formulas_skip_groups_without_common_items() {
    let shared = Formula::Or(vec![item(1)]);
    assert_eq!(
        overlaps(&small()),
        vec![implies(Formula::And(vec![group(1), group(0), shared]), exactly_items(&[1], 4))]
    );
}

#[test]
fn overlap_formula_of_two_groups() {
    assert_eq!(
        overlap(3, 1, &vec![2, 5]),
        implies(
            Formula::And(vec![group(3), group(1), Formula::Or(vec![item(2), item(5)])]),
            exactly_items(&[2, 5], 4)
        )
    );
}

#[test]
fn group_size_formulas() {
    assert_eq!(
        group_sizes(&small()),
        vec![
            implies(group(0), exactly_items(&[0, 1], 4)),
            implies(group(1), exactly_items(&[1], 4)),
            implies(group(2), exactly_items(&[2], 4)),
        ]
    );
}

#[test]
fn avoid_formulas() {
    let forbid = |g: usize, x: usize, y: usize| {
        Formula::Not(Box::new(Formula::And(vec![group(g), item(x), item(y)])))
    };
    assert_eq!(avoids(&small()), vec![forbid(0, 1, 0), forbid(0, 1, 0)]);
    assert_eq!(avoid(2, 7, 3), forbid(2, 7, 3));
}

#[test]
fn avoid_formulas_cover_every_pair() {
    let d = Data {
        names: vec![s("a"), s("b"), s("c"), s("d")],
        props: vec![(s("g"), vec![0, 1, 2, 3])],
        avoid_grouping: vec![vec![0, 2, 3]],
        ignore_groups: vec![],
        total: 4,
    };
    let forbid = |x: usize, y: usize| {
        Formula::Not(Box::new(Formula::And(vec![group(0), item(x), item(y)])))
    };
    assert_eq!(avoids(&d), vec![forbid(2, 0), forbid(3, 0), forbid(3, 2)]);
}

#[test]
fn ignore_formulas() {
    assert_eq!(ignores(&small()), vec![Formula::Not(Box::new(group(1)))]);
}

#[test]
fn total_formula() {
    assert_eq!(total(&small()), exactly_items(&[0, 1, 2], 2));
}

#[test]
fn all_families_in_order() {
    let d = small();
    let mut expected = membership(&d);
    expected.extend(overlaps(&d));
    expected.extend(group_sizes(&d));
    expected.extend(avoids(&d));
    expected.extend(ignores(&d));
    expected.push(total(&d));
    let all = encode(&d);
    assert_eq!(all.len(), 3 + 1 + 3 + 2 + 1 + 1);
    assert_eq!(all, expected);
}
