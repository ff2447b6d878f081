//! The configuration as a tree of values, and how the raw configuration is
//! read from it.
//!
//! A configuration is a table with the entries `names` (a list of texts),
//! `props` (a table from group name to a list of texts) and, optionally,
//! `limits`: a table with the entries `avoid-grouping` (a list of lists of
//! texts) and `ignore-group` (a list of texts). Where `limits` is there, both
//! of its entries have to be there.

use crate::model::{
    create_data, has_distinct_group_names, is_canonical, distinct_names, raw_group_names,
    raw_group_views, text_lists, texts, Data, LookupError, RawConfig, RawView,
};
use vstd::prelude::*;
use vstd::string::StringExecFns;

verus! {

/// A value of a configuration, as far as this crate reads it.
#[derive(PartialEq, Eq, Debug)]
pub enum ConfigValue {
    /// A text.
    Text(String),
    /// A list of values.
    List(Vec<ConfigValue>),
    /// A table: keys with their values, in the order of the file.
    Table(Vec<(String, ConfigValue)>),
    /// Any other value: a number, a truth value, a date.
    Other,
}

/// A place in the configuration.
#[derive(Clone, Copy, PartialEq, Eq, Structural, Debug)]
pub enum Field {
    /// The configuration as a whole.
    Root,
    /// The entry `names`.
    Names,
    /// The entry `props`.
    Props,
    /// The entry `limits`.
    Limits,
    /// The entry `avoid-grouping` of `limits`.
    AvoidGrouping,
    /// The entry `ignore-group` of `limits`.
    IgnoreGroup,
}

/// Why a configuration could not be read.
#[derive(Clone, Copy, PartialEq, Eq, Structural, Debug)]
pub enum ConfigError {
    /// An entry that has to be there is not.
    Missing(Field),
    /// A value has another shape than its place asks for.
    Malformed(Field),
}

/// Why no model could be built from a configuration.
#[derive(Clone, PartialEq, Eq, Debug)]
pub enum BuildError {
    /// The configuration could not be read.
    Config(ConfigError),
    /// Two groups have the same name.
    DuplicateGroup,
    /// A name matches nothing.
    Lookup(LookupError),
}

/// The value of the first entry with the given key.
pub open spec fn entry(entries: Seq<(String, ConfigValue)>, key: Seq<char>) -> Option<ConfigValue>
    decreases entries.len(),
{
    if entries.len() == 0 {
        None
    } else if entries[0].0@ == key {
        Some(entries[0].1)
    } else {
        entry(entries.drop_first(), key)
    }
}

/// The texts of a list of texts; `None` for any other value.
pub open spec fn as_texts(v: ConfigValue) -> Option<Seq<Seq<char>>> {
    if v is List && (forall|i: int| 0 <= i < v->List_0@.len() ==> (#[trigger] v->List_0@[i]) is Text) {
        Some(Seq::new(v->List_0@.len(), |i: int| v->List_0@[i]->Text_0@))
    } else {
        None
    }
}

/// The texts of a list of lists of texts; `None` for any other value.
pub open spec fn as_text_lists(v: ConfigValue) -> Option<Seq<Seq<Seq<char>>>> {
    if v is List && (forall|i: int|
        0 <= i < v->List_0@.len() ==> as_texts(#[trigger] v->List_0@[i]) is Some) {
        Some(Seq::new(v->List_0@.len(), |i: int| as_texts(v->List_0@[i])->Some_0))
    } else {
        None
    }
}

/// The groups of a table from group name to a list of texts, in the order
/// of the table; `None` for any other value.
pub open spec fn as_groups(v: ConfigValue) -> Option<Seq<(Seq<char>, Seq<Seq<char>>)>> {
    if v is Table && (forall|i: int|
        0 <= i < v->Table_0@.len() ==> as_texts((#[trigger] v->Table_0@[i]).1) is Some) {
        Some(
            Seq::new(
                v->Table_0@.len(),
                |i: int| (v->Table_0@[i].0@, as_texts(v->Table_0@[i].1)->Some_0),
            ),
        )
    } else {
        None
    }
}

/// What the two entries of `limits` say.
pub open spec fn limits_of(limits: ConfigValue) -> Result<
    (Seq<Seq<Seq<char>>>, Seq<Seq<char>>),
    ConfigError,
> {
    if !(limits is Table) {
        Err(ConfigError::Malformed(Field::Limits))
    } else {
        match entry(limits->Table_0@, "avoid-grouping"@) {
            None => Err(ConfigError::Missing(Field::AvoidGrouping)),
            Some(a) => match as_text_lists(a) {
                None => Err(ConfigError::Malformed(Field::AvoidGrouping)),
                Some(avoid) => match entry(limits->Table_0@, "ignore-group"@) {
                    None => Err(ConfigError::Missing(Field::IgnoreGroup)),
                    Some(i) => match as_texts(i) {
                        None => Err(ConfigError::Malformed(Field::IgnoreGroup)),
                        Some(ignore) => Ok((avoid, ignore)),
                    },
                },
            },
        }
    }
}

/// What a configuration says, or the first thing that is wrong with it:
/// `names` is read first, then `props`, then `limits`.
pub open spec fn raw_of(root: ConfigValue, total: u32) -> Result<RawView, ConfigError> {
    if !(root is Table) {
        Err(ConfigError::Malformed(Field::Root))
    } else {
        let t = root->Table_0@;
        match entry(t, "names"@) {
            None => Err(ConfigError::Missing(Field::Names)),
            Some(n) => match as_texts(n) {
                None => Err(ConfigError::Malformed(Field::Names)),
                Some(names) => match entry(t, "props"@) {
                    None => Err(ConfigError::Missing(Field::Props)),
                    Some(p) => match as_groups(p) {
                        None => Err(ConfigError::Malformed(Field::Props)),
                        Some(props) => match entry(t, "limits"@) {
                            None => Ok(
                                RawView {
                                    names,
                                    props,
                                    avoid_grouping: Seq::empty(),
                                    ignore_groups: Seq::empty(),
                                    total,
                                },
                            ),
                            Some(l) => match limits_of(l) {
                                Err(e) => Err(e),
                                Ok((avoid, ignore)) => Ok(
                                    RawView {
                                        names,
                                        props,
                                        avoid_grouping: avoid,
                                        ignore_groups: ignore,
                                        total,
                                    },
                                ),
                            },
                        },
                    },
                },
            },
        }
    }
}

/// The value of the first entry with the given key.
pub fn find_entry<'a>(entries: &'a Vec<(String, ConfigValue)>, key: &str) -> (r: Option<
    &'a ConfigValue,
>)
    ensures
        match r {
            Some(v) => entry(entries@, key@) == Some(*v),
            None => entry(entries@, key@) is None,
        },
{
    let wanted = String::from_str(key);
    let mut i: usize = 0;
    proof {
        assert(entries@.skip(0) =~= entries@);
    }
    while i < entries.len()
        invariant
            i <= entries.len(),
            wanted@ == key@,
            entry(entries@, key@) == entry(entries@.skip(i as int), key@),
        decreases entries.len() - i,
    {
        proof {
            let rest = entries@.skip(i as int);
            assert(rest[0] == entries@[i as int]);
            assert(rest.drop_first() =~= entries@.skip(i + 1));
        }
        if entries[i].0 == wanted {
            return Some(&entries[i].1);
        }
        i += 1;
    }
    None
}

/// The texts of a list of texts; `None` for any other value.
#[verifier::loop_isolation(false)]
pub fn texts_of(v: &ConfigValue) -> (r: Option<Vec<String>>)
    ensures
        match r {
            Some(t) => as_texts(*v) == Some(texts(t@)),
            None => as_texts(*v) is None,
        },
{
    match v {
        ConfigValue::List(items) => {
            let mut out: Vec<String> = Vec::new();
            let mut i: usize = 0;
            while i < items.len()
                invariant
                    i <= items.len(),
                    out@.len() == i,
                    forall|k: int| 0 <= k < i ==> (#[trigger] items@[k]) is Text,
                    forall|k: int| 0 <= k < i ==> (#[trigger] out@[k])@ == items@[k]->Text_0@,
                decreases items.len() - i,
            {
                match &items[i] {
                    ConfigValue::Text(s) => {
                        out.push(s.clone());
                    },
                    _ => {
                        proof {
                            assert(!(v->List_0@[i as int] is Text));
                        }
                        return None;
                    },
                }
                i += 1;
            }
            proof {
                assert(texts(out@) =~= as_texts(*v)->Some_0);
            }
            Some(out)
        },
        _ => None,
    }
}

/// The texts of a list of lists of texts; `None` for any other value.
#[verifier::loop_isolation(false)]
pub fn text_lists_of(v: &ConfigValue) -> (r: Option<Vec<Vec<String>>>)
    ensures
        match r {
            Some(t) => as_text_lists(*v) == Some(text_lists(t@)),
            None => as_text_lists(*v) is None,
        },
{
    match v {
        ConfigValue::List(items) => {
            let mut out: Vec<Vec<String>> = Vec::new();
            let mut i: usize = 0;
            while i < items.len()
                invariant
                    i <= items.len(),
                    out@.len() == i,
                    forall|k: int| 0 <= k < i ==> as_texts(#[trigger] items@[k]) is Some,
                    forall|k: int|
                        0 <= k < i ==> texts((#[trigger] out@[k])@) == as_texts(items@[k])->Some_0,
                decreases items.len() - i,
            {
                match texts_of(&items[i]) {
                    Some(t) => {
                        out.push(t);
                    },
                    None => {
                        proof {
                            assert(as_texts(v->List_0@[i as int]) is None);
                        }
                        return None;
                    },
                }
                i += 1;
            }
            proof {
                assert(text_lists(out@) =~= as_text_lists(*v)->Some_0);
            }
            Some(out)
        },
        _ => None,
    }
}

/// The groups of a table from group name to a list of texts, in the order
/// of the table; `None` for any other value.
#[verifier::loop_isolation(false)]
pub fn groups_of_table(v: &ConfigValue) -> (r: Option<Vec<(String, Vec<String>)>>)
    ensures
        match r {
            Some(g) => as_groups(*v) == Some(raw_group_views(g@)),
            None => as_groups(*v) is None,
        },
{
    match v {
        ConfigValue::Table(entries) => {
            let mut out: Vec<(String, Vec<String>)> = Vec::new();
            let mut i: usize = 0;
            while i < entries.len()
                invariant
                    i <= entries.len(),
                    out@.len() == i,
                    forall|k: int| 0 <= k < i ==> as_texts((#[trigger] entries@[k]).1) is Some,
                    forall|k: int|
                        0 <= k < i ==> (#[trigger] out@[k]).0@ == entries@[k].0@ && texts(
                            out@[k].1@,
                        ) == as_texts(entries@[k].1)->Some_0,
                decreases entries.len() - i,
            {
                match texts_of(&entries[i].1) {
                    Some(t) => {
                        out.push((entries[i].0.clone(), t));
                    },
                    None => {
                        proof {
                            assert(as_texts(v->Table_0@[i as int].1) is None);
                        }
                        return None;
                    },
                }
                i += 1;
            }
            proof {
                assert(raw_group_views(out@) =~= as_groups(*v)->Some_0);
            }
            Some(out)
        },
        _ => None,
    }
}

/// What the two entries of `limits` say.
pub fn read_limits(limits: &ConfigValue) -> (r: Result<(Vec<Vec<String>>, Vec<String>), ConfigError>)
    ensures
        match r {
            Ok((avoid, ignore)) => limits_of(*limits) == Ok::<
                (Seq<Seq<Seq<char>>>, Seq<Seq<char>>),
                ConfigError,
            >((text_lists(avoid@), texts(ignore@))),
            Err(e) => limits_of(*limits) == Err::<
                (Seq<Seq<Seq<char>>>, Seq<Seq<char>>),
                ConfigError,
            >(e),
        },
{
    match limits {
        ConfigValue::Table(entries) => {
            let avoid = match find_entry(entries, "avoid-grouping") {
                None => {
                    return Err(ConfigError::Missing(Field::AvoidGrouping));
                },
                Some(a) => match text_lists_of(a) {
                    None => {
                        return Err(ConfigError::Malformed(Field::AvoidGrouping));
                    },
                    Some(avoid) => avoid,
                },
            };
            let ignore = match find_entry(entries, "ignore-group") {
                None => {
                    return Err(ConfigError::Missing(Field::IgnoreGroup));
                },
                Some(i) => match texts_of(i) {
                    None => {
                        return Err(ConfigError::Malformed(Field::IgnoreGroup));
                    },
                    Some(ignore) => ignore,
                },
            };
            Ok((avoid, ignore))
        },
        _ => Err(ConfigError::Malformed(Field::Limits)),
    }
}

/// Reads the raw configuration from a tree of values. `total` is how many
/// items a solution is to select in all.
pub fn read_config(root: &ConfigValue, total: u32) -> (r: Result<RawConfig, ConfigError>)
    ensures
        match r {
            Ok(raw) => raw_of(*root, total) == Ok::<RawView, ConfigError>(raw@),
            Err(e) => raw_of(*root, total) == Err::<RawView, ConfigError>(e),
        },
{
    match root {
        ConfigValue::Table(entries) => {
            let names = match find_entry(entries, "names") {
                None => {
                    return Err(ConfigError::Missing(Field::Names));
                },
                Some(n) => match texts_of(n) {
                    None => {
                        return Err(ConfigError::Malformed(Field::Names));
                    },
                    Some(names) => names,
                },
            };
            let props = match find_entry(entries, "props") {
                None => {
                    return Err(ConfigError::Missing(Field::Props));
                },
                Some(p) => match groups_of_table(p) {
                    None => {
                        return Err(ConfigError::Malformed(Field::Props));
                    },
                    Some(props) => props,
                },
            };
            let (avoid_grouping, ignore_groups) = match find_entry(entries, "limits") {
                None => (Vec::new(), Vec::new()),
                Some(l) => match read_limits(l) {
                    Err(e) => {
                        return Err(e);
                    },
                    Ok(pair) => pair,
                },
            };
            let raw = RawConfig { names, props, avoid_grouping, ignore_groups, total };
            proof {
                let rv = raw@;
                let want = raw_of(*root, total)->Ok_0;
                assert(rv.avoid_grouping =~= want.avoid_grouping);
                assert(rv.ignore_groups =~= want.ignore_groups);
                assert(rv == want);
            }
            Ok(raw)
        },
        _ => Err(ConfigError::Malformed(Field::Root)),
    }
}

/// Builds the canonical model from a tree of values: reads the raw
/// configuration, makes sure that no group name occurs twice, and looks
/// every name up.
pub fn build_model(root: &ConfigValue, total: u32) -> (r: Result<Data, BuildError>)
    ensures
        match r {
            Ok(d) => raw_of(*root, total) is Ok && is_canonical(raw_of(*root, total)->Ok_0, d@),
            Err(BuildError::Config(e)) => raw_of(*root, total) == Err::<RawView, ConfigError>(e),
            Err(BuildError::DuplicateGroup) => raw_of(*root, total) is Ok && !distinct_names(
                raw_group_names(raw_of(*root, total)->Ok_0.props),
            ),
            Err(BuildError::Lookup(LookupError::UnknownItem(n))) => raw_of(*root, total) is Ok
                && distinct_names(raw_group_names(raw_of(*root, total)->Ok_0.props)) && raw_of(
                *root,
                total,
            )->Ok_0.first_unknown_item(n@),
            Err(BuildError::Lookup(LookupError::UnknownGroup(n))) => raw_of(*root, total) is Ok
                && distinct_names(raw_group_names(raw_of(*root, total)->Ok_0.props)) && raw_of(
                *root,
                total,
            )->Ok_0.first_unknown_group(n@),
        },
{
    let raw = match read_config(root, total) {
        Ok(raw) => raw,
        Err(e) => {
            return Err(BuildError::Config(e));
        },
    };
    if !has_distinct_group_names(&raw) {
        return Err(BuildError::DuplicateGroup);
    }
    match create_data(&raw) {
        Ok(d) => Ok(d),
        Err(e) => Err(BuildError::Lookup(e)),
    }
}

} // verus!
