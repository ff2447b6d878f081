//! The domain model: items, groups, avoid sets and ignored groups.
//!
//! The raw configuration names everything by strings. The canonical model
//! keeps the item names in a strictly ascending list and refers to an item by
//! its position there; groups are kept strictly ascending by name and are
//! referred to by position likewise. Every index list of the model is strictly
//! ascending, so the model is determined by the raw configuration.

use crate::order::{
    agree_before, codes, has_rank, insert_unique, ints, lemma_codes_injective, lemma_lex_decide,
    lemma_ranks_distinct, lex_lt, name_lt, search, strictly_ranked, Ranked,
};
use crate::order::{lemma_ascending_unique, lemma_ints_injective, lemma_lex_trichotomy};
use crate::order::is_strictly_ranked;
use crate::sorted::{
    all_below, is_all_below, is_strictly_sorted, lemma_strictly_sorted_unique, strictly_sorted,
};
use vstd::prelude::*;

verus! {

/// The configuration as it is written down: every reference is a name.
#[derive(Clone, PartialEq, Eq, Debug)]
pub struct RawConfig {
    /// The item names, in any order.
    pub names: Vec<String>,
    /// The groups: a name and the names of the members. No group name occurs twice.
    pub props: Vec<(String, Vec<String>)>,
    /// The avoid sets, each a list of item names.
    pub avoid_grouping: Vec<Vec<String>>,
    /// The names of the groups that may never be active.
    pub ignore_groups: Vec<String>,
    /// How many items a solution selects in all.
    pub total: u32,
}

/// The canonical model. Items and groups are referred to by position.
#[derive(Clone, PartialEq, Eq, Debug)]
pub struct Data {
    /// The item names, strictly ascending.
    pub names: Vec<String>,
    /// The groups, strictly ascending by name, each with its member indices.
    pub props: Vec<(String, Vec<usize>)>,
    /// The avoid sets as index lists, strictly ascending as lists.
    pub avoid_grouping: Vec<Vec<usize>>,
    /// The indices of the ignored groups.
    pub ignore_groups: Vec<usize>,
    /// How many items a solution selects in all.
    pub total: u32,
}

/// A name of the configuration that matches nothing.
#[derive(Clone, PartialEq, Eq, Debug)]
pub enum LookupError {
    /// A group or an avoid set names an item that is not in the item list.
    UnknownItem(String),
    /// The ignore list names a group that does not exist.
    UnknownGroup(String),
}

/// What a raw configuration says, as mathematical values.
pub struct RawView {
    pub names: Seq<Seq<char>>,
    pub props: Seq<(Seq<char>, Seq<Seq<char>>)>,
    pub avoid_grouping: Seq<Seq<Seq<char>>>,
    pub ignore_groups: Seq<Seq<char>>,
    pub total: u32,
}

/// What a canonical model says, as mathematical values.
pub struct ModelView {
    pub names: Seq<Seq<char>>,
    pub groups: Seq<(Seq<char>, Seq<usize>)>,
    pub avoid: Seq<Seq<usize>>,
    pub ignore: Seq<usize>,
    pub total: u32,
}

/// The texts of a list of strings.
pub open spec fn texts(v: Seq<String>) -> Seq<Seq<char>> {
    Seq::new(v.len(), |i: int| v[i]@)
}

/// The index lists of a list of vectors.
pub open spec fn lists(v: Seq<Vec<usize>>) -> Seq<Seq<usize>> {
    Seq::new(v.len(), |i: int| v[i]@)
}

/// The groups of a model as pairs of name and member indices.
pub open spec fn group_views(v: Seq<(String, Vec<usize>)>) -> Seq<(Seq<char>, Seq<usize>)> {
    Seq::new(v.len(), |i: int| (v[i].0@, v[i].1@))
}

/// The groups of a raw configuration as pairs of name and member names.
pub open spec fn raw_group_views(v: Seq<(String, Vec<String>)>) -> Seq<(Seq<char>, Seq<Seq<char>>)> {
    Seq::new(v.len(), |i: int| (v[i].0@, texts(v[i].1@)))
}

/// The texts of a list of lists of strings.
pub open spec fn text_lists(v: Seq<Vec<String>>) -> Seq<Seq<Seq<char>>> {
    Seq::new(v.len(), |i: int| texts(v[i]@))
}

impl View for RawConfig {
    type V = RawView;

    open spec fn view(&self) -> RawView {
        RawView {
            names: texts(self.names@),
            props: raw_group_views(self.props@),
            avoid_grouping: text_lists(self.avoid_grouping@),
            ignore_groups: texts(self.ignore_groups@),
            total: self.total,
        }
    }
}

impl View for Data {
    type V = ModelView;

    open spec fn view(&self) -> ModelView {
        ModelView {
            names: texts(self.names@),
            groups: group_views(self.props@),
            avoid: lists(self.avoid_grouping@),
            ignore: self.ignore_groups@,
            total: self.total,
        }
    }
}

/// The names of a list, strictly ascending in the order of names.
pub open spec fn names_sorted(names: Seq<Seq<char>>) -> bool {
    forall|i: int, j: int| 0 <= i < j < names.len() ==> name_lt(names[i], names[j])
}

/// Index lists, strictly ascending in the lexicographic order of lists.
pub open spec fn lists_sorted(s: Seq<Seq<usize>>) -> bool {
    forall|i: int, j: int| 0 <= i < j < s.len() ==> lex_lt(ints(s[i]), ints(s[j]))
}

/// No name occurs twice.
pub open spec fn distinct_names(names: Seq<Seq<char>>) -> bool {
    forall|i: int, j: int| 0 <= i < j < names.len() ==> names[i] != names[j]
}

/// The names of the groups of a model, in order.
pub open spec fn group_names(groups: Seq<(Seq<char>, Seq<usize>)>) -> Seq<Seq<char>> {
    Seq::new(groups.len(), |i: int| groups[i].0)
}

/// The names of the groups of a raw configuration, in order.
pub open spec fn raw_group_names(props: Seq<(Seq<char>, Seq<Seq<char>>)>) -> Seq<Seq<char>> {
    Seq::new(props.len(), |i: int| props[i].0)
}

/// The member lists of the groups of a raw configuration, in order.
pub open spec fn raw_member_lists(props: Seq<(Seq<char>, Seq<Seq<char>>)>) -> Seq<Seq<Seq<char>>> {
    Seq::new(props.len(), |i: int| props[i].1)
}

/// `idx` is the index list of the names `refs` in the name list `names`:
/// strictly ascending, and holding exactly the positions of the names that
/// `refs` mentions.
pub open spec fn resolves(names: Seq<Seq<char>>, refs: Seq<Seq<char>>, idx: Seq<usize>) -> bool {
    &&& strictly_sorted(idx)
    &&& forall|x: usize| idx.contains(x) <==> (x < names.len() && refs.contains(names[x as int]))
}

/// Every name in `refs` is one of `known`.
pub open spec fn all_known(refs: Seq<Seq<char>>, known: Seq<Seq<char>>) -> bool {
    forall|k: int| 0 <= k < refs.len() ==> known.contains(#[trigger] refs[k])
}

/// Every name in every list is one of `known`.
pub open spec fn all_lists_known(refs: Seq<Seq<Seq<char>>>, known: Seq<Seq<char>>) -> bool {
    forall|l: int| 0 <= l < refs.len() ==> all_known(#[trigger] refs[l], known)
}

/// Position `k` holds the first name in `refs` that is none of `known`.
pub open spec fn first_unknown(refs: Seq<Seq<char>>, known: Seq<Seq<char>>, k: int) -> bool {
    &&& 0 <= k < refs.len()
    &&& !known.contains(refs[k])
    &&& forall|j: int| 0 <= j < k ==> known.contains(#[trigger] refs[j])
}

/// List `l`, position `k` holds the first name, going through the lists in
/// order, that is none of `known`.
pub open spec fn first_unknown_in(
    refs: Seq<Seq<Seq<char>>>,
    known: Seq<Seq<char>>,
    l: int,
    k: int,
) -> bool {
    &&& 0 <= l < refs.len()
    &&& forall|m: int| 0 <= m < l ==> all_known(#[trigger] refs[m], known)
    &&& first_unknown(refs[l], known, k)
}

impl RawView {
    /// Every item and group that the configuration refers to exists.
    pub open spec fn resolvable(self) -> bool {
        &&& all_lists_known(raw_member_lists(self.props), self.names)
        &&& all_lists_known(self.avoid_grouping, self.names)
        &&& all_known(self.ignore_groups, raw_group_names(self.props))
    }

    /// `n` is the first item name that matches nothing: the groups are gone
    /// through first, in the order given, then the avoid sets.
    pub open spec fn first_unknown_item(self, n: Seq<char>) -> bool {
        ||| exists|l: int, k: int|
            first_unknown_in(raw_member_lists(self.props), self.names, l, k) && n
                == self.props[l].1[k]
        ||| all_lists_known(raw_member_lists(self.props), self.names) && exists|l: int, k: int|
            first_unknown_in(self.avoid_grouping, self.names, l, k) && n
                == self.avoid_grouping[l][k]
    }

    /// Every item name matches, and `n` is the first name in the ignore list
    /// that is not the name of a group.
    pub open spec fn first_unknown_group(self, n: Seq<char>) -> bool {
        &&& all_lists_known(raw_member_lists(self.props), self.names)
        &&& all_lists_known(self.avoid_grouping, self.names)
        &&& exists|k: int|
            first_unknown(self.ignore_groups, raw_group_names(self.props), k) && n
                == self.ignore_groups[k]
    }
}

impl ModelView {
    /// The invariant of a canonical model.
    pub open spec fn well_formed(self) -> bool {
        &&& self.names.len() <= usize::MAX
        &&& self.groups.len() <= usize::MAX
        &&& names_sorted(self.names)
        &&& names_sorted(group_names(self.groups))
        &&& forall|g: int|
            0 <= g < self.groups.len() ==> strictly_sorted((#[trigger] self.groups[g]).1)
                && all_below(self.groups[g].1, self.names.len() as int)
        &&& lists_sorted(self.avoid)
        &&& forall|a: int|
            0 <= a < self.avoid.len() ==> strictly_sorted(#[trigger] self.avoid[a]) && all_below(
                self.avoid[a],
                self.names.len() as int,
            )
        &&& strictly_sorted(self.ignore)
        &&& all_below(self.ignore, self.groups.len() as int)
    }
}

/// `m` is the canonical model of the raw configuration `raw`.
pub open spec fn is_canonical(raw: RawView, m: ModelView) -> bool {
    &&& m.well_formed()
    &&& forall|n: Seq<char>| m.names.contains(n) <==> raw.names.contains(n)
    &&& forall|n: Seq<char>|
        group_names(m.groups).contains(n) <==> raw_group_names(raw.props).contains(n)
    &&& forall|g: int, r: int|
        0 <= g < m.groups.len() && 0 <= r < raw.props.len() && (#[trigger] m.groups[g]).0
            == (#[trigger] raw.props[r]).0 ==> resolves(m.names, raw.props[r].1, m.groups[g].1)
    &&& forall|a: Seq<usize>|
        m.avoid.contains(a) <==> exists|r: int|
            0 <= r < raw.avoid_grouping.len() && resolves(
                m.names,
                #[trigger] raw.avoid_grouping[r],
                a,
            )
    &&& resolves(group_names(m.groups), raw.ignore_groups, m.ignore)
    &&& m.total == raw.total
}

impl Data {
    /// The invariant of a canonical model.
    pub open spec fn well_formed(&self) -> bool {
        self@.well_formed()
    }

    /// Whether the model meets its invariant.
    pub fn is_well_formed(&self) -> (r: bool)
        ensures
            r == self.well_formed(),
    {
        let ghost m = self@;
        proof {
            lemma_names_ranked(self.names@);
            lemma_groups_ranked(self.props@);
            lemma_lists_ranked(self.avoid_grouping@);
        }
        if !is_strictly_ranked(&self.names) || !is_strictly_ranked(&self.props)
            || !is_strictly_ranked(&self.avoid_grouping) {
            return false;
        }
        let n = self.names.len();
        let mut g: usize = 0;
        while g < self.props.len()
            invariant
                g <= self.props.len(),
                m == self@,
                n == self.names@.len(),
                forall|k: int|
                    0 <= k < g ==> strictly_sorted((#[trigger] m.groups[k]).1) && all_below(
                        m.groups[k].1,
                        n as int,
                    ),
            decreases self.props.len() - g,
        {
            proof {
                assert(m.groups[g as int].1 == self.props@[g as int].1@);
            }
            if !is_strictly_sorted(self.props[g].1.as_slice()) || !is_all_below(
                self.props[g].1.as_slice(),
                n,
            ) {
                return false;
            }
            g += 1;
        }
        let mut a: usize = 0;
        while a < self.avoid_grouping.len()
            invariant
                a <= self.avoid_grouping.len(),
                m == self@,
                n == self.names@.len(),
                forall|k: int|
                    0 <= k < a ==> strictly_sorted(#[trigger] m.avoid[k]) && all_below(
                        m.avoid[k],
                        n as int,
                    ),
            decreases self.avoid_grouping.len() - a,
        {
            proof {
                assert(m.avoid[a as int] == self.avoid_grouping@[a as int]@);
            }
            if !is_strictly_sorted(self.avoid_grouping[a].as_slice()) || !is_all_below(
                self.avoid_grouping[a].as_slice(),
                n,
            ) {
                return false;
            }
            a += 1;
        }
        is_strictly_sorted(self.ignore_groups.as_slice()) && is_all_below(
            self.ignore_groups.as_slice(),
            self.props.len(),
        )
    }
}

impl LookupError {
    /// The name that matched nothing.
    pub open spec fn name_view(&self) -> Seq<char> {
        match self {
            LookupError::UnknownItem(n) => n@,
            LookupError::UnknownGroup(n) => n@,
        }
    }

    /// The name that matched nothing.
    pub fn name(&self) -> (r: &String)
        ensures
            r@ == self.name_view(),
    {
        match self {
            LookupError::UnknownItem(n) => n,
            LookupError::UnknownGroup(n) => n,
        }
    }

    /// The message for the user: the name, in double quotes, and that it was not found.
    pub fn message(&self) -> (r: String)
        ensures
            r@ == "name \""@ + self.name_view() + "\" not found"@,
    {
        let mut s = String::from_str("name \"");
        s.append(self.name().as_str());
        s.append("\" not found");
        s
    }
}

/// A name is the text of a string in the list exactly if its code points are
/// the rank of one.
pub proof fn lemma_text_has_rank(v: Seq<String>, n: Seq<char>)
    ensures
        texts(v).contains(n) <==> has_rank(v, codes(n)),
{
    if texts(v).contains(n) {
        let i = choose|i: int| 0 <= i < texts(v).len() && texts(v)[i] == n;
        assert(v[i].rank() == codes(n));
    }
    if has_rank(v, codes(n)) {
        let i = choose|i: int| 0 <= i < v.len() && #[trigger] v[i].rank() == codes(n);
        lemma_codes_injective(v[i]@, n);
        assert(texts(v)[i] == n);
    }
}

/// An index is in a list exactly if its rank is the rank of an element.
pub proof fn lemma_index_has_rank(s: Seq<usize>, x: usize)
    ensures
        s.contains(x) <==> has_rank(s, x.rank()),
{
    if s.contains(x) {
        let i = choose|i: int| 0 <= i < s.len() && s[i] == x;
        assert(s[i].rank() == x.rank());
    }
    if has_rank(s, x.rank()) {
        let i = choose|i: int| 0 <= i < s.len() && #[trigger] s[i].rank() == x.rank();
        assert(s[i].rank()[0] == x.rank()[0]);
    }
}

/// For index lists, ascending by rank is ascending.
pub proof fn lemma_index_ranked(s: Seq<usize>)
    ensures
        strictly_ranked(s) <==> strictly_sorted(s),
{
    if strictly_ranked(s) {
        assert forall|i: int, j: int| 0 <= i < j < s.len() implies s[i] < s[j] by {
            let a = s[i].rank();
            let b = s[j].rank();
            assert(lex_lt(a, b));
            assert(agree_before(a, b, 0));
            if s[i] == s[j] {
                assert(agree_before(a, b, 1));
                lemma_lex_decide(a, b, 1);
            } else {
                lemma_lex_decide(a, b, 0);
            }
        }
    }
    if strictly_sorted(s) {
        assert forall|i: int, j: int| 0 <= i < j < s.len() implies lex_lt(
            #[trigger] s[i].rank(),
            #[trigger] s[j].rank(),
        ) by {
            let a = s[i].rank();
            let b = s[j].rank();
            assert(s[i] < s[j]);
            assert(agree_before(a, b, 0));
            lemma_lex_decide(a, b, 0);
        }
    }
}

/// For strings, ascending by rank is ascending in the order of names.
pub proof fn lemma_names_ranked(v: Seq<String>)
    ensures
        strictly_ranked(v) <==> names_sorted(texts(v)),
{
    let t = texts(v);
    if strictly_ranked(v) {
        assert forall|i: int, j: int| 0 <= i < j < t.len() implies name_lt(t[i], t[j]) by {
            assert(lex_lt(v[i].rank(), v[j].rank()));
        }
    }
    if names_sorted(t) {
        assert forall|i: int, j: int| 0 <= i < j < v.len() implies lex_lt(
            #[trigger] v[i].rank(),
            #[trigger] v[j].rank(),
        ) by {
            assert(name_lt(t[i], t[j]));
        }
    }
}

/// For groups, ascending by rank is ascending in the order of their names.
pub proof fn lemma_groups_ranked(v: Seq<(String, Vec<usize>)>)
    ensures
        strictly_ranked(v) <==> names_sorted(group_names(group_views(v))),
{
    let t = group_names(group_views(v));
    if strictly_ranked(v) {
        assert forall|i: int, j: int| 0 <= i < j < t.len() implies name_lt(t[i], t[j]) by {
            assert(lex_lt(v[i].rank(), v[j].rank()));
        }
    }
    if names_sorted(t) {
        assert forall|i: int, j: int| 0 <= i < j < v.len() implies lex_lt(
            #[trigger] v[i].rank(),
            #[trigger] v[j].rank(),
        ) by {
            assert(name_lt(t[i], t[j]));
        }
    }
}

/// For index lists, ascending by rank is ascending in the lexicographic order.
pub proof fn lemma_lists_ranked(v: Seq<Vec<usize>>)
    ensures
        strictly_ranked(v) <==> lists_sorted(lists(v)),
{
    let t = lists(v);
    if strictly_ranked(v) {
        assert forall|i: int, j: int| 0 <= i < j < t.len() implies lex_lt(ints(t[i]), ints(t[j])) by {
            assert(lex_lt(v[i].rank(), v[j].rank()));
        }
    }
    if lists_sorted(t) {
        assert forall|i: int, j: int| 0 <= i < j < v.len() implies lex_lt(
            #[trigger] v[i].rank(),
            #[trigger] v[j].rank(),
        ) by {
            assert(lex_lt(ints(t[i]), ints(t[j])));
        }
    }
}

/// The item names of a configuration in canonical form: strictly ascending,
/// each name once.
pub fn canonical_names(raw: &Vec<String>) -> (names: Vec<String>)
    ensures
        names_sorted(texts(names@)),
        strictly_ranked(names@),
        forall|n: Seq<char>| texts(names@).contains(n) <==> texts(raw@).contains(n),
{
    let mut names: Vec<String> = Vec::new();
    let mut k: usize = 0;
    while k < raw.len()
        invariant
            k <= raw.len(),
            strictly_ranked(names@),
            forall|r: Seq<int>| has_rank(names@, r) <==> has_rank(raw@.take(k as int), r),
        decreases raw.len() - k,
    {
        let s = raw[k].clone();
        let ghost before = names@;
        insert_unique(&mut names, s);
        proof {
            let t0 = raw@.take(k as int);
            let t1 = raw@.take(k + 1);
            assert forall|r: Seq<int>| has_rank(names@, r) <==> has_rank(t1, r) by {
                if has_rank(t0, r) {
                    let i = choose|i: int| 0 <= i < t0.len() && #[trigger] t0[i].rank() == r;
                    assert(t1[i].rank() == r);
                }
                if r == raw@[k as int].rank() {
                    assert(t1[k as int].rank() == r);
                }
                if has_rank(t1, r) {
                    let i = choose|i: int| 0 <= i < t1.len() && #[trigger] t1[i].rank() == r;
                    if i < k {
                        assert(t0[i].rank() == r);
                    }
                }
            }
        }
        k += 1;
    }
    proof {
        assert(raw@.take(k as int) =~= raw@);
        lemma_names_ranked(names@);
        assert forall|n: Seq<char>| texts(names@).contains(n) <==> texts(raw@).contains(n) by {
            lemma_text_has_rank(names@, n);
            lemma_text_has_rank(raw@, n);
        }
    }
    names
}

/// Looks every name of `refs` up in the strictly ascending list `names`.
/// `Ok` holds the positions found, strictly ascending, each once. `Err(k)`
/// says that `refs[k]` is the first name that is not in `names`.
pub fn resolve(names: &Vec<String>, refs: &Vec<String>) -> (r: Result<Vec<usize>, usize>)
    requires
        strictly_ranked(names@),
    ensures
        match r {
            Ok(idx) => all_known(texts(refs@), texts(names@)) && resolves(
                texts(names@),
                texts(refs@),
                idx@,
            ) && all_below(idx@, names@.len() as int),
            Err(k) => first_unknown(texts(refs@), texts(names@), k as int),
        },
{
    let mut idx: Vec<usize> = Vec::new();
    let mut k: usize = 0;
    let ghost known = texts(names@);
    let ghost wanted = texts(refs@);
    while k < refs.len()
        invariant
            k <= refs.len(),
            known == texts(names@),
            wanted == texts(refs@),
            strictly_ranked(names@),
            strictly_ranked(idx@),
            forall|j: int| 0 <= j < k ==> known.contains(#[trigger] wanted[j]),
            forall|x: usize|
                idx@.contains(x) <==> (x < known.len() && wanted.take(k as int).contains(
                    known[x as int],
                )),
        decreases refs.len() - k,
    {
        let ghost n = wanted[k as int];
        proof {
            lemma_text_has_rank(names@, n);
            assert(refs@[k as int].rank() == codes(n));
        }
        match search(names, &refs[k]) {
            Ok(i) => {
                let ghost before = idx@;
                proof {
                    lemma_codes_injective(names@[i as int]@, n);
                    assert(known[i as int] == n);
                }
                insert_unique(&mut idx, i);
                proof {
                    let t0 = wanted.take(k as int);
                    let t1 = wanted.take(k + 1);
                    assert(t1 =~= t0.push(n));
                    assert forall|x: usize|
                        idx@.contains(x) <==> (x < known.len() && t1.contains(
                            known[x as int],
                        )) by {
                        lemma_index_has_rank(idx@, x);
                        lemma_index_has_rank(before, x);
                        if x.rank() == i.rank() {
                            assert(x.rank()[0] == i.rank()[0]);
                        }
                        if x < known.len() && t1.contains(known[x as int]) {
                            let j = choose|j: int| 0 <= j < t1.len() && t1[j] == known[x as int];
                            if j < k {
                                assert(t0[j] == known[x as int]);
                            } else {
                                assert(names@[x as int].rank() == names@[i as int].rank());
                                lemma_ranks_distinct(names@, x as int, i as int);
                            }
                        }
                        if before.contains(x) {
                            let j = choose|j: int| 0 <= j < t0.len() && t0[j] == known[x as int];
                            assert(t1[j] == known[x as int]);
                        }
                        if x == i {
                            assert(t1[k as int] == known[x as int]);
                        }
                    }
                }
            },
            Err(_) => {
                return Err(k);
            },
        }
        k += 1;
    }
    proof {
        assert(wanted.take(k as int) =~= wanted);
        lemma_index_ranked(idx@);
        assert forall|i: int| 0 <= i < idx@.len() implies idx@[i] < names@.len() by {
            assert(idx@.contains(idx@[i]));
        }
    }
    Ok(idx)
}

/// The index list of the names `refs` in the name list `names`.
pub open spec fn resolved(names: Seq<Seq<char>>, refs: Seq<Seq<char>>) -> Seq<usize> {
    choose|idx: Seq<usize>| resolves(names, refs, idx)
}

/// An index list that resolves the names is the index list of the names.
pub proof fn lemma_resolved(names: Seq<Seq<char>>, refs: Seq<Seq<char>>, idx: Seq<usize>)
    requires
        resolves(names, refs, idx),
    ensures
        idx == resolved(names, refs),
        resolves(names, refs, resolved(names, refs)),
{
    lemma_resolves_unique(names, refs, idx, resolved(names, refs));
}

/// The index list that resolves given names in a given name list is unique.
pub proof fn lemma_resolves_unique(
    names: Seq<Seq<char>>,
    refs: Seq<Seq<char>>,
    a: Seq<usize>,
    b: Seq<usize>,
)
    requires
        resolves(names, refs, a),
        resolves(names, refs, b),
    ensures
        a == b,
{
    lemma_strictly_sorted_unique(a, b);
}

/// The groups of a configuration in canonical form: strictly ascending by
/// name, the members of each as a strictly ascending list of item indices.
/// `Err((l, k))` says that member `k` of group `l` is the first name that is
/// not an item.
pub fn canonical_groups(names: &Vec<String>, raw: &Vec<(String, Vec<String>)>) -> (r: Result<
    Vec<(String, Vec<usize>)>,
    (usize, usize),
>)
    requires
        strictly_ranked(names@),
        distinct_names(raw_group_names(raw_group_views(raw@))),
    ensures
        match r {
            Ok(props) => {
                let groups = group_views(props@);
                let rawv = raw_group_views(raw@);
                &&& all_lists_known(raw_member_lists(rawv), texts(names@))
                &&& strictly_ranked(props@)
                &&& names_sorted(group_names(groups))
                &&& forall|n: Seq<char>|
                    group_names(groups).contains(n) <==> raw_group_names(rawv).contains(n)
                &&& forall|g: int, r: int|
                    0 <= g < groups.len() && 0 <= r < rawv.len() && (#[trigger] groups[g]).0
                        == (#[trigger] rawv[r]).0 ==> resolves(
                        texts(names@),
                        rawv[r].1,
                        groups[g].1,
                    )
                &&& forall|g: int|
                    0 <= g < groups.len() ==> strictly_sorted((#[trigger] groups[g]).1)
                        && all_below(groups[g].1, names@.len() as int)
            },
            Err((l, k)) => first_unknown_in(
                raw_member_lists(raw_group_views(raw@)),
                texts(names@),
                l as int,
                k as int,
            ),
        },
{
    let mut props: Vec<(String, Vec<usize>)> = Vec::new();
    let mut g: usize = 0;
    let ghost known = texts(names@);
    let ghost rawv = raw_group_views(raw@);
    let ghost wanted = raw_member_lists(rawv);
    while g < raw.len()
        invariant
            g <= raw.len(),
            known == texts(names@),
            rawv == raw_group_views(raw@),
            wanted == raw_member_lists(rawv),
            strictly_ranked(names@),
            distinct_names(raw_group_names(rawv)),
            strictly_ranked(props@),
            forall|m: int| 0 <= m < g ==> all_known(#[trigger] wanted[m], known),
            forall|r: Seq<int>|
                has_rank(props@, r) <==> exists|j: int|
                    0 <= j < g && codes((#[trigger] rawv[j]).0) == r,
            forall|i: int|
                0 <= i < props@.len() ==> exists|j: int|
                    0 <= j < g && (#[trigger] rawv[j]).0 == (#[trigger] props@[i]).0@ && resolves(
                        known,
                        rawv[j].1,
                        props@[i].1@,
                    ) && all_below(props@[i].1@, known.len() as int),
        decreases raw.len() - g,
    {
        match resolve(names, &raw[g].1) {
            Ok(idx) => {
                let name = raw[g].0.clone();
                let ghost before = props@;
                let ghost entry = (name, idx);
                proof {
                    assert(rawv[g as int].0 == name@);
                    assert(rawv[g as int].1 == texts(raw@[g as int].1@));
                    assert(wanted[g as int] == rawv[g as int].1);
                    if has_rank(before, entry.rank()) {
                        let j = choose|j: int|
                            0 <= j < g && codes((#[trigger] rawv[j]).0) == entry.rank();
                        lemma_codes_injective(rawv[j].0, name@);
                        assert(raw_group_names(rawv)[j] == raw_group_names(rawv)[g as int]);
                    }
                }
                let pos = insert_unique(&mut props, (name, idx));
                proof {
                    assert(props@ == before.insert(pos as int, entry));
                    assert forall|r: Seq<int>|
                        has_rank(props@, r) <==> exists|j: int|
                            0 <= j < g + 1 && codes((#[trigger] rawv[j]).0) == r by {
                        if r == entry.rank() {
                            assert(codes(rawv[g as int].0) == r);
                        }
                    }
                    assert forall|i: int| 0 <= i < props@.len() implies exists|j: int|
                        0 <= j < g + 1 && (#[trigger] rawv[j]).0 == (#[trigger] props@[i]).0@
                            && resolves(known, rawv[j].1, props@[i].1@) && all_below(
                            props@[i].1@,
                            known.len() as int,
                        ) by {
                        if i == pos {
                            assert(props@[i] == entry);
                            assert(rawv[g as int].0 == props@[i].0@);
                        } else {
                            let i0 = if i < pos { i } else { i - 1 };
                            assert(props@[i] == before[i0]);
                            let j = choose|j: int|
                                0 <= j < g && (#[trigger] rawv[j]).0 == (#[trigger] before[i0]).0@
                                    && resolves(known, rawv[j].1, before[i0].1@) && all_below(
                                    before[i0].1@,
                                    known.len() as int,
                                );
                            assert(rawv[j].0 == props@[i].0@);
                        }
                    }
                }
            },
            Err(k) => {
                proof {
                    assert(wanted[g as int] == texts(raw@[g as int].1@));
                }
                return Err((g, k));
            },
        }
        g += 1;
    }
    proof {
        let groups = group_views(props@);
        assert forall|i: int, j: int| 0 <= i < j < groups.len() implies name_lt(
            group_names(groups)[i],
            group_names(groups)[j],
        ) by {
            assert(lex_lt(props@[i].rank(), props@[j].rank()));
        }
        assert forall|n: Seq<char>|
            group_names(groups).contains(n) <==> raw_group_names(rawv).contains(n) by {
            if group_names(groups).contains(n) {
                let i = choose|i: int|
                    0 <= i < group_names(groups).len() && group_names(groups)[i] == n;
                assert(props@[i].rank() == codes(n));
                assert(has_rank(props@, codes(n)));
                let j = choose|j: int| 0 <= j < g && codes((#[trigger] rawv[j]).0) == codes(n);
                lemma_codes_injective(rawv[j].0, n);
                assert(raw_group_names(rawv)[j] == n);
            }
            if raw_group_names(rawv).contains(n) {
                let j = choose|j: int|
                    0 <= j < raw_group_names(rawv).len() && raw_group_names(rawv)[j] == n;
                assert(codes(rawv[j].0) == codes(n));
                assert(has_rank(props@, codes(n)));
                let i = choose|i: int| 0 <= i < props@.len() && #[trigger] props@[i].rank() == codes(n);
                lemma_codes_injective(props@[i].0@, n);
                assert(group_names(groups)[i] == n);
            }
        }
        assert forall|i: int, r: int|
            0 <= i < groups.len() && 0 <= r < rawv.len() && (#[trigger] groups[i]).0
                == (#[trigger] rawv[r]).0 implies resolves(known, rawv[r].1, groups[i].1) by {
            let j = choose|j: int|
                0 <= j < g && (#[trigger] rawv[j]).0 == (#[trigger] props@[i]).0@ && resolves(
                    known,
                    rawv[j].1,
                    props@[i].1@,
                ) && all_below(props@[i].1@, known.len() as int);
            if j != r {
                assert(raw_group_names(rawv)[j] == raw_group_names(rawv)[r]);
            }
        }
        assert forall|i: int| 0 <= i < groups.len() implies strictly_sorted(
            (#[trigger] groups[i]).1,
        ) && all_below(groups[i].1, names@.len() as int) by {
            let j = choose|j: int|
                0 <= j < g && (#[trigger] rawv[j]).0 == (#[trigger] props@[i]).0@ && resolves(
                    known,
                    rawv[j].1,
                    props@[i].1@,
                ) && all_below(props@[i].1@, known.len() as int);
        }
    }
    Ok(props)
}

/// The avoid sets of a configuration in canonical form: each a strictly
/// ascending list of item indices, the lists strictly ascending in the
/// lexicographic order, each list once. `Err((l, k))` says that name `k` of
/// set `l` is the first name that is not an item.
pub fn canonical_avoid(names: &Vec<String>, raw: &Vec<Vec<String>>) -> (r: Result<
    Vec<Vec<usize>>,
    (usize, usize),
>)
    requires
        strictly_ranked(names@),
    ensures
        match r {
            Ok(avoid) => {
                &&& all_lists_known(text_lists(raw@), texts(names@))
                &&& lists_sorted(lists(avoid@))
                &&& forall|a: Seq<usize>|
                    lists(avoid@).contains(a) <==> exists|r: int|
                        0 <= r < raw@.len() && resolves(
                            texts(names@),
                            #[trigger] text_lists(raw@)[r],
                            a,
                        )
                &&& forall|a: int|
                    0 <= a < avoid@.len() ==> strictly_sorted(#[trigger] lists(avoid@)[a])
                        && all_below(lists(avoid@)[a], names@.len() as int)
            },
            Err((l, k)) => first_unknown_in(text_lists(raw@), texts(names@), l as int, k as int),
        },
{
    let mut avoid: Vec<Vec<usize>> = Vec::new();
    let mut g: usize = 0;
    let ghost known = texts(names@);
    let ghost wanted = text_lists(raw@);
    while g < raw.len()
        invariant
            g <= raw.len(),
            known == texts(names@),
            wanted == text_lists(raw@),
            strictly_ranked(names@),
            strictly_ranked(avoid@),
            forall|m: int| 0 <= m < g ==> all_known(#[trigger] wanted[m], known),
            forall|j: int|
                0 <= j < g ==> resolves(known, #[trigger] wanted[j], resolved(known, wanted[j])),
            forall|r: Seq<int>|
                has_rank(avoid@, r) <==> exists|j: int|
                    0 <= j < g && ints(resolved(known, #[trigger] wanted[j])) == r,
        decreases raw.len() - g,
    {
        match resolve(names, &raw[g]) {
            Ok(idx) => {
                proof {
                    assert(wanted[g as int] == texts(raw@[g as int]@));
                    lemma_resolved(known, wanted[g as int], idx@);
                    assert(idx.rank() == ints(resolved(known, wanted[g as int])));
                }
                insert_unique(&mut avoid, idx);
            },
            Err(k) => {
                proof {
                    assert(wanted[g as int] == texts(raw@[g as int]@));
                }
                return Err((g, k));
            },
        }
        g += 1;
    }
    proof {
        let ls = lists(avoid@);
        assert forall|i: int, j: int| 0 <= i < j < ls.len() implies lex_lt(
            ints(ls[i]),
            ints(ls[j]),
        ) by {
            assert(lex_lt(avoid@[i].rank(), avoid@[j].rank()));
        }
        assert forall|i: int| 0 <= i < avoid@.len() implies exists|j: int|
            0 <= j < g && resolves(known, #[trigger] wanted[j], (#[trigger] avoid@[i])@) by {
            assert(has_rank(avoid@, avoid@[i].rank()));
            let j = choose|j: int|
                0 <= j < g && ints(resolved(known, #[trigger] wanted[j])) == avoid@[i].rank();
            lemma_ints_injective(resolved(known, wanted[j]), avoid@[i]@);
        }
        assert forall|a: Seq<usize>|
            ls.contains(a) <==> exists|r: int|
                0 <= r < raw@.len() && resolves(known, #[trigger] wanted[r], a) by {
            if ls.contains(a) {
                let i = choose|i: int| 0 <= i < ls.len() && ls[i] == a;
                assert(avoid@[i]@ == a);
            }
            if exists|r: int| 0 <= r < raw@.len() && resolves(known, #[trigger] wanted[r], a) {
                let r = choose|r: int|
                    0 <= r < raw@.len() && resolves(known, #[trigger] wanted[r], a);
                lemma_resolved(known, wanted[r], a);
                assert(has_rank(avoid@, ints(a)));
                let i = choose|i: int| 0 <= i < avoid@.len() && #[trigger] avoid@[i].rank() == ints(a);
                lemma_ints_injective(avoid@[i]@, a);
                assert(ls[i] == a);
            }
        }
        assert forall|a: int| 0 <= a < avoid@.len() implies strictly_sorted(#[trigger] ls[a])
            && all_below(ls[a], names@.len() as int) by {
            let j = choose|j: int|
                0 <= j < g && resolves(known, #[trigger] wanted[j], (#[trigger] avoid@[a])@);
            let idx = avoid@[a]@;
            assert forall|i: int| 0 <= i < idx.len() implies idx[i] < known.len() by {
                assert(idx.contains(idx[i]));
            }
        }
    }
    Ok(avoid)
}

/// The names of the groups, in order.
pub fn names_of_groups(props: &Vec<(String, Vec<usize>)>) -> (r: Vec<String>)
    ensures
        texts(r@) == group_names(group_views(props@)),
{
    let mut out: Vec<String> = Vec::new();
    let mut i: usize = 0;
    while i < props.len()
        invariant
            i <= props.len(),
            out@.len() == i,
            forall|k: int| 0 <= k < i ==> (#[trigger] out@[k])@ == props@[k].0@,
        decreases props.len() - i,
    {
        out.push(props[i].0.clone());
        i += 1;
    }
    proof {
        assert(texts(out@) =~= group_names(group_views(props@)));
    }
    out
}

/// Whether no group name of the raw configuration occurs twice.
pub fn has_distinct_group_names(raw: &RawConfig) -> (r: bool)
    ensures
        r == distinct_names(raw_group_names(raw@.props)),
{
    let ghost gn = raw_group_names(raw@.props);
    let mut j: usize = 0;
    while j < raw.props.len()
        invariant
            j <= raw.props.len(),
            gn == raw_group_names(raw@.props),
            forall|a: int, b: int| 0 <= a < b < j ==> gn[a] != gn[b],
        decreases raw.props.len() - j,
    {
        let mut i: usize = 0;
        while i < j
            invariant
                i <= j < raw.props.len(),
                gn == raw_group_names(raw@.props),
                forall|a: int| 0 <= a < i ==> gn[a] != gn[j as int],
            decreases j - i,
        {
            if raw.props[i].0 == raw.props[j].0 {
                proof {
                    assert(gn[i as int] == gn[j as int]);
                }
                return false;
            }
            i += 1;
        }
        j += 1;
    }
    true
}

/// Builds the canonical model of a raw configuration. Every name is looked
/// up; the first one that matches nothing is reported, and no model is built.
pub fn create_data(raw: &RawConfig) -> (r: Result<Data, LookupError>)
    requires
        distinct_names(raw_group_names(raw@.props)),
    ensures
        r is Ok <==> raw@.resolvable(),
        match r {
            Ok(d) => is_canonical(raw@, d@),
            Err(LookupError::UnknownItem(n)) => raw@.first_unknown_item(n@),
            Err(LookupError::UnknownGroup(n)) => raw@.first_unknown_group(n@),
        },
{
    let names = canonical_names(&raw.names);
    let ghost known = texts(names@);
    let props = match canonical_groups(&names, &raw.props) {
        Ok(p) => p,
        Err((l, k)) => {
            let n = raw.props[l].1[k].clone();
            proof {
                let refs = raw_member_lists(raw@.props);
                assert(refs[l as int] == texts(raw.props@[l as int].1@));
                assert(first_unknown_in(refs, raw@.names, l as int, k as int));
                assert(n@ == raw@.props[l as int].1[k as int]);
                assert(!all_known(refs[l as int], raw@.names));
            }
            return Err(LookupError::UnknownItem(n));
        },
    };
    let avoid = match canonical_avoid(&names, &raw.avoid_grouping) {
        Ok(a) => a,
        Err((l, k)) => {
            let n = raw.avoid_grouping[l][k].clone();
            proof {
                let refs = raw@.avoid_grouping;
                assert(refs[l as int] == texts(raw.avoid_grouping@[l as int]@));
                assert(first_unknown_in(refs, raw@.names, l as int, k as int));
                assert(n@ == refs[l as int][k as int]);
                assert(!all_known(refs[l as int], raw@.names));
            }
            return Err(LookupError::UnknownItem(n));
        },
    };
    let group_list = names_of_groups(&props);
    proof {
        lemma_names_ranked(group_list@);
    }
    let ignore = match resolve(&group_list, &raw.ignore_groups) {
        Ok(i) => i,
        Err(k) => {
            let n = raw.ignore_groups[k].clone();
            proof {
                assert(first_unknown(
                    raw@.ignore_groups,
                    raw_group_names(raw@.props),
                    k as int,
                ));
                assert(n@ == raw@.ignore_groups[k as int]);
            }
            return Err(LookupError::UnknownGroup(n));
        },
    };
    let d = Data {
        names,
        props,
        avoid_grouping: avoid,
        ignore_groups: ignore,
        total: raw.total,
    };
    proof {
        let m = d@;
        assert(m.names.len() == d.names.len());
        assert(m.groups.len() == d.props.len());
        let rv = raw@;
        assert(group_names(m.groups) == texts(group_list@));
        assert(m.well_formed());
        assert(forall|g: int, r: int|
            0 <= g < m.groups.len() && 0 <= r < rv.props.len() && (#[trigger] m.groups[g]).0
                == (#[trigger] rv.props[r]).0 ==> resolves(m.names, rv.props[r].1, m.groups[g].1));
        assert(forall|a: Seq<usize>|
            m.avoid.contains(a) <==> exists|r: int|
                0 <= r < rv.avoid_grouping.len() && resolves(
                    m.names,
                    #[trigger] rv.avoid_grouping[r],
                    a,
                ));
    }
    Ok(d)
}

/// Building the model is a function of the configuration: two canonical
/// models of one raw configuration are the same model.
pub proof fn lemma_canonical_unique(raw: RawView, m1: ModelView, m2: ModelView)
    requires
        is_canonical(raw, m1),
        is_canonical(raw, m2),
    ensures
        m1 == m2,
{
    let by_codes = |n: Seq<char>| codes(n);
    let by_ints = |a: Seq<usize>| ints(a);
    assert(m1.names == m2.names) by {
        assert forall|i: int, j: int| 0 <= i < j < m1.names.len() implies lex_lt(
            #[trigger] by_codes(m1.names[i]),
            #[trigger] by_codes(m1.names[j]),
        ) by {
            assert(name_lt(m1.names[i], m1.names[j]));
        }
        assert forall|i: int, j: int| 0 <= i < j < m2.names.len() implies lex_lt(
            #[trigger] by_codes(m2.names[i]),
            #[trigger] by_codes(m2.names[j]),
        ) by {
            assert(name_lt(m2.names[i], m2.names[j]));
        }
        lemma_ascending_unique(m1.names, m2.names, by_codes);
    }
    let g1 = group_names(m1.groups);
    let g2 = group_names(m2.groups);
    assert(g1 == g2) by {
        assert forall|i: int, j: int| 0 <= i < j < g1.len() implies lex_lt(
            #[trigger] by_codes(g1[i]),
            #[trigger] by_codes(g1[j]),
        ) by {
            assert(name_lt(g1[i], g1[j]));
        }
        assert forall|i: int, j: int| 0 <= i < j < g2.len() implies lex_lt(
            #[trigger] by_codes(g2[i]),
            #[trigger] by_codes(g2[j]),
        ) by {
            assert(name_lt(g2[i], g2[j]));
        }
        lemma_ascending_unique(g1, g2, by_codes);
    }
    assert(m1.groups =~= m2.groups) by {
        assert(m1.groups.len() == g1.len());
        assert(m2.groups.len() == g2.len());
        assert forall|g: int| 0 <= g < m1.groups.len() implies m1.groups[g] == m2.groups[g] by {
            assert(g1[g] == m1.groups[g].0);
            assert(g2[g] == m2.groups[g].0);
            assert(g1.contains(g1[g]));
            let rn = raw_group_names(raw.props);
            assert(rn.contains(g1[g]));
            let r = choose|r: int| 0 <= r < rn.len() && rn[r] == g1[g];
            assert(raw.props[r].0 == m1.groups[g].0);
            assert(raw.props[r].0 == m2.groups[g].0);
            lemma_resolves_unique(m1.names, raw.props[r].1, m1.groups[g].1, m2.groups[g].1);
        }
    }
    assert(m1.avoid == m2.avoid) by {
        assert forall|i: int, j: int| 0 <= i < j < m1.avoid.len() implies lex_lt(
            #[trigger] by_ints(m1.avoid[i]),
            #[trigger] by_ints(m1.avoid[j]),
        ) by {
            assert(lex_lt(ints(m1.avoid[i]), ints(m1.avoid[j])));
        }
        assert forall|i: int, j: int| 0 <= i < j < m2.avoid.len() implies lex_lt(
            #[trigger] by_ints(m2.avoid[i]),
            #[trigger] by_ints(m2.avoid[j]),
        ) by {
            assert(lex_lt(ints(m2.avoid[i]), ints(m2.avoid[j])));
        }
        lemma_ascending_unique(m1.avoid, m2.avoid, by_ints);
    }
    assert(m1.ignore == m2.ignore) by {
        lemma_resolves_unique(g1, raw.ignore_groups, m1.ignore, m2.ignore);
    }
}

} // verus!
