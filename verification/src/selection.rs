//! What the formulas of the encoder mean.
//!
//! A valuation is a valid selection of a model if it meets six conditions,
//! stated here over the model itself. The main lemma says that a valuation
//! satisfies every formula of the encoder exactly if it is a valid selection.
//! What holds of every solution follows from it.

use crate::encode::{
    all_indices, avoid_cell, avoid_pairs, avoid_prop, avoid_props, avoid_row, avoid_with_earlier,
    concat_upto, constraints, group_size_prop, group_size_props, groups_of, groups_of_upto,
    ignore_prop, ignore_props, membership_prop, membership_props, overlap_pair, overlap_prop,
    overlap_props, overlap_row, total_prop, GROUP_SIZE,
};
use crate::formula::{
    count_true, exactly_prop, group_vars, item_vars, lemma_and_holds, lemma_count_full,
    lemma_exactly, lemma_or_holds, satisfies_all, var_props, Prop, Valuation, Var,
};
use crate::model::ModelView;
use crate::sorted::{intersect, lemma_intersect_members, strictly_sorted};
use vstd::prelude::*;

verus! {

impl Valuation {
    /// The valuation has a value for every item and every group of the model, and no more.
    pub open spec fn fits(self, m: ModelView) -> bool {
        self.items.len() == m.names.len() && self.groups.len() == m.groups.len()
    }

    /// Whether the item is selected.
    pub open spec fn selected(self, x: usize) -> bool {
        Var::Item(x).value(self)
    }

    /// Whether the group is active.
    pub open spec fn active(self, g: int) -> bool {
        0 <= g < self.groups.len() && self.groups[g]
    }
}

/// How many of the listed items are selected.
pub open spec fn selected_among(idx: Seq<usize>, v: Valuation) -> nat {
    count_true(item_vars(idx), v)
}

/// Every selected item is held by an active group.
pub open spec fn membership_ok(m: ModelView, v: Valuation) -> bool {
    forall|i: int|
        0 <= i < m.names.len() && #[trigger] v.selected(i as usize) ==> exists|g: int|
            0 <= g < m.groups.len() && (#[trigger] m.groups[g]).1.contains(i as usize) && v.active(
                g,
            )
}

/// Two active groups with a selected item in common have exactly
/// `GROUP_SIZE` selected items in common.
pub open spec fn overlap_ok(m: ModelView, v: Valuation) -> bool {
    forall|a: int, b: int|
        0 <= b < a < m.groups.len() && #[trigger] v.active(a) && #[trigger] v.active(b) && (exists|
            x: usize,
        |
            m.groups[a].1.contains(x) && m.groups[b].1.contains(x) && #[trigger] v.selected(x))
            ==> selected_among(intersect(m.groups[a].1, m.groups[b].1), v) == GROUP_SIZE
}

/// Every active group has exactly `GROUP_SIZE` selected members.
pub open spec fn group_size_ok(m: ModelView, v: Valuation) -> bool {
    forall|g: int|
        0 <= g < m.groups.len() && #[trigger] v.active(g) ==> selected_among(m.groups[g].1, v)
            == GROUP_SIZE
}

/// No active group has two selected members that belong to one avoid set.
pub open spec fn avoid_ok(m: ModelView, v: Valuation) -> bool {
    forall|g: int, s: int, x: usize, y: usize|
        0 <= g < m.groups.len() && 0 <= s < m.avoid.len() && x != y && v.active(g) && (
        #[trigger] m.groups[g]).1.contains(x) && m.groups[g].1.contains(y) && (
        #[trigger] m.avoid[s]).contains(x) && m.avoid[s].contains(y) ==> !(#[trigger] v.selected(x)
            && #[trigger] v.selected(y))
}

/// No ignored group is active.
pub open spec fn ignore_ok(m: ModelView, v: Valuation) -> bool {
    forall|k: int| 0 <= k < m.ignore.len() ==> !v.active(#[trigger] m.ignore[k] as int)
}

/// Exactly `m.total` items are selected.
pub open spec fn total_ok(m: ModelView, v: Valuation) -> bool {
    selected_among(all_indices(m.names.len()), v) == m.total
}

/// The valuation is a valid selection of the model.
pub open spec fn valid_selection(m: ModelView, v: Valuation) -> bool {
    &&& membership_ok(m, v)
    &&& overlap_ok(m, v)
    &&& group_size_ok(m, v)
    &&& avoid_ok(m, v)
    &&& ignore_ok(m, v)
    &&& total_ok(m, v)
}

/// A list put together from two is satisfied exactly if both are.
pub proof fn lemma_satisfies_add(a: Seq<Prop>, b: Seq<Prop>, v: Valuation)
    ensures
        satisfies_all(a + b, v) <==> satisfies_all(a, v) && satisfies_all(b, v),
{
    let c = a + b;
    if satisfies_all(c, v) {
        assert forall|i: int| 0 <= i < a.len() implies (#[trigger] a[i]).holds(v) by {
            assert(c[i] == a[i]);
        }
        assert forall|i: int| 0 <= i < b.len() implies (#[trigger] b[i]).holds(v) by {
            assert(c[a.len() + i] == b[i]);
        }
    }
    if satisfies_all(a, v) && satisfies_all(b, v) {
        assert forall|i: int| 0 <= i < c.len() implies (#[trigger] c[i]).holds(v) by {
            if i < a.len() {
                assert(c[i] == a[i]);
            } else {
                assert(c[i] == b[i - a.len()]);
            }
        }
    }
}

/// A list put together from `n` lists is satisfied exactly if each of them is.
pub proof fn lemma_satisfies_concat(n: nat, f: spec_fn(int) -> Seq<Prop>, v: Valuation)
    ensures
        satisfies_all(concat_upto(n, f), v) <==> forall|i: int|
            0 <= i < n ==> satisfies_all(#[trigger] f(i), v),
    decreases n,
{
    if n > 0 {
        lemma_satisfies_concat((n - 1) as nat, f, v);
        lemma_satisfies_add(concat_upto((n - 1) as nat, f), f(n - 1), v);
    }
}

/// A conjunction of three holds exactly if each holds.
pub proof fn lemma_and3(a: Prop, b: Prop, c: Prop, v: Valuation)
    ensures
        Prop::And(seq![a, b, c]).holds(v) <==> a.holds(v) && b.holds(v) && c.holds(v),
{
    let fs = seq![a, b, c];
    lemma_and_holds(fs, v);
    assert(fs[0] == a && fs[1] == b && fs[2] == c);
}

/// A disjunction of variables holds exactly if one of them is true.
pub proof fn lemma_any_var(vars: Seq<Var>, v: Valuation)
    ensures
        Prop::Or(var_props(vars)).holds(v) <==> exists|k: int|
            0 <= k < vars.len() && (#[trigger] vars[k]).value(v),
{
    let fs = var_props(vars);
    lemma_or_holds(fs, v);
    if Prop::Or(fs).holds(v) {
        let k = choose|k: int| 0 <= k < fs.len() && (#[trigger] fs[k]).holds(v);
        assert(vars[k].value(v));
    }
    if exists|k: int| 0 <= k < vars.len() && (#[trigger] vars[k]).value(v) {
        let k = choose|k: int| 0 <= k < vars.len() && (#[trigger] vars[k]).value(v);
        assert(fs[k].holds(v));
    }
}

/// One of the listed items is selected exactly if the list holds a selected item.
pub proof fn lemma_any_item(idx: Seq<usize>, v: Valuation)
    ensures
        Prop::Or(var_props(item_vars(idx))).holds(v) <==> exists|x: usize|
            idx.contains(x) && #[trigger] v.selected(x),
{
    let vars = item_vars(idx);
    lemma_any_var(vars, v);
    if exists|k: int| 0 <= k < vars.len() && (#[trigger] vars[k]).value(v) {
        let k = choose|k: int| 0 <= k < vars.len() && (#[trigger] vars[k]).value(v);
        assert(idx.contains(idx[k]));
        assert(v.selected(idx[k]));
    }
    if exists|x: usize| idx.contains(x) && #[trigger] v.selected(x) {
        let x = choose|x: usize| idx.contains(x) && #[trigger] v.selected(x);
        let k = choose|k: int| 0 <= k < idx.len() && idx[k] == x;
        assert(vars[k].value(v));
    }
}

/// The groups that hold an item: ascending, and exactly the groups below
/// `upto` whose members include the item.
pub proof fn lemma_groups_of(groups: Seq<(Seq<char>, Seq<usize>)>, item: usize, upto: nat)
    requires
        upto <= groups.len(),
        groups.len() <= usize::MAX,
    ensures
        strictly_sorted(groups_of_upto(groups, item, upto)),
        forall|g: usize|
            #[trigger] groups_of_upto(groups, item, upto).contains(g) <==> g < upto && groups[g as int].1.contains(
                item,
            ),
    decreases upto,
{
    if upto > 0 {
        let rest = groups_of_upto(groups, item, (upto - 1) as nat);
        let now = groups_of_upto(groups, item, upto);
        lemma_groups_of(groups, item, (upto - 1) as nat);
        let last = (upto - 1) as usize;
        if groups[upto - 1].1.contains(item) {
            assert(now == rest.push(last));
            assert forall|i: int, j: int| 0 <= i < j < now.len() implies now[i] < now[j] by {
                if j == rest.len() {
                    assert(rest.contains(rest[i]));
                }
            }
            assert forall|g: usize|
                now.contains(g) <==> g < upto && groups[g as int].1.contains(item) by {
                if now.contains(g) {
                    let i = choose|i: int| 0 <= i < now.len() && now[i] == g;
                    if i < rest.len() {
                        assert(rest[i] == g);
                        assert(rest.contains(g));
                    }
                }
                if g < upto && groups[g as int].1.contains(item) {
                    if g == last {
                        assert(now[rest.len() as int] == g);
                    } else {
                        assert(rest.contains(g));
                        let i = choose|i: int| 0 <= i < rest.len() && rest[i] == g;
                        assert(now[i] == g);
                    }
                }
            }
        }
    } else {
        let now = groups_of_upto(groups, item, upto);
        assert(now.len() == 0);
    }
}

/// What the membership formulas say.
pub proof fn lemma_membership(m: ModelView, v: Valuation)
    requires
        m.well_formed(),
        v.fits(m),
    ensures
        satisfies_all(membership_props(m), v) <==> membership_ok(m, v),
{
    let ps = membership_props(m);
    assert forall|i: int| 0 <= i < m.names.len() implies ((#[trigger] ps[i]).holds(v) <==> (
    v.selected(i as usize) ==> exists|g: int|
        0 <= g < m.groups.len() && (#[trigger] m.groups[g]).1.contains(i as usize) && v.active(
            g,
        ))) by {
        let item = i as usize;
        let holders = groups_of(m, item);
        let vars = group_vars(holders);
        lemma_groups_of(m.groups, item, m.groups.len());
        lemma_any_var(vars, v);
        assert(ps[i] == membership_prop(m, i));
        assert(Prop::Var(Var::Item(item)).holds(v) == v.selected(item));
        if exists|k: int| 0 <= k < vars.len() && (#[trigger] vars[k]).value(v) {
            let k = choose|k: int| 0 <= k < vars.len() && (#[trigger] vars[k]).value(v);
            let g = holders[k];
            assert(holders.contains(g));
            assert(m.groups[g as int].1.contains(item) && v.active(g as int));
        }
        if exists|g: int|
            0 <= g < m.groups.len() && (#[trigger] m.groups[g]).1.contains(item) && v.active(g) {
            let g = choose|g: int|
                0 <= g < m.groups.len() && (#[trigger] m.groups[g]).1.contains(item) && v.active(
                    g,
                );
            assert(holders.contains(g as usize));
            let k = choose|k: int| 0 <= k < holders.len() && holders[k] == g as usize;
            assert(vars[k].value(v));
        }
    }
    if satisfies_all(ps, v) {
        assert forall|i: int|
            0 <= i < m.names.len() && #[trigger] v.selected(i as usize) implies exists|g: int|
            0 <= g < m.groups.len() && (#[trigger] m.groups[g]).1.contains(i as usize) && v.active(
                g,
            ) by {
            assert(ps[i].holds(v));
        }
    }
    if membership_ok(m, v) {
        assert forall|i: int| 0 <= i < ps.len() implies (#[trigger] ps[i]).holds(v) by {
            if v.selected(i as usize) {
            }
        }
    }
}

/// What the overlap formula of two groups says.
pub proof fn lemma_overlap_pair(m: ModelView, v: Valuation, a: int, b: int)
    requires
        m.well_formed(),
        v.fits(m),
        0 <= b < a < m.groups.len(),
    ensures
        satisfies_all(overlap_pair(m, a, b), v) <==> (v.active(a) && v.active(b) && (exists|
            x: usize,
        |
            m.groups[a].1.contains(x) && m.groups[b].1.contains(x) && #[trigger] v.selected(x))
            ==> selected_among(intersect(m.groups[a].1, m.groups[b].1), v) == GROUP_SIZE),
{
    let shared = intersect(m.groups[a].1, m.groups[b].1);
    lemma_intersect_members(m.groups[a].1, m.groups[b].1);
    lemma_any_item(shared, v);
    let some = Prop::Or(var_props(item_vars(shared)));
    let ga = Prop::Var(Var::Group(a as usize));
    let gb = Prop::Var(Var::Group(b as usize));
    lemma_and3(ga, gb, some, v);
    lemma_exactly(item_vars(shared), GROUP_SIZE as nat, v);
    assert(ga.holds(v) == v.active(a));
    assert(gb.holds(v) == v.active(b));
    let ps = overlap_pair(m, a, b);
    if shared.len() == 0 {
        assert(ps.len() == 0);
        if exists|x: usize|
            m.groups[a].1.contains(x) && m.groups[b].1.contains(x) && #[trigger] v.selected(x) {
            let x = choose|x: usize|
                m.groups[a].1.contains(x) && m.groups[b].1.contains(x) && #[trigger] v.selected(
                    x,
                );
            assert(shared.contains(x));
        }
    } else {
        assert(ps.len() == 1);
        assert(ps[0] == overlap_prop(a, b, shared));
        if satisfies_all(ps, v) {
            assert(ps[0].holds(v));
        }
    }
}

/// What the overlap formulas say.
pub proof fn lemma_overlap(m: ModelView, v: Valuation)
    requires
        m.well_formed(),
        v.fits(m),
    ensures
        satisfies_all(overlap_props(m), v) <==> overlap_ok(m, v),
{
    let rows = |a: int| overlap_row(m, a);
    lemma_satisfies_concat(m.groups.len(), rows, v);
    assert forall|a: int| 0 <= a < m.groups.len() implies (satisfies_all(#[trigger] rows(a), v)
        <==> forall|b: int| 0 <= b < a ==> satisfies_all(#[trigger] overlap_pair(m, a, b), v)) by {
        let pairs = |b: int| overlap_pair(m, a, b);
        lemma_satisfies_concat(a as nat, pairs, v);
        assert(rows(a) == concat_upto(a as nat, pairs));
        assert forall|b: int| 0 <= b < a implies pairs(b) == overlap_pair(m, a, b) by {}
    }
    if satisfies_all(overlap_props(m), v) {
        assert forall|a: int, b: int|
            0 <= b < a < m.groups.len() && #[trigger] v.active(a) && #[trigger] v.active(b) && (
            exists|x: usize|
                m.groups[a].1.contains(x) && m.groups[b].1.contains(x) && #[trigger] v.selected(
                    x,
                )) implies selected_among(intersect(m.groups[a].1, m.groups[b].1), v)
            == GROUP_SIZE by {
            assert(satisfies_all(rows(a), v));
            assert(satisfies_all(overlap_pair(m, a, b), v));
            lemma_overlap_pair(m, v, a, b);
        }
    }
    if overlap_ok(m, v) {
        assert forall|a: int| 0 <= a < m.groups.len() implies satisfies_all(
            #[trigger] rows(a),
            v,
        ) by {
            assert forall|b: int| 0 <= b < a implies satisfies_all(
                #[trigger] overlap_pair(m, a, b),
                v,
            ) by {
                lemma_overlap_pair(m, v, a, b);
                if v.active(a) && v.active(b) {
                }
            }
        }
    }
}

/// What the group size formulas say.
pub proof fn lemma_group_size(m: ModelView, v: Valuation)
    requires
        m.well_formed(),
        v.fits(m),
    ensures
        satisfies_all(group_size_props(m), v) <==> group_size_ok(m, v),
{
    let ps = group_size_props(m);
    assert forall|g: int| 0 <= g < m.groups.len() implies ((#[trigger] ps[g]).holds(v) <==> (
    v.active(g) ==> selected_among(m.groups[g].1, v) == GROUP_SIZE)) by {
        lemma_exactly(item_vars(m.groups[g].1), GROUP_SIZE as nat, v);
        assert(ps[g] == group_size_prop(m, g));
        assert(Prop::Var(Var::Group(g as usize)).holds(v) == v.active(g));
    }
    if satisfies_all(ps, v) {
        assert forall|g: int| 0 <= g < m.groups.len() && #[trigger] v.active(g) implies selected_among(
            m.groups[g].1,
            v,
        ) == GROUP_SIZE by {
            assert(ps[g].holds(v));
        }
    }
    if group_size_ok(m, v) {
        assert forall|g: int| 0 <= g < ps.len() implies (#[trigger] ps[g]).holds(v) by {
            if v.active(g) {
            }
        }
    }
}

/// What one avoid formula says.
pub proof fn lemma_avoid_prop(g: int, x: usize, y: usize, v: Valuation)
    requires
        0 <= g <= usize::MAX,
    ensures
        avoid_prop(g, x, y).holds(v) <==> !(v.active(g) && v.selected(x) && v.selected(y)),
{
    let pg = Prop::Var(Var::Group(g as usize));
    let px = Prop::Var(Var::Item(x));
    let py = Prop::Var(Var::Item(y));
    lemma_and3(pg, px, py, v);
    assert(pg.holds(v) == v.active(g));
    assert(px.holds(v) == v.selected(x));
    assert(py.holds(v) == v.selected(y));
}

/// What the avoid formulas of one group and one list of items say.
pub proof fn lemma_avoid_pairs(g: int, inter: Seq<usize>, v: Valuation)
    requires
        0 <= g <= usize::MAX,
        strictly_sorted(inter),
    ensures
        satisfies_all(avoid_pairs(g, inter), v) <==> forall|x: usize, y: usize|
            x != y && inter.contains(x) && inter.contains(y) && v.active(g) ==> !(
            #[trigger] v.selected(x) && #[trigger] v.selected(y)),
{
    let rows = |p: int| avoid_with_earlier(g, inter, p);
    lemma_satisfies_concat(inter.len(), rows, v);
    assert forall|p: int, q: int| 0 <= q < p < inter.len() implies ((#[trigger] rows(p)[q]).holds(
        v,
    ) <==> !(v.active(g) && v.selected(inter[p]) && v.selected(inter[q]))) by {
        lemma_avoid_prop(g, inter[p], inter[q], v);
    }
    if satisfies_all(avoid_pairs(g, inter), v) {
        assert forall|x: usize, y: usize|
            x != y && inter.contains(x) && inter.contains(y) && v.active(g) implies !(
        #[trigger] v.selected(x) && #[trigger] v.selected(y)) by {
            let i = choose|i: int| 0 <= i < inter.len() && inter[i] == x;
            let j = choose|j: int| 0 <= j < inter.len() && inter[j] == y;
            if i < j {
                assert(satisfies_all(rows(j), v));
                assert(rows(j)[i].holds(v));
            } else {
                assert(satisfies_all(rows(i), v));
                assert(rows(i)[j].holds(v));
            }
        }
    }
    if forall|x: usize, y: usize|
        x != y && inter.contains(x) && inter.contains(y) && v.active(g) ==> !(
        #[trigger] v.selected(x) && #[trigger] v.selected(y)) {
        assert forall|p: int| 0 <= p < inter.len() implies satisfies_all(#[trigger] rows(p), v) by {
            assert forall|q: int| 0 <= q < rows(p).len() implies (#[trigger] rows(p)[q]).holds(
                v,
            ) by {
                let x = inter[p];
                let y = inter[q];
                assert(inter.contains(x) && inter.contains(y));
                assert(y < x);
                if v.active(g) {
                    assert(!(v.selected(x) && v.selected(y)));
                }
            }
        }
    }
}

/// What the avoid formulas say.
pub proof fn lemma_avoid(m: ModelView, v: Valuation)
    requires
        m.well_formed(),
        v.fits(m),
    ensures
        satisfies_all(avoid_props(m), v) <==> avoid_ok(m, v),
{
    let rows = |g: int| avoid_row(m, g);
    lemma_satisfies_concat(m.groups.len(), rows, v);
    assert forall|g: int, s: int| 0 <= g < m.groups.len() && 0 <= s < m.avoid.len() implies (
    satisfies_all(#[trigger] avoid_cell(m, g, s), v) <==> forall|x: usize, y: usize|
        x != y && m.groups[g].1.contains(x) && m.groups[g].1.contains(y) && m.avoid[s].contains(x)
            && m.avoid[s].contains(y) && v.active(g) ==> !(#[trigger] v.selected(x)
            && #[trigger] v.selected(y))) by {
        let inter = intersect(m.groups[g].1, m.avoid[s]);
        lemma_intersect_members(m.groups[g].1, m.avoid[s]);
        lemma_avoid_pairs(g, inter, v);
    }
    assert forall|g: int| 0 <= g < m.groups.len() implies (satisfies_all(#[trigger] rows(g), v)
        <==> forall|s: int| 0 <= s < m.avoid.len() ==> satisfies_all(#[trigger] avoid_cell(m, g, s), v)) by {
        let cells = |s: int| avoid_cell(m, g, s);
        lemma_satisfies_concat(m.avoid.len(), cells, v);
        assert(rows(g) == concat_upto(m.avoid.len(), cells));
        assert forall|s: int| 0 <= s < m.avoid.len() implies cells(s) == avoid_cell(m, g, s) by {}
    }
    if satisfies_all(avoid_props(m), v) {
        assert forall|g: int, s: int, x: usize, y: usize|
            0 <= g < m.groups.len() && 0 <= s < m.avoid.len() && x != y && v.active(g) && (
            #[trigger] m.groups[g]).1.contains(x) && m.groups[g].1.contains(y) && (
            #[trigger] m.avoid[s]).contains(x) && m.avoid[s].contains(y) implies !(
        #[trigger] v.selected(x) && #[trigger] v.selected(y)) by {
            assert(satisfies_all(rows(g), v));
            assert(satisfies_all(avoid_cell(m, g, s), v));
        }
    }
    if avoid_ok(m, v) {
        assert forall|g: int| 0 <= g < m.groups.len() implies satisfies_all(
            #[trigger] rows(g),
            v,
        ) by {
            assert forall|s: int| 0 <= s < m.avoid.len() implies satisfies_all(
                #[trigger] avoid_cell(m, g, s),
                v,
            ) by {
                assert forall|x: usize, y: usize|
                    x != y && m.groups[g].1.contains(x) && m.groups[g].1.contains(y)
                        && m.avoid[s].contains(x) && m.avoid[s].contains(y) && v.active(g) implies !(
                #[trigger] v.selected(x) && #[trigger] v.selected(y)) by {
                    assert(m.groups[g].1.contains(x));
                    assert(m.avoid[s].contains(x));
                }
            }
        }
    }
}

/// What the ignore formulas say.
pub proof fn lemma_ignore(m: ModelView, v: Valuation)
    ensures
        satisfies_all(ignore_props(m), v) <==> ignore_ok(m, v),
{
    let ps = ignore_props(m);
    assert forall|k: int| 0 <= k < m.ignore.len() implies ((#[trigger] ps[k]).holds(v) <==> !v.active(
        m.ignore[k] as int,
    )) by {
        assert(ps[k] == ignore_prop(m, k));
        assert(Prop::Var(Var::Group(m.ignore[k])).holds(v) == v.active(m.ignore[k] as int));
    }
    if satisfies_all(ps, v) {
        assert forall|k: int| 0 <= k < m.ignore.len() implies !v.active(
            #[trigger] m.ignore[k] as int,
        ) by {
            assert(ps[k].holds(v));
        }
    }
}

/// A valuation satisfies every formula of the encoder exactly if it is a
/// valid selection of the model.
pub proof fn lemma_constraints_meaning(m: ModelView, v: Valuation)
    requires
        m.well_formed(),
        v.fits(m),
    ensures
        satisfies_all(constraints(m), v) <==> valid_selection(m, v),
{
    lemma_membership(m, v);
    lemma_overlap(m, v);
    lemma_group_size(m, v);
    lemma_avoid(m, v);
    lemma_ignore(m, v);
    lemma_exactly(item_vars(all_indices(m.names.len())), m.total as nat, v);
    let last = seq![total_prop(m)];
    assert(satisfies_all(last, v) <==> total_ok(m, v)) by {
        assert(last[0] == total_prop(m));
        if satisfies_all(last, v) {
            assert(last[0].holds(v));
        }
    }
    let c1 = membership_props(m);
    let c2 = c1 + overlap_props(m);
    let c3 = c2 + group_size_props(m);
    let c4 = c3 + avoid_props(m);
    let c5 = c4 + ignore_props(m);
    lemma_satisfies_add(c1, overlap_props(m), v);
    lemma_satisfies_add(c2, group_size_props(m), v);
    lemma_satisfies_add(c3, avoid_props(m), v);
    lemma_satisfies_add(c4, ignore_props(m), v);
    lemma_satisfies_add(c5, last, v);
}

/// In every assignment that satisfies the formulas of the encoder, every
/// active group has exactly `GROUP_SIZE` selected members.
pub proof fn lemma_active_groups_are_full(m: ModelView, v: Valuation)
    requires
        m.well_formed(),
        v.fits(m),
        satisfies_all(constraints(m), v),
    ensures
        forall|g: int|
            0 <= g < m.groups.len() && #[trigger] v.active(g) ==> selected_among(m.groups[g].1, v)
                == GROUP_SIZE,
{
    lemma_constraints_meaning(m, v);
}

/// In every assignment that satisfies the formulas of the encoder, exactly
/// `m.total` items are selected.
pub proof fn lemma_total_is_met(m: ModelView, v: Valuation)
    requires
        m.well_formed(),
        v.fits(m),
        satisfies_all(constraints(m), v),
    ensures
        selected_among(all_indices(m.names.len()), v) == m.total,
{
    lemma_constraints_meaning(m, v);
}

/// In every assignment that satisfies the formulas of the encoder, no active
/// group has two selected members that belong to one avoid set.
pub proof fn lemma_avoided_items_stay_apart(
    m: ModelView,
    v: Valuation,
    g: int,
    s: int,
    x: usize,
    y: usize,
)
    requires
        m.well_formed(),
        v.fits(m),
        satisfies_all(constraints(m), v),
        0 <= g < m.groups.len(),
        0 <= s < m.avoid.len(),
        x != y,
        v.active(g),
        m.groups[g].1.contains(x) && m.groups[g].1.contains(y),
        m.avoid[s].contains(x) && m.avoid[s].contains(y),
    ensures
        !(v.selected(x) && v.selected(y)),
{
    lemma_constraints_meaning(m, v);
    assert(avoid_ok(m, v));
    assert(m.groups[g].1.contains(x));
    assert(m.avoid[s].contains(x));
}

/// In every assignment that satisfies the formulas of the encoder, no
/// ignored group is active.
pub proof fn lemma_ignored_groups_are_inactive(m: ModelView, v: Valuation)
    requires
        m.well_formed(),
        v.fits(m),
        satisfies_all(constraints(m), v),
    ensures
        forall|k: int| 0 <= k < m.ignore.len() ==> !v.active(#[trigger] m.ignore[k] as int),
{
    lemma_constraints_meaning(m, v);
}

/// An item that no group holds is selected in no assignment that satisfies
/// the formulas of the encoder.
pub proof fn lemma_item_without_group_is_never_selected(m: ModelView, v: Valuation, i: int)
    requires
        m.well_formed(),
        v.fits(m),
        satisfies_all(constraints(m), v),
        0 <= i < m.names.len(),
        forall|g: int| 0 <= g < m.groups.len() ==> !(#[trigger] m.groups[g]).1.contains(i as usize),
    ensures
        !v.selected(i as usize),
{
    lemma_constraints_meaning(m, v);
    if v.selected(i as usize) {
        assert(membership_ok(m, v));
    }
}

/// The model is a partition into full groups: the groups share no item,
/// every group has `GROUP_SIZE` members, every item is in a group, there are
/// no avoid sets and no ignored groups, and every item is to be selected.
pub open spec fn partitioned(m: ModelView) -> bool {
    &&& m.total == m.names.len()
    &&& m.avoid.len() == 0
    &&& m.ignore.len() == 0
    &&& forall|g: int| 0 <= g < m.groups.len() ==> (#[trigger] m.groups[g]).1.len() == GROUP_SIZE
    &&& forall|a: int, b: int, x: usize|
        0 <= b < a < m.groups.len() && #[trigger] m.groups[a].1.contains(x) ==> !(
        #[trigger] m.groups[b].1.contains(x))
    &&& forall|x: usize| x < m.names.len() ==> #[trigger] in_some_group(m, x)
}

/// Some group holds the item.
pub open spec fn in_some_group(m: ModelView, x: usize) -> bool {
    exists|g: int| 0 <= g < m.groups.len() && (#[trigger] m.groups[g]).1.contains(x)
}

/// The valuation that selects every item and makes every group active.
pub open spec fn everything(m: ModelView) -> Valuation {
    Valuation {
        items: Seq::new(m.names.len(), |i: int| true),
        groups: Seq::new(m.groups.len(), |g: int| true),
    }
}

/// A model that is a partition into full groups has exactly one valid
/// selection: every item selected, every group active.
pub proof fn lemma_partition_has_one_selection(m: ModelView, v: Valuation)
    requires
        m.well_formed(),
        partitioned(m),
        v.fits(m),
    ensures
        valid_selection(m, v) <==> v == everything(m),
{
    let n = m.names.len();
    let all = item_vars(all_indices(n));
    lemma_count_full(all, v);
    if valid_selection(m, v) {
        assert forall|i: int| 0 <= i < n implies v.items[i] by {
            assert(all[i] == Var::Item(i as usize));
            assert(all[i].value(v));
        }
        assert forall|g: int| 0 <= g < m.groups.len() implies v.groups[g] by {
            let members = m.groups[g].1;
            let x = members[0];
            assert(members.contains(x));
            assert(x < n);
            let i = x as int;
            assert(v.items[i]);
            assert(v.selected(i as usize));
            let h = choose|h: int|
                0 <= h < m.groups.len() && (#[trigger] m.groups[h]).1.contains(x) && v.active(h);
            assert(m.groups[h].1.contains(x));
            if h < g {
                assert(!m.groups[h].1.contains(x));
            } else if g < h {
                assert(!m.groups[g].1.contains(x));
            }
        }
        assert(v.items =~= everything(m).items);
        assert(v.groups =~= everything(m).groups);
    }
    if v == everything(m) {
        assert forall|k: int| 0 <= k < all.len() implies (#[trigger] all[k]).value(v) by {
            assert(all[k] == Var::Item(k as usize));
        }
        assert(total_ok(m, v));
        assert(membership_ok(m, v)) by {
            assert forall|i: int|
                0 <= i < m.names.len() && #[trigger] v.selected(i as usize) implies exists|g: int|
                0 <= g < m.groups.len() && (#[trigger] m.groups[g]).1.contains(i as usize)
                    && v.active(g) by {
                assert(in_some_group(m, i as usize));
                let g = choose|g: int|
                    0 <= g < m.groups.len() && (#[trigger] m.groups[g]).1.contains(i as usize);
                assert(v.active(g));
            }
        }
        assert(overlap_ok(m, v)) by {
            assert forall|a: int, b: int|
                0 <= b < a < m.groups.len() && #[trigger] v.active(a) && #[trigger] v.active(b)
                    && (exists|x: usize|
                    m.groups[a].1.contains(x) && m.groups[b].1.contains(x) && #[trigger] v.selected(
                        x,
                    )) implies selected_among(intersect(m.groups[a].1, m.groups[b].1), v)
                == GROUP_SIZE by {
                let x = choose|x: usize|
                    m.groups[a].1.contains(x) && m.groups[b].1.contains(x) && #[trigger] v.selected(
                        x,
                    );
                assert(m.groups[a].1.contains(x));
                assert(!m.groups[b].1.contains(x));
            }
        }
        assert(group_size_ok(m, v)) by {
            assert forall|g: int| 0 <= g < m.groups.len() && #[trigger] v.active(g) implies selected_among(
                m.groups[g].1,
                v,
            ) == GROUP_SIZE by {
                let members = m.groups[g].1;
                let vars = item_vars(members);
                lemma_count_full(vars, v);
                assert forall|k: int| 0 <= k < vars.len() implies (#[trigger] vars[k]).value(v) by {
                    assert(vars[k] == Var::Item(members[k]));
                    assert(members[k] < n);
                }
            }
        }
    }
}

/// Two valid selections of a model that is a partition into full groups are
/// the same selection: of such a model no list of distinct valid selections
/// has more than one entry.
pub proof fn lemma_partition_selections_agree(m: ModelView, v: Valuation, w: Valuation)
    requires
        m.well_formed(),
        partitioned(m),
        v.fits(m),
        w.fits(m),
        valid_selection(m, v),
        valid_selection(m, w),
    ensures
        v == w,
{
    lemma_partition_has_one_selection(m, v);
    lemma_partition_has_one_selection(m, w);
}

} // verus!
