//! The result projector: from an assignment back to group names and item names.

use crate::encode::{all_indices, GROUP_SIZE};
use crate::formula::{count_true, item_vars, Assignment, Valuation, Var};
use crate::model::{raw_group_views, texts, Data, ModelView};
use crate::selection::{group_size_ok, selected_among, total_ok};
use crate::sorted::{
    intersect, intersection, lemma_intersect_members, lemma_strictly_sorted_unique,
    strictly_sorted,
};
use vstd::prelude::*;

verus! {

/// The positions below `upto` that hold `true`, ascending.
pub open spec fn true_upto(values: Seq<bool>, upto: nat) -> Seq<usize>
    decreases upto,
{
    if upto == 0 {
        Seq::empty()
    } else {
        let rest = true_upto(values, (upto - 1) as nat);
        if values[upto - 1] {
            rest.push((upto - 1) as usize)
        } else {
            rest
        }
    }
}

/// The positions that hold `true`, ascending.
pub open spec fn true_indices(values: Seq<bool>) -> Seq<usize> {
    true_upto(values, values.len())
}

/// The names at the given positions, in the order of the positions.
pub open spec fn names_at(names: Seq<Seq<char>>, idx: Seq<usize>) -> Seq<Seq<char>> {
    Seq::new(idx.len(), |k: int| names[idx[k] as int])
}

/// What is reported of group `g`: its name, and the names of its selected members.
pub open spec fn report_of(m: ModelView, v: Valuation, g: int) -> (Seq<char>, Seq<Seq<char>>) {
    (m.groups[g].0, names_at(m.names, intersect(true_indices(v.items), m.groups[g].1)))
}

/// What is reported of a selection: for every active group, in the order of
/// the groups, its name and the names of its selected members, in the order
/// of the items.
pub open spec fn projection(m: ModelView, v: Valuation) -> Seq<(Seq<char>, Seq<Seq<char>>)> {
    let active = true_indices(v.groups);
    Seq::new(active.len(), |k: int| report_of(m, v, active[k] as int))
}

/// The positions that hold `true`: ascending, and exactly the positions
/// below `upto` whose value is `true`.
pub proof fn lemma_true_upto(values: Seq<bool>, upto: nat)
    requires
        upto <= values.len(),
        values.len() <= usize::MAX,
    ensures
        strictly_sorted(true_upto(values, upto)),
        forall|x: usize|
            #[trigger] true_upto(values, upto).contains(x) <==> x < upto && values[x as int],
    decreases upto,
{
    let now = true_upto(values, upto);
    if upto > 0 {
        let rest = true_upto(values, (upto - 1) as nat);
        lemma_true_upto(values, (upto - 1) as nat);
        let last = (upto - 1) as usize;
        if values[upto - 1] {
            assert(now == rest.push(last));
            assert forall|i: int, j: int| 0 <= i < j < now.len() implies now[i] < now[j] by {
                if j == rest.len() {
                    assert(rest.contains(rest[i]));
                }
            }
            assert forall|x: usize| #[trigger] now.contains(x) <==> x < upto && values[x as int] by {
                if now.contains(x) {
                    let i = choose|i: int| 0 <= i < now.len() && now[i] == x;
                    if i < rest.len() {
                        assert(rest[i] == x);
                        assert(rest.contains(x));
                    }
                }
                if x < upto && values[x as int] {
                    if x == last {
                        assert(now[rest.len() as int] == x);
                    } else {
                        assert(rest.contains(x));
                        let i = choose|i: int| 0 <= i < rest.len() && rest[i] == x;
                        assert(now[i] == x);
                    }
                }
            }
        }
    } else {
        assert(now.len() == 0);
    }
}

/// The positions that hold `true`, ascending.
pub fn chosen(values: &Vec<bool>) -> (r: Vec<usize>)
    ensures
        r@ == true_indices(values@),
        strictly_sorted(r@),
        forall|k: int| 0 <= k < r@.len() ==> r@[k] < values@.len() && values@[r@[k] as int],
{
    let mut r: Vec<usize> = Vec::new();
    let mut i: usize = 0;
    while i < values.len()
        invariant
            i <= values.len(),
            r@ == true_upto(values@, i as nat),
        decreases values.len() - i,
    {
        if values[i] {
            r.push(i);
        }
        i += 1;
    }
    proof {
        lemma_true_upto(values@, values@.len());
        assert forall|k: int| 0 <= k < r@.len() implies r@[k] < values@.len() && values@[r@[k] as int] by {
            assert(r@.contains(r@[k]));
        }
    }
    r
}

/// The names at the given positions, in the order of the positions.
pub fn names_of(names: &Vec<String>, idx: &Vec<usize>) -> (r: Vec<String>)
    requires
        forall|k: int| 0 <= k < idx@.len() ==> idx@[k] < names@.len(),
    ensures
        texts(r@) == names_at(texts(names@), idx@),
{
    let mut r: Vec<String> = Vec::new();
    let mut k: usize = 0;
    while k < idx.len()
        invariant
            k <= idx.len(),
            r@.len() == k,
            forall|j: int| 0 <= j < idx@.len() ==> idx@[j] < names@.len(),
            forall|j: int| 0 <= j < k ==> (#[trigger] r@[j])@ == names@[idx@[j] as int]@,
        decreases idx.len() - k,
    {
        r.push(names[idx[k]].clone());
        k += 1;
    }
    proof {
        assert(texts(r@) =~= names_at(texts(names@), idx@));
    }
    r
}

/// What is reported of a selection: for every active group, in the order of
/// the groups, its name and the names of its selected members, in the order
/// of the items.
pub fn project(data: &Data, a: &Assignment) -> (out: Vec<(String, Vec<String>)>)
    requires
        data.well_formed(),
        a@.fits(data@),
    ensures
        raw_group_views(out@) == projection(data@, a@),
{
    let active = chosen(&a.groups);
    let selected = chosen(&a.items);
    let ghost m = data@;
    let ghost v = a@;
    let mut out: Vec<(String, Vec<String>)> = Vec::new();
    let mut k: usize = 0;
    while k < active.len()
        invariant
            k <= active.len(),
            m == data@,
            v == a@,
            data.well_formed(),
            v.fits(m),
            active@ == true_indices(v.groups),
            selected@ == true_indices(v.items),
            strictly_sorted(selected@),
            forall|j: int| 0 <= j < active@.len() ==> active@[j] < v.groups.len(),
            forall|j: int| 0 <= j < selected@.len() ==> selected@[j] < v.items.len(),
            out@.len() == k,
            forall|j: int| 0 <= j < k ==> raw_group_views(out@)[j] == report_of(m, v, active@[j] as int),
        decreases active.len() - k,
    {
        let g = active[k];
        proof {
            assert(m.groups[g as int].1 == data.props@[g as int].1@);
            assert(strictly_sorted(m.groups[g as int].1));
        }
        let members = intersection(selected.as_slice(), data.props[g].1.as_slice());
        proof {
            assert forall|j: int| 0 <= j < members@.len() implies members@[j] < data.names@.len() by {
                let x = members@[j];
                assert(selected@.contains(x));
                let i = choose|i: int| 0 <= i < selected@.len() && selected@[i] == x;
            }
        }
        let names = names_of(&data.names, &members);
        let ghost before = out@;
        out.push((data.props[g].0.clone(), names));
        proof {
            assert forall|j: int| 0 <= j < k + 1 implies raw_group_views(out@)[j] == report_of(
                m,
                v,
                active@[j] as int,
            ) by {
                if j < k {
                    assert(out@[j] == before[j]);
                    assert(raw_group_views(before)[j] == report_of(m, v, active@[j] as int));
                }
            }
        }
        k += 1;
    }
    proof {
        assert(raw_group_views(out@) =~= projection(m, v));
    }
    out
}

/// What is reported of each of the selections, in order.
pub fn project_all(data: &Data, sols: &Vec<Assignment>) -> (out: Vec<Vec<(String, Vec<String>)>>)
    requires
        data.well_formed(),
        forall|k: int| 0 <= k < sols@.len() ==> (#[trigger] sols@[k])@.fits(data@),
    ensures
        out@.len() == sols@.len(),
        forall|k: int|
            0 <= k < out@.len() ==> raw_group_views((#[trigger] out@[k])@) == projection(
                data@,
                sols@[k]@,
            ),
{
    let mut out: Vec<Vec<(String, Vec<String>)>> = Vec::new();
    let mut k: usize = 0;
    while k < sols.len()
        invariant
            k <= sols.len(),
            data.well_formed(),
            forall|j: int| 0 <= j < sols@.len() ==> (#[trigger] sols@[j])@.fits(data@),
            out@.len() == k,
            forall|j: int|
                0 <= j < k ==> raw_group_views((#[trigger] out@[j])@) == projection(
                    data@,
                    sols@[j]@,
                ),
        decreases sols.len() - k,
    {
        out.push(project(data, &sols[k]));
        k += 1;
    }
    out
}

/// As many positions hold `true` as items are selected.
pub proof fn lemma_selected_count(v: Valuation, upto: nat)
    requires
        upto <= v.items.len(),
        v.items.len() <= usize::MAX,
    ensures
        true_upto(v.items, upto).len() == selected_among(all_indices(upto), v),
    decreases upto,
{
    if upto > 0 {
        lemma_selected_count(v, (upto - 1) as nat);
        let vars = item_vars(all_indices(upto));
        assert(vars.drop_last() =~= item_vars(all_indices((upto - 1) as nat)));
        assert(vars.last() == Var::Item((upto - 1) as usize));
    } else {
        assert(item_vars(all_indices(0)).len() == 0);
    }
}

/// Of a list of items without repeats, the selected ones are as many as the
/// list has in common with the list of all selected items.
pub proof fn lemma_selected_members(idx: Seq<usize>, v: Valuation)
    requires
        strictly_sorted(idx),
        v.items.len() <= usize::MAX,
    ensures
        intersect(true_indices(v.items), idx).len() == selected_among(idx, v),
    decreases idx.len(),
{
    let all = true_indices(v.items);
    lemma_true_upto(v.items, v.items.len());
    lemma_intersect_members(all, idx);
    let r = intersect(all, idx);
    if idx.len() == 0 {
        if r.len() > 0 {
            assert(r.contains(r[0]));
            assert(idx.contains(r[0]));
        }
        assert(item_vars(idx).len() == 0);
    } else {
        let rest = idx.drop_last();
        let x = idx.last();
        assert(strictly_sorted(rest)) by {
            assert forall|i: int, j: int| 0 <= i < j < rest.len() implies rest[i] < rest[j] by {
                assert(rest[i] == idx[i] && rest[j] == idx[j]);
            }
        }
        lemma_selected_members(rest, v);
        lemma_intersect_members(all, rest);
        let r0 = intersect(all, rest);
        let c = if v.selected(x) {
            r0.push(x)
        } else {
            r0
        };
        assert(strictly_sorted(c)) by {
            assert forall|i: int, j: int| 0 <= i < j < c.len() implies c[i] < c[j] by {
                if j == r0.len() {
                    assert(r0.contains(r0[i]));
                    assert(rest.contains(r0[i]));
                    let k = choose|k: int| 0 <= k < rest.len() && rest[k] == r0[i];
                    assert(idx[k] < idx[idx.len() - 1]);
                }
            }
        }
        assert forall|y: usize| r.contains(y) <==> c.contains(y) by {
            if idx.contains(y) {
                let k = choose|k: int| 0 <= k < idx.len() && idx[k] == y;
                if k < rest.len() {
                    assert(rest[k] == y);
                    assert(rest.contains(y));
                }
            }
            if rest.contains(y) {
                let k = choose|k: int| 0 <= k < rest.len() && rest[k] == y;
                assert(idx[k] == y);
            }
            assert(idx.contains(x)) by {
                assert(idx[idx.len() - 1] == x);
            }
            if r0.contains(y) {
                let k = choose|k: int| 0 <= k < r0.len() && r0[k] == y;
                assert(c[k] == y);
            }
            if c.contains(y) {
                let k = choose|k: int| 0 <= k < c.len() && c[k] == y;
                if k < r0.len() {
                    assert(r0[k] == y);
                    assert(r0.contains(y));
                }
            }
            if v.selected(x) {
                assert(c[r0.len() as int] == x);
                assert(c.contains(x));
            }
        }
        lemma_strictly_sorted_unique(r, c);
        let vars = item_vars(idx);
        assert(vars.drop_last() =~= item_vars(rest));
        assert(vars.last() == Var::Item(x));
    }
}

/// In the report of a valid selection every group comes with exactly
/// `GROUP_SIZE` item names, and the selection has `m.total` selected items.
pub proof fn lemma_projection_of_valid_selection(m: ModelView, v: Valuation)
    requires
        m.well_formed(),
        v.fits(m),
        group_size_ok(m, v),
        total_ok(m, v),
    ensures
        forall|k: int|
            0 <= k < projection(m, v).len() ==> (#[trigger] projection(m, v)[k]).1.len()
                == GROUP_SIZE,
        true_indices(v.items).len() == m.total,
{
    lemma_selected_count(v, v.items.len());
    lemma_true_upto(v.groups, v.groups.len());
    let active = true_indices(v.groups);
    assert forall|k: int| 0 <= k < projection(m, v).len() implies (#[trigger] projection(
        m,
        v,
    )[k]).1.len() == GROUP_SIZE by {
        let g = active[k];
        assert(active.contains(g));
        assert(v.active(g as int));
        lemma_selected_members(m.groups[g as int].1, v);
    }
}

} // verus!
