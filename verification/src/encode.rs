//! The constraint encoder: from a canonical model to the list of formulas
//! that a selection has to satisfy.
//!
//! There is one variable per item (the item is selected) and one per group
//! (the group is active). The formulas come in six families, in this order:
//! membership, overlap of two groups, group size, avoid sets, ignored groups,
//! and the total number of selected items.

use crate::formula::{
    exactly, exactly_prop, group_vars, group_vars_of, item_vars, item_vars_of, props, var_props,
    Formula, Prop, Var,
};
use crate::model::{Data, ModelView};
use crate::sorted::{contains_index, intersect, intersection, sorted, strictly_sorted};
use vstd::prelude::*;

verus! {

/// How many members of an active group are selected.
pub const GROUP_SIZE: u32 = 4;

/// How many items are selected in all, unless the configuration says otherwise.
pub const DEFAULT_TOTAL: u32 = 16;

/// The positions `0, 1, ..., n - 1`.
pub open spec fn all_indices(n: nat) -> Seq<usize> {
    Seq::new(n, |k: int| k as usize)
}

/// The lists `f(0), f(1), ..., f(n - 1)`, one after the other.
pub open spec fn concat_upto(n: nat, f: spec_fn(int) -> Seq<Prop>) -> Seq<Prop>
    decreases n,
{
    if n == 0 {
        Seq::empty()
    } else {
        concat_upto((n - 1) as nat, f) + f(n - 1)
    }
}

/// The groups among the first `upto` that hold the item, ascending.
pub open spec fn groups_of_upto(
    groups: Seq<(Seq<char>, Seq<usize>)>,
    item: usize,
    upto: nat,
) -> Seq<usize>
    decreases upto,
{
    if upto == 0 {
        Seq::empty()
    } else {
        let rest = groups_of_upto(groups, item, (upto - 1) as nat);
        if groups[upto - 1].1.contains(item) {
            rest.push((upto - 1) as usize)
        } else {
            rest
        }
    }
}

/// The groups that hold the item, ascending.
pub open spec fn groups_of(m: ModelView, item: usize) -> Seq<usize> {
    groups_of_upto(m.groups, item, m.groups.len())
}

/// Membership: an item is selected only if a group that holds it is active.
pub open spec fn membership_prop(m: ModelView, i: int) -> Prop {
    Prop::Implies(
        Box::new(Prop::Var(Var::Item(i as usize))),
        Box::new(Prop::Or(var_props(group_vars(groups_of(m, i as usize))))),
    )
}

/// The membership formulas, one per item, in the order of the items.
pub open spec fn membership_props(m: ModelView) -> Seq<Prop> {
    Seq::new(m.names.len(), |i: int| membership_prop(m, i))
}

/// Overlap: if the groups `a` and `b` are both active and an item that both
/// hold is selected, then exactly `GROUP_SIZE` of the items that both hold are selected.
pub open spec fn overlap_prop(a: int, b: int, shared: Seq<usize>) -> Prop {
    Prop::Implies(
        Box::new(
            Prop::And(
                seq![
                    Prop::Var(Var::Group(a as usize)),
                    Prop::Var(Var::Group(b as usize)),
                    Prop::Or(var_props(item_vars(shared))),
                ],
            ),
        ),
        Box::new(exactly_prop(item_vars(shared), GROUP_SIZE as nat)),
    )
}

/// The overlap formula of the groups `a` and `b`; none where they share no item.
pub open spec fn overlap_pair(m: ModelView, a: int, b: int) -> Seq<Prop> {
    let shared = intersect(m.groups[a].1, m.groups[b].1);
    if shared.len() == 0 {
        Seq::empty()
    } else {
        seq![overlap_prop(a, b, shared)]
    }
}

/// The overlap formulas of group `a` with every group before it.
pub open spec fn overlap_row(m: ModelView, a: int) -> Seq<Prop> {
    concat_upto(a as nat, |b: int| overlap_pair(m, a, b))
}

/// The overlap formulas: one for every two groups that share an item.
pub open spec fn overlap_props(m: ModelView) -> Seq<Prop> {
    concat_upto(m.groups.len(), |a: int| overlap_row(m, a))
}

/// Group size: an active group has exactly `GROUP_SIZE` selected members.
pub open spec fn group_size_prop(m: ModelView, g: int) -> Prop {
    Prop::Implies(
        Box::new(Prop::Var(Var::Group(g as usize))),
        Box::new(exactly_prop(item_vars(m.groups[g].1), GROUP_SIZE as nat)),
    )
}

/// The group size formulas, one per group, in the order of the groups.
pub open spec fn group_size_props(m: ModelView) -> Seq<Prop> {
    Seq::new(m.groups.len(), |g: int| group_size_prop(m, g))
}

/// Avoid: the group is not active together with both items selected.
pub open spec fn avoid_prop(g: int, x: usize, y: usize) -> Prop {
    Prop::Not(
        Box::new(
            Prop::And(
                seq![
                    Prop::Var(Var::Group(g as usize)),
                    Prop::Var(Var::Item(x)),
                    Prop::Var(Var::Item(y)),
                ],
            ),
        ),
    )
}

/// The avoid formulas of group `g` for item `inter[p]` with every item before it.
pub open spec fn avoid_with_earlier(g: int, inter: Seq<usize>, p: int) -> Seq<Prop> {
    Seq::new(p as nat, |q: int| avoid_prop(g, inter[p], inter[q]))
}

/// The avoid formulas of group `g` for every two of the items `inter`.
pub open spec fn avoid_pairs(g: int, inter: Seq<usize>) -> Seq<Prop> {
    concat_upto(inter.len(), |p: int| avoid_with_earlier(g, inter, p))
}

/// The avoid formulas of group `g` and avoid set `s`: for every two items
/// that the group and the avoid set both hold.
pub open spec fn avoid_cell(m: ModelView, g: int, s: int) -> Seq<Prop> {
    avoid_pairs(g, intersect(m.groups[g].1, m.avoid[s]))
}

/// The avoid formulas of group `g`, for every avoid set.
pub open spec fn avoid_row(m: ModelView, g: int) -> Seq<Prop> {
    concat_upto(m.avoid.len(), |s: int| avoid_cell(m, g, s))
}

/// The avoid formulas, for every group and every avoid set.
pub open spec fn avoid_props(m: ModelView) -> Seq<Prop> {
    concat_upto(m.groups.len(), |g: int| avoid_row(m, g))
}

/// Ignore: the group is not active.
pub open spec fn ignore_prop(m: ModelView, k: int) -> Prop {
    Prop::Not(Box::new(Prop::Var(Var::Group(m.ignore[k]))))
}

/// The ignore formulas, one per ignored group.
pub open spec fn ignore_props(m: ModelView) -> Seq<Prop> {
    Seq::new(m.ignore.len(), |k: int| ignore_prop(m, k))
}

/// Total: exactly `m.total` items are selected.
pub open spec fn total_prop(m: ModelView) -> Prop {
    exactly_prop(item_vars(all_indices(m.names.len())), m.total as nat)
}

/// Every formula that a selection has to satisfy, family by family.
pub open spec fn constraints(m: ModelView) -> Seq<Prop> {
    membership_props(m) + overlap_props(m) + group_size_props(m) + avoid_props(m) + ignore_props(
        m,
    ) + seq![total_prop(m)]
}

/// Pushing a formula pushes its mathematical value.
pub proof fn lemma_props_push(fs: Seq<Formula>, f: Formula)
    ensures
        props(fs.push(f)) == props(fs).push(f@),
{
    assert(props(fs.push(f)) =~= props(fs).push(f@));
}

/// Appending formulas appends their mathematical values.
pub proof fn lemma_props_add(fs: Seq<Formula>, gs: Seq<Formula>)
    ensures
        props(fs + gs) == props(fs) + props(gs),
{
    assert(props(fs + gs) =~= props(fs) + props(gs));
}

/// The groups that hold the item, ascending.
pub fn groups_holding(data: &Data, item: usize) -> (r: Vec<usize>)
    requires
        data.well_formed(),
    ensures
        r@ == groups_of(data@, item),
{
    let mut r: Vec<usize> = Vec::new();
    let mut g: usize = 0;
    let ghost m = data@;
    while g < data.props.len()
        invariant
            g <= data.props.len(),
            m == data@,
            data.well_formed(),
            r@ == groups_of_upto(m.groups, item, g as nat),
        decreases data.props.len() - g,
    {
        proof {
            assert(m.groups[g as int].1 == data.props@[g as int].1@);
            assert(strictly_sorted(m.groups[g as int].1));
        }
        if contains_index(data.props[g].1.as_slice(), item) {
            r.push(g);
        }
        g += 1;
    }
    r
}

/// The membership formulas: for every item, that it is selected only if a
/// group that holds it is active.
pub fn membership(data: &Data) -> (out: Vec<Formula>)
    requires
        data.well_formed(),
    ensures
        props(out@) == membership_props(data@),
{
    let mut out: Vec<Formula> = Vec::new();
    let mut i: usize = 0;
    let ghost m = data@;
    while i < data.names.len()
        invariant
            i <= data.names.len(),
            m == data@,
            data.well_formed(),
            props(out@) =~= Seq::new(i as nat, |k: int| membership_prop(m, k)),
        decreases data.names.len() - i,
    {
        let holders = groups_holding(data, i);
        let vars = group_vars_of(holders.as_slice());
        let f = Formula::implies(Formula::Var(Var::Item(i)), Formula::any_of(&vars));
        proof {
            assert(f@ == membership_prop(m, i as int));
            lemma_props_push(out@, f);
        }
        out.push(f);
        i += 1;
    }
    out
}

/// The overlap formula of two groups that share the items `shared`.
pub fn overlap(a: usize, b: usize, shared: &Vec<usize>) -> (f: Formula)
    ensures
        f@ == overlap_prop(a as int, b as int, shared@),
{
    let vars = item_vars_of(shared.as_slice());
    let mut parts: Vec<Formula> = Vec::new();
    parts.push(Formula::Var(Var::Group(a)));
    parts.push(Formula::Var(Var::Group(b)));
    parts.push(Formula::any_of(&vars));
    proof {
        assert(props(parts@) =~= seq![
            Prop::Var(Var::Group(a)),
            Prop::Var(Var::Group(b)),
            Prop::Or(var_props(item_vars(shared@))),
        ]);
    }
    Formula::implies(Formula::and(parts), exactly(&vars, GROUP_SIZE))
}

/// The overlap formulas: one for every two groups that share an item.
pub fn overlaps(data: &Data) -> (out: Vec<Formula>)
    requires
        data.well_formed(),
    ensures
        props(out@) == overlap_props(data@),
{
    let mut out: Vec<Formula> = Vec::new();
    let mut a: usize = 0;
    let ghost m = data@;
    let ghost rows = |a: int| overlap_row(m, a);
    while a < data.props.len()
        invariant
            a <= data.props.len(),
            m == data@,
            data.well_formed(),
            rows == |a: int| overlap_row(m, a),
            props(out@) == concat_upto(a as nat, rows),
        decreases data.props.len() - a,
    {
        let ghost done = props(out@);
        let ghost pairs = |b: int| overlap_pair(m, a as int, b);
        let mut b: usize = 0;
        while b < a
            invariant
                b <= a < data.props.len(),
                m == data@,
                data.well_formed(),
                pairs == |b: int| overlap_pair(m, a as int, b),
                props(out@) == done + concat_upto(b as nat, pairs),
            decreases a - b,
        {
            proof {
                assert(m.groups[a as int].1 == data.props@[a as int].1@);
                assert(m.groups[b as int].1 == data.props@[b as int].1@);
                assert(strictly_sorted(m.groups[a as int].1));
                assert(strictly_sorted(m.groups[b as int].1));
            }
            let shared = intersection(data.props[a].1.as_slice(), data.props[b].1.as_slice());
            if shared.len() > 0 {
                let f = overlap(a, b, &shared);
                proof {
                    lemma_props_push(out@, f);
                    assert(pairs(b as int) =~= seq![f@]);
                    assert(props(out@.push(f)) =~= done + concat_upto((b + 1) as nat, pairs));
                }
                out.push(f);
            } else {
                proof {
                    assert(pairs(b as int) =~= Seq::<Prop>::empty());
                    assert(props(out@) =~= done + concat_upto((b + 1) as nat, pairs));
                }
            }
            b += 1;
        }
        proof {
            assert(rows(a as int) == concat_upto(a as nat, pairs));
        }
        a += 1;
    }
    out
}

/// The group size formulas: for every group, that it has exactly
/// `GROUP_SIZE` selected members if it is active.
pub fn group_sizes(data: &Data) -> (out: Vec<Formula>)
    requires
        data.well_formed(),
    ensures
        props(out@) == group_size_props(data@),
{
    let mut out: Vec<Formula> = Vec::new();
    let mut g: usize = 0;
    let ghost m = data@;
    while g < data.props.len()
        invariant
            g <= data.props.len(),
            m == data@,
            props(out@) =~= Seq::new(g as nat, |k: int| group_size_prop(m, k)),
        decreases data.props.len() - g,
    {
        let vars = item_vars_of(data.props[g].1.as_slice());
        let f = Formula::implies(Formula::Var(Var::Group(g)), exactly(&vars, GROUP_SIZE));
        proof {
            assert(m.groups[g as int].1 == data.props@[g as int].1@);
            assert(f@ == group_size_prop(m, g as int));
            lemma_props_push(out@, f);
        }
        out.push(f);
        g += 1;
    }
    out
}

/// The formula that forbids group `g` to be active with the items `x` and `y` both selected.
pub fn avoid(g: usize, x: usize, y: usize) -> (f: Formula)
    ensures
        f@ == avoid_prop(g as int, x, y),
{
    let mut parts: Vec<Formula> = Vec::new();
    parts.push(Formula::Var(Var::Group(g)));
    parts.push(Formula::Var(Var::Item(x)));
    parts.push(Formula::Var(Var::Item(y)));
    proof {
        assert(props(parts@) =~= seq![
            Prop::Var(Var::Group(g)),
            Prop::Var(Var::Item(x)),
            Prop::Var(Var::Item(y)),
        ]);
    }
    Formula::not(Formula::and(parts))
}

/// Appends to `out` the avoid formulas of group `g` for every two of the items `inter`.
pub fn push_avoid_pairs(out: &mut Vec<Formula>, g: usize, inter: &Vec<usize>)
    ensures
        props(final(out)@) == props(old(out)@) + avoid_pairs(g as int, inter@),
{
    let ghost done = props(out@);
    let ghost rows = |p: int| avoid_with_earlier(g as int, inter@, p);
    let mut p: usize = 0;
    proof {
        assert(props(out@) =~= done + concat_upto(0, rows));
    }
    while p < inter.len()
        invariant
            p <= inter.len(),
            rows == |p: int| avoid_with_earlier(g as int, inter@, p),
            props(out@) == done + concat_upto(p as nat, rows),
        decreases inter.len() - p,
    {
        let ghost before = props(out@);
        let mut q: usize = 0;
        proof {
            assert(props(out@) =~= before + Seq::new(0, |q: int| avoid_prop(g as int, inter@[p as int], inter@[q])));
        }
        while q < p
            invariant
                q <= p < inter.len(),
                props(out@) == before + Seq::new(
                    q as nat,
                    |q: int| avoid_prop(g as int, inter@[p as int], inter@[q]),
                ),
            decreases p - q,
        {
            let f = avoid(g, inter[p], inter[q]);
            proof {
                lemma_props_push(out@, f);
                assert(props(out@.push(f)) =~= before + Seq::new(
                    (q + 1) as nat,
                    |q: int| avoid_prop(g as int, inter@[p as int], inter@[q]),
                ));
            }
            out.push(f);
            q += 1;
        }
        proof {
            assert(rows(p as int) =~= Seq::new(
                p as nat,
                |q: int| avoid_prop(g as int, inter@[p as int], inter@[q]),
            ));
            assert(props(out@) =~= done + concat_upto((p + 1) as nat, rows));
        }
        p += 1;
    }
}

/// The avoid formulas: for every group and every avoid set, that the group
/// is not active with two of the items selected that both of them hold.
pub fn avoids(data: &Data) -> (out: Vec<Formula>)
    requires
        data.well_formed(),
    ensures
        props(out@) == avoid_props(data@),
{
    let mut out: Vec<Formula> = Vec::new();
    let mut g: usize = 0;
    let ghost m = data@;
    let ghost rows = |g: int| avoid_row(m, g);
    while g < data.props.len()
        invariant
            g <= data.props.len(),
            m == data@,
            data.well_formed(),
            rows == |g: int| avoid_row(m, g),
            props(out@) == concat_upto(g as nat, rows),
        decreases data.props.len() - g,
    {
        let ghost done = props(out@);
        let ghost cells = |s: int| avoid_cell(m, g as int, s);
        let mut s: usize = 0;
        proof {
            assert(props(out@) =~= done + concat_upto(0, cells));
        }
        while s < data.avoid_grouping.len()
            invariant
                s <= data.avoid_grouping.len(),
                g < data.props.len(),
                m == data@,
                data.well_formed(),
                cells == |s: int| avoid_cell(m, g as int, s),
                props(out@) == done + concat_upto(s as nat, cells),
            decreases data.avoid_grouping.len() - s,
        {
            proof {
                assert(m.groups[g as int].1 == data.props@[g as int].1@);
                assert(m.avoid[s as int] == data.avoid_grouping@[s as int]@);
                assert(strictly_sorted(m.groups[g as int].1));
                assert(strictly_sorted(m.avoid[s as int]));
            }
            let inter = intersection(
                data.props[g].1.as_slice(),
                data.avoid_grouping[s].as_slice(),
            );
            push_avoid_pairs(&mut out, g, &inter);
            proof {
                assert(cells(s as int) == avoid_pairs(g as int, inter@));
                assert(props(out@) =~= done + concat_upto((s + 1) as nat, cells));
            }
            s += 1;
        }
        proof {
            assert(rows(g as int) == concat_upto(m.avoid.len(), cells));
            assert(m.avoid.len() == data.avoid_grouping@.len());
        }
        g += 1;
    }
    out
}

/// The ignore formulas: for every ignored group, that it is not active.
pub fn ignores(data: &Data) -> (out: Vec<Formula>)
    ensures
        props(out@) == ignore_props(data@),
{
    let mut out: Vec<Formula> = Vec::new();
    let mut k: usize = 0;
    let ghost m = data@;
    while k < data.ignore_groups.len()
        invariant
            k <= data.ignore_groups.len(),
            m == data@,
            props(out@) =~= Seq::new(k as nat, |j: int| ignore_prop(m, j)),
        decreases data.ignore_groups.len() - k,
    {
        let f = Formula::not(Formula::Var(Var::Group(data.ignore_groups[k])));
        proof {
            assert(f@ == ignore_prop(m, k as int));
            lemma_props_push(out@, f);
        }
        out.push(f);
        k += 1;
    }
    out
}

/// The formula that fixes how many items are selected in all.
pub fn total(data: &Data) -> (f: Formula)
    ensures
        f@ == total_prop(data@),
{
    let mut vars: Vec<Var> = Vec::new();
    let mut i: usize = 0;
    while i < data.names.len()
        invariant
            i <= data.names.len(),
            vars@ =~= item_vars(all_indices(i as nat)),
        decreases data.names.len() - i,
    {
        vars.push(Var::Item(i));
        i += 1;
    }
    exactly(&vars, data.total)
}

/// Every formula that a selection has to satisfy, family by family.
pub fn encode(data: &Data) -> (out: Vec<Formula>)
    requires
        data.well_formed(),
    ensures
        props(out@) == constraints(data@),
{
    let mut out = membership(data);
    let mut part = overlaps(data);
    proof {
        lemma_props_add(out@, part@);
    }
    out.append(&mut part);
    let mut part = group_sizes(data);
    proof {
        lemma_props_add(out@, part@);
    }
    out.append(&mut part);
    let mut part = avoids(data);
    proof {
        lemma_props_add(out@, part@);
    }
    out.append(&mut part);
    let mut part = ignores(data);
    proof {
        lemma_props_add(out@, part@);
    }
    out.append(&mut part);
    let f = total(data);
    proof {
        lemma_props_push(out@, f);
    }
    out.push(f);
    proof {
        let m = data@;
        assert(props(out@) =~= constraints(m));
    }
    out
}

} // verus!
