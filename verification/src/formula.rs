//! Boolean formulas over the decision variables, and what it means for an
//! assignment to satisfy one.

use vstd::prelude::*;

verus! {

/// A decision variable: whether an item is selected, or whether a group is active.
#[derive(Clone, Copy, PartialEq, Eq, Structural, Debug)]
pub enum Var {
    /// The item at this position of the item list is selected.
    Item(usize),
    /// The group at this position of the group list is active.
    Group(usize),
}

/// A formula as it is built and handed to a solver.
#[derive(PartialEq, Eq, Debug)]
pub enum Formula {
    /// A decision variable.
    Var(Var),
    /// Negation.
    Not(Box<Formula>),
    /// Conjunction of any number of formulas.
    And(Vec<Formula>),
    /// Disjunction of any number of formulas.
    Or(Vec<Formula>),
    /// The first implies the second.
    Implies(Box<Formula>, Box<Formula>),
    /// At least so many of the variables are true.
    AtLeast(Vec<Var>, u32),
    /// At most so many of the variables are true.
    AtMost(Vec<Var>, u32),
}

/// A formula as a mathematical value.
pub enum Prop {
    Var(Var),
    Not(Box<Prop>),
    And(Seq<Prop>),
    Or(Seq<Prop>),
    Implies(Box<Prop>, Box<Prop>),
    AtLeast(Seq<Var>, nat),
    AtMost(Seq<Var>, nat),
}

/// A truth value for every item and every group.
pub struct Valuation {
    pub items: Seq<bool>,
    pub groups: Seq<bool>,
}

impl Var {
    /// The value of the variable. A variable that the valuation does not
    /// cover counts as false.
    pub open spec fn value(self, v: Valuation) -> bool {
        match self {
            Var::Item(i) => i < v.items.len() && v.items[i as int],
            Var::Group(g) => g < v.groups.len() && v.groups[g as int],
        }
    }
}

/// How many of the variables are true, each counted as often as it is listed.
pub open spec fn count_true(vars: Seq<Var>, v: Valuation) -> nat
    decreases vars.len(),
{
    if vars.len() == 0 {
        0
    } else {
        count_true(vars.drop_last(), v) + if vars.last().value(v) {
            1nat
        } else {
            0nat
        }
    }
}

impl Prop {
    /// Whether the valuation satisfies the formula.
    pub open spec fn holds(self, v: Valuation) -> bool
        decreases self,
    {
        match self {
            Prop::Var(x) => x.value(v),
            Prop::Not(f) => !f.holds(v),
            Prop::And(fs) => forall|i: int| 0 <= i < fs.len() ==> (#[trigger] fs[i]).holds(v),
            Prop::Or(fs) => exists|i: int| 0 <= i < fs.len() && (#[trigger] fs[i]).holds(v),
            Prop::Implies(a, b) => a.holds(v) ==> b.holds(v),
            Prop::AtLeast(vars, k) => count_true(vars, v) >= k,
            Prop::AtMost(vars, k) => count_true(vars, v) <= k,
        }
    }
}

impl Formula {
    /// The formula as a mathematical value.
    pub open spec fn prop(&self) -> Prop
        decreases self,
    {
        match self {
            Formula::Var(x) => Prop::Var(*x),
            Formula::Not(f) => Prop::Not(Box::new(f.prop())),
            Formula::And(fs) => Prop::And(
                Seq::new(
                    fs.len() as nat,
                    |i: int|
                        if 0 <= i < fs.len() {
                            fs[i].prop()
                        } else {
                            arbitrary()
                        },
                ),
            ),
            Formula::Or(fs) => Prop::Or(
                Seq::new(
                    fs.len() as nat,
                    |i: int|
                        if 0 <= i < fs.len() {
                            fs[i].prop()
                        } else {
                            arbitrary()
                        },
                ),
            ),
            Formula::Implies(a, b) => Prop::Implies(Box::new(a.prop()), Box::new(b.prop())),
            Formula::AtLeast(vars, k) => Prop::AtLeast(vars@, *k as nat),
            Formula::AtMost(vars, k) => Prop::AtMost(vars@, *k as nat),
        }
    }
}

impl View for Formula {
    type V = Prop;

    open spec fn view(&self) -> Prop {
        self.prop()
    }
}

/// The variables as formulas.
pub open spec fn var_props(vars: Seq<Var>) -> Seq<Prop> {
    Seq::new(vars.len(), |k: int| Prop::Var(vars[k]))
}

/// The variables of the items at the given positions.
pub open spec fn item_vars(idx: Seq<usize>) -> Seq<Var> {
    Seq::new(idx.len(), |k: int| Var::Item(idx[k]))
}

/// The variables of the groups at the given positions.
pub open spec fn group_vars(idx: Seq<usize>) -> Seq<Var> {
    Seq::new(idx.len(), |k: int| Var::Group(idx[k]))
}

/// The formulas of a list as mathematical values.
pub open spec fn props(fs: Seq<Formula>) -> Seq<Prop> {
    Seq::new(fs.len(), |i: int| fs[i]@)
}

/// Whether the valuation satisfies every formula of the list.
pub open spec fn satisfies_all(cs: Seq<Prop>, v: Valuation) -> bool {
    forall|i: int| 0 <= i < cs.len() ==> (#[trigger] cs[i]).holds(v)
}

/// "Exactly `k` of the variables are true", put together from "at least `k`"
/// and "at most `k`" over the same variables.
pub open spec fn exactly_prop(vars: Seq<Var>, k: nat) -> Prop {
    Prop::And(seq![Prop::AtLeast(vars, k), Prop::AtMost(vars, k)])
}

/// A truth value for every item and every group, as a solver reports it.
#[derive(Clone, PartialEq, Eq, Debug)]
pub struct Assignment {
    /// For each item, whether it is selected.
    pub items: Vec<bool>,
    /// For each group, whether it is active.
    pub groups: Vec<bool>,
}

impl View for Assignment {
    type V = Valuation;

    open spec fn view(&self) -> Valuation {
        Valuation { items: self.items@, groups: self.groups@ }
    }
}

impl Var {
    /// The value of the variable under the assignment; false where the
    /// assignment does not cover it.
    pub fn value_in(&self, a: &Assignment) -> (r: bool)
        ensures
            r == self.value(a@),
    {
        match self {
            Var::Item(i) => *i < a.items.len() && a.items[*i],
            Var::Group(g) => *g < a.groups.len() && a.groups[*g],
        }
    }
}

/// No more variables are true than are listed.
pub proof fn lemma_count_bounded(vars: Seq<Var>, v: Valuation)
    ensures
        count_true(vars, v) <= vars.len(),
    decreases vars.len(),
{
    if vars.len() > 0 {
        lemma_count_bounded(vars.drop_last(), v);
    }
}

/// As many variables are true as are listed exactly if every listed
/// variable is true.
pub proof fn lemma_count_full(vars: Seq<Var>, v: Valuation)
    ensures
        count_true(vars, v) == vars.len() <==> forall|k: int|
            0 <= k < vars.len() ==> (#[trigger] vars[k]).value(v),
    decreases vars.len(),
{
    if vars.len() > 0 {
        let rest = vars.drop_last();
        lemma_count_full(rest, v);
        lemma_count_bounded(rest, v);
        if count_true(vars, v) == vars.len() {
            assert forall|k: int| 0 <= k < vars.len() implies (#[trigger] vars[k]).value(v) by {
                if k < rest.len() {
                    assert(rest[k] == vars[k]);
                }
            }
        }
        if forall|k: int| 0 <= k < vars.len() ==> (#[trigger] vars[k]).value(v) {
            assert forall|k: int| 0 <= k < rest.len() implies (#[trigger] rest[k]).value(v) by {
                assert(rest[k] == vars[k]);
            }
            assert(vars.last() == vars[vars.len() - 1]);
        }
    }
}

/// How many of the variables are true under the assignment.
pub fn count_true_in(vars: &Vec<Var>, a: &Assignment) -> (n: usize)
    ensures
        n == count_true(vars@, a@),
{
    let mut n: usize = 0;
    let mut i: usize = 0;
    while i < vars.len()
        invariant
            i <= vars.len(),
            n <= i,
            n == count_true(vars@.take(i as int), a@),
        decreases vars.len() - i,
    {
        proof {
            assert(vars@.take(i + 1).drop_last() =~= vars@.take(i as int));
        }
        if vars[i].value_in(a) {
            n += 1;
        }
        i += 1;
    }
    proof {
        assert(vars@.take(i as int) =~= vars@);
    }
    n
}

impl Formula {
    /// Whether the assignment satisfies the formula.
    #[verifier::loop_isolation(false)]
    pub fn holds_in(&self, a: &Assignment) -> (r: bool)
        ensures
            r == self@.holds(a@),
        decreases self,
    {
        match self {
            Formula::Var(x) => x.value_in(a),
            Formula::Not(f) => !f.holds_in(a),
            Formula::And(fs) => {
                let mut i: usize = 0;
                while i < fs.len()
                    invariant
                        i <= fs.len(),
                        forall|k: int| 0 <= k < i ==> (#[trigger] fs@[k])@.holds(a@),
                    decreases fs.len() - i,
                {
                    if !fs[i].holds_in(a) {
                        proof {
                            assert(self@->And_0[i as int] == fs@[i as int]@);
                        }
                        return false;
                    }
                    i += 1;
                }
                proof {
                    assert forall|k: int| 0 <= k < self@->And_0.len() implies (#[trigger] self@->And_0[k]).holds(a@) by {
                        assert(self@->And_0[k] == fs@[k]@);
                    }
                }
                true
            },
            Formula::Or(fs) => {
                let mut i: usize = 0;
                while i < fs.len()
                    invariant
                        i <= fs.len(),
                        forall|k: int| 0 <= k < i ==> !(#[trigger] fs@[k])@.holds(a@),
                    decreases fs.len() - i,
                {
                    if fs[i].holds_in(a) {
                        proof {
                            assert(self@->Or_0[i as int] == fs@[i as int]@);
                        }
                        return true;
                    }
                    i += 1;
                }
                proof {
                    assert forall|k: int| 0 <= k < self@->Or_0.len() implies !(#[trigger] self@->Or_0[k]).holds(a@) by {
                        assert(self@->Or_0[k] == fs@[k]@);
                    }
                }
                false
            },
            Formula::Implies(p, q) => !p.holds_in(a) || q.holds_in(a),
            Formula::AtLeast(vars, k) => {
                proof {
                    lemma_count_bounded(vars@, a@);
                }
                count_true_in(vars, a) as u64 >= *k as u64
            },
            Formula::AtMost(vars, k) => {
                proof {
                    lemma_count_bounded(vars@, a@);
                }
                count_true_in(vars, a) as u64 <= *k as u64
            },
        }
    }
}

impl Formula {
    /// The negation of a formula.
    pub fn not(f: Formula) -> (r: Formula)
        ensures
            r@ == Prop::Not(Box::new(f@)),
    {
        Formula::Not(Box::new(f))
    }

    /// The implication from `a` to `b`.
    pub fn implies(a: Formula, b: Formula) -> (r: Formula)
        ensures
            r@ == Prop::Implies(Box::new(a@), Box::new(b@)),
    {
        Formula::Implies(Box::new(a), Box::new(b))
    }

    /// The conjunction of the formulas.
    pub fn and(fs: Vec<Formula>) -> (r: Formula)
        ensures
            r@ == Prop::And(props(fs@)),
    {
        let ghost ps = props(fs@);
        let r = Formula::And(fs);
        proof {
            assert(r@->And_0 =~= ps);
        }
        r
    }

    /// The disjunction of the formulas.
    pub fn or(fs: Vec<Formula>) -> (r: Formula)
        ensures
            r@ == Prop::Or(props(fs@)),
    {
        let ghost ps = props(fs@);
        let r = Formula::Or(fs);
        proof {
            assert(r@->Or_0 =~= ps);
        }
        r
    }

    /// The disjunction of the variables: at least one of them is true.
    pub fn any_of(vars: &Vec<Var>) -> (r: Formula)
        ensures
            r@ == Prop::Or(var_props(vars@)),
    {
        let mut fs: Vec<Formula> = Vec::new();
        let mut i: usize = 0;
        while i < vars.len()
            invariant
                i <= vars.len(),
                props(fs@) =~= var_props(vars@.take(i as int)),
            decreases vars.len() - i,
        {
            let ghost before = fs@;
            fs.push(Formula::Var(vars[i]));
            proof {
                assert(props(fs@) =~= props(before).push(Prop::Var(vars@[i as int])));
                assert(var_props(vars@.take(i + 1)) =~= var_props(vars@.take(i as int)).push(
                    Prop::Var(vars@[i as int]),
                ));
            }
            i += 1;
        }
        proof {
            assert(vars@.take(i as int) =~= vars@);
        }
        Formula::or(fs)
    }
}

/// Whether the assignment satisfies every formula of the list.
pub fn satisfies_all_in(cs: &Vec<Formula>, a: &Assignment) -> (r: bool)
    ensures
        r == satisfies_all(props(cs@), a@),
{
    let mut i: usize = 0;
    while i < cs.len()
        invariant
            i <= cs.len(),
            forall|k: int| 0 <= k < i ==> (#[trigger] props(cs@)[k]).holds(a@),
        decreases cs.len() - i,
    {
        if !cs[i].holds_in(a) {
            proof {
                assert(props(cs@)[i as int] == cs@[i as int]@);
            }
            return false;
        }
        proof {
            assert(props(cs@)[i as int] == cs@[i as int]@);
        }
        i += 1;
    }
    true
}

/// The variables of the items at the given positions.
pub fn item_vars_of(idx: &[usize]) -> (r: Vec<Var>)
    ensures
        r@ == item_vars(idx@),
{
    let mut r: Vec<Var> = Vec::new();
    let mut i: usize = 0;
    while i < idx.len()
        invariant
            i <= idx.len(),
            r@ =~= item_vars(idx@.take(i as int)),
        decreases idx.len() - i,
    {
        r.push(Var::Item(idx[i]));
        proof {
            assert(item_vars(idx@.take(i + 1)) =~= item_vars(idx@.take(i as int)).push(
                Var::Item(idx@[i as int]),
            ));
        }
        i += 1;
    }
    proof {
        assert(idx@.take(i as int) =~= idx@);
    }
    r
}

/// The variables of the groups at the given positions.
pub fn group_vars_of(idx: &[usize]) -> (r: Vec<Var>)
    ensures
        r@ == group_vars(idx@),
{
    let mut r: Vec<Var> = Vec::new();
    let mut i: usize = 0;
    while i < idx.len()
        invariant
            i <= idx.len(),
            r@ =~= group_vars(idx@.take(i as int)),
        decreases idx.len() - i,
    {
        r.push(Var::Group(idx[i]));
        proof {
            assert(group_vars(idx@.take(i + 1)) =~= group_vars(idx@.take(i as int)).push(
                Var::Group(idx@[i as int]),
            ));
        }
        i += 1;
    }
    proof {
        assert(idx@.take(i as int) =~= idx@);
    }
    r
}

/// A copy of a list of variables.
pub fn copy_vars(vars: &Vec<Var>) -> (r: Vec<Var>)
    ensures
        r@ == vars@,
{
    let mut r: Vec<Var> = Vec::new();
    let mut i: usize = 0;
    while i < vars.len()
        invariant
            i <= vars.len(),
            r@ == vars@.take(i as int),
        decreases vars.len() - i,
    {
        r.push(vars[i]);
        proof {
            assert(vars@.take(i + 1) =~= vars@.take(i as int).push(vars@[i as int]));
        }
        i += 1;
    }
    proof {
        assert(vars@.take(i as int) =~= vars@);
    }
    r
}

/// The formula "exactly `k` of the variables are true": the conjunction of
/// "at least `k`" and "at most `k`" over the same variables.
pub fn exactly(vars: &Vec<Var>, k: u32) -> (f: Formula)
    ensures
        f@ == exactly_prop(vars@, k as nat),
{
    let lower = Formula::AtLeast(copy_vars(vars), k);
    let upper = Formula::AtMost(copy_vars(vars), k);
    let mut parts: Vec<Formula> = Vec::new();
    parts.push(lower);
    parts.push(upper);
    let f = Formula::And(parts);
    proof {
        reveal_with_fuel(Formula::prop, 2);
        assert(f@->And_0 =~= seq![Prop::AtLeast(vars@, k as nat), Prop::AtMost(vars@, k as nat)]);
    }
    f
}

/// A conjunction holds exactly if every part holds.
pub proof fn lemma_and_holds(fs: Seq<Prop>, v: Valuation)
    ensures
        Prop::And(fs).holds(v) <==> forall|i: int| 0 <= i < fs.len() ==> (#[trigger] fs[i]).holds(v),
{
    let whole = Prop::And(fs);
    assert(whole->And_0 == fs);
}

/// A disjunction holds exactly if some part holds.
pub proof fn lemma_or_holds(fs: Seq<Prop>, v: Valuation)
    ensures
        Prop::Or(fs).holds(v) <==> exists|i: int| 0 <= i < fs.len() && (#[trigger] fs[i]).holds(v),
{
    let whole = Prop::Or(fs);
    assert(whole->Or_0 == fs);
}

/// A valuation satisfies "exactly `k`" if and only if `k` of the variables
/// are true, no more and no fewer; this holds for every `k`, also for zero
/// and for the number of variables.
pub proof fn lemma_exactly(vars: Seq<Var>, k: nat, v: Valuation)
    ensures
        exactly_prop(vars, k).holds(v) <==> count_true(vars, v) == k,
{
    let parts = seq![Prop::AtLeast(vars, k), Prop::AtMost(vars, k)];
    lemma_and_holds(parts, v);
    assert(parts[0].holds(v) == (count_true(vars, v) >= k));
    assert(parts[1].holds(v) == (count_true(vars, v) <= k));
}

/// No valuation satisfies "exactly `k`" and "exactly `t`" of the same
/// variables for two different numbers.
pub proof fn lemma_exactly_conflict(vars: Seq<Var>, k: nat, t: nat, v: Valuation)
    requires
        k != t,
    ensures
        !(exactly_prop(vars, k).holds(v) && exactly_prop(vars, t).holds(v)),
{
    lemma_exactly(vars, k, v);
    lemma_exactly(vars, t, v);
}

/// "Exactly `k`" of fewer than `k` variables cannot be satisfied.
pub proof fn lemma_exactly_too_few(vars: Seq<Var>, k: nat, v: Valuation)
    requires
        vars.len() < k,
    ensures
        !exactly_prop(vars, k).holds(v),
{
    lemma_exactly(vars, k, v);
    lemma_count_bounded(vars, v);
}

} // verus!
